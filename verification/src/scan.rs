//! The choice of the rule that reads the next token.

use crate::rule::Rule;
use vstd::prelude::*;

verus! {

/// A rule of the table and the length of its match.
pub struct Choice {
    pub rule: nat,
    pub len: nat,
}

/// The better of a choice made among earlier rules and the match of a later
/// rule: the later rule wins only with a strictly longer match.
pub open spec fn better(earlier: Option<Choice>, rule: nat, found: Option<nat>) -> Option<Choice> {
    match (earlier, found) {
        (_, None) => earlier,
        (None, Some(n)) => Some(Choice { rule, len: n }),
        (Some(c), Some(n)) => if n > c.len {
            Some(Choice { rule, len: n })
        } else {
            earlier
        },
    }
}

/// The choice among the first `k` rules of the table.
pub open spec fn winner_among(rules: Seq<Rule>, input: Seq<u8>, k: nat) -> Option<Choice>
    decreases k,
{
    if k == 0 {
        None
    } else {
        better(
            winner_among(rules, input, (k - 1) as nat),
            (k - 1) as nat,
            rules[k - 1].pattern.longest(input),
        )
    }
}

/// The rule that reads the next token of `input`, with the length of its
/// match; `None` where no rule matches.
pub open spec fn winner(rules: Seq<Rule>, input: Seq<u8>) -> Option<Choice> {
    winner_among(rules, input, rules.len())
}

/// Whether `c` is the longest match of all the first `k` rules and, among
/// the rules that match as long, that of the first.
pub open spec fn wins_among(rules: Seq<Rule>, input: Seq<u8>, k: nat, c: Choice) -> bool {
    &&& c.rule < k
    &&& rules[c.rule as int].pattern.longest(input) == Some(c.len)
    &&& forall|i: int|
        0 <= i < k ==> match (#[trigger] rules[i]).pattern.longest(input) {
            Some(m) => m < c.len || (m == c.len && c.rule <= i),
            None => true,
        }
}

/// Whether none of the first `k` rules matches.
pub open spec fn none_among(rules: Seq<Rule>, input: Seq<u8>, k: nat) -> bool {
    forall|i: int| 0 <= i < k ==> (#[trigger] rules[i]).pattern.longest(input) is None
}

/// Whether `c` is the longest match of all rules and, among the rules that
/// match as long, that of the first.
pub open spec fn wins(rules: Seq<Rule>, input: Seq<u8>, c: Choice) -> bool {
    wins_among(rules, input, rules.len(), c)
}

proof fn lemma_winner_among(rules: Seq<Rule>, input: Seq<u8>, k: nat)
    requires
        k <= rules.len(),
    ensures
        match winner_among(rules, input, k) {
            Some(c) => wins_among(rules, input, k, c),
            None => none_among(rules, input, k),
        },
    decreases k,
{
    if k > 0 {
        lemma_winner_among(rules, input, (k - 1) as nat);
    }
}

/// The winner is the longest match; among equally long matches it is the
/// match of the rule that stands first in the table; and there is no winner
/// only where no rule matches.
pub proof fn lemma_longest_then_first(rules: Seq<Rule>, input: Seq<u8>)
    ensures
        match winner(rules, input) {
            Some(c) => wins(rules, input, c),
            None => none_among(rules, input, rules.len()),
        },
{
    lemma_winner_among(rules, input, rules.len());
}

/// There is one winner only: whatever is the longest match and first among
/// the equally long is the winner.
pub proof fn lemma_winner_unique(rules: Seq<Rule>, input: Seq<u8>, c: Choice)
    requires
        wins(rules, input, c),
    ensures
        winner(rules, input) == Some(c),
{
    lemma_longest_then_first(rules, input);
    match winner(rules, input) {
        Some(w) => {
            assert(rules[w.rule as int].pattern.longest(input) == Some(w.len));
            assert(rules[c.rule as int].pattern.longest(input) == Some(c.len));
        },
        None => {
            assert(rules[c.rule as int].pattern.longest(input) is None);
        },
    }
}

/// A longer match beats a shorter one, whatever the order of the rules.
pub proof fn lemma_longer_wins(rules: Seq<Rule>, input: Seq<u8>, i: int, j: int)
    requires
        0 <= i < rules.len(),
        0 <= j < rules.len(),
        rules[i].pattern.longest(input) is Some,
        rules[j].pattern.longest(input) is Some,
        rules[i].pattern.longest(input)->0 < rules[j].pattern.longest(input)->0,
    ensures
        winner(rules, input) is Some,
        winner(rules, input)->0.rule != i,
        winner(rules, input)->0.len >= rules[j].pattern.longest(input)->0,
{
    lemma_longest_then_first(rules, input);
    assert(rules[j].pattern.longest(input) is Some);
}

/// Of two rules with equally long matches the later one never wins.
pub proof fn lemma_earlier_wins(rules: Seq<Rule>, input: Seq<u8>, i: int, j: int)
    requires
        0 <= i < j < rules.len(),
        rules[i].pattern.longest(input) is Some,
        rules[i].pattern.longest(input) == rules[j].pattern.longest(input),
    ensures
        winner(rules, input) is Some,
        winner(rules, input)->0.rule != j,
{
    lemma_longest_then_first(rules, input);
    assert(rules[i].pattern.longest(input) is Some);
}

/// Chooses the rule that reads the next token of `input`: the rule with the
/// longest match, and of several with equally long matches the first. The
/// result is the rule's index in `rules` and the length of the match.
pub fn select(rules: &[Rule], input: &[u8]) -> (r: Option<(usize, usize)>)
    ensures
        match r {
            Some((k, n)) => {
                &&& winner(rules@, input@) == Some(Choice { rule: k as nat, len: n as nat })
                &&& wins(rules@, input@, Choice { rule: k as nat, len: n as nat })
                &&& n <= input@.len()
            },
            None => winner(rules@, input@) is None && none_among(
                rules@,
                input@,
                rules@.len(),
            ),
        },
{
    let mut best: Option<(usize, usize)> = None;
    let mut k: usize = 0;
    while k < rules.len()
        invariant
            k <= rules@.len(),
            match best {
                Some((j, n)) => winner_among(rules@, input@, k as nat) == Some(
                    Choice { rule: j as nat, len: n as nat },
                ) && n <= input@.len(),
                None => winner_among(rules@, input@, k as nat) is None,
            },
        decreases rules@.len() - k,
    {
        let found = rules[k].pattern.longest_match(input);
        proof {
            rules@[k as int].pattern.lemma_longest(input@);
        }
        match found {
            Some(n) => {
                match best {
                    Some((_, m)) => {
                        if n > m {
                            best = Some((k, n));
                        }
                    },
                    None => {
                        best = Some((k, n));
                    },
                }
            },
            None => {},
        }
        k += 1;
    }
    proof {
        lemma_longest_then_first(rules@, input@);
    }
    best
}

} // verus!
