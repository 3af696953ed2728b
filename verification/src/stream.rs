//! The sequence of steps that a table of rules makes over an input.

use crate::boundary::lemma_first_char;
use crate::pattern::{char_width, Pattern};
use crate::rule::{Constructor, Rule};
use crate::scan::{lemma_longest_then_first, winner};
use crate::token::{Token, TokenView};
use vstd::prelude::*;
use vstd::utf8::{is_char_boundary, valid_utf8, valid_utf8_split};

verus! {

/// One step of the scan: the rule that won, and the bytes `[lo, hi)` of the
/// input that it matched.
pub struct Step {
    pub rule: nat,
    pub lo: nat,
    pub hi: nat,
}

impl Step {
    /// The bytes of `input` that the step covers.
    pub open spec fn text(self, input: Seq<u8>) -> Seq<u8> {
        input.subrange(self.lo as int, self.hi as int)
    }

    /// The token that the step yields.
    pub open spec fn token(self, rules: Seq<Rule>, input: Seq<u8>) -> TokenView {
        rules[self.rule as int].constructor.token(self.text(input))
    }

    /// Whether the step yields whitespace or a comment.
    pub open spec fn insignificant(self, rules: Seq<Rule>) -> bool {
        rules[self.rule as int].constructor.insignificant()
    }

    /// Whether the step moves forward from `pos` and stays inside `input`.
    pub open spec fn advances(self, input: Seq<u8>, pos: nat) -> bool {
        self.lo == pos && pos < self.hi <= input.len()
    }
}

/// The step that the rules make at `pos`: the winner on the rest of the
/// input. `None` where no rule matches there.
pub open spec fn step_at(rules: Seq<Rule>, input: Seq<u8>, pos: nat) -> Option<Step> {
    match winner(rules, input.skip(pos as int)) {
        Some(c) => Some(Step { rule: c.rule, lo: pos, hi: pos + c.len }),
        None => None,
    }
}

/// All the steps from `pos` on, as far as the scan gets.
pub open spec fn steps_from(rules: Seq<Rule>, input: Seq<u8>, pos: nat) -> Seq<Step>
    decreases input.len() - pos,
{
    match step_at(rules, input, pos) {
        Some(s) => if s.advances(input, pos) {
            seq![s] + steps_from(rules, input, s.hi)
        } else {
            seq![]
        },
        None => seq![],
    }
}

/// The place of the first step from `pos` on that is neither whitespace nor
/// a comment, or the place where the scan ends.
pub open spec fn skip_insignificant(rules: Seq<Rule>, input: Seq<u8>, pos: nat) -> nat
    decreases input.len() - pos,
{
    match step_at(rules, input, pos) {
        Some(s) => if s.insignificant(rules) && s.advances(input, pos) {
            skip_insignificant(rules, input, s.hi)
        } else {
            pos
        },
        None => pos,
    }
}

/// The first step from `pos` on that is neither whitespace nor a comment.
pub open spec fn next_at(rules: Seq<Rule>, input: Seq<u8>, pos: nat) -> Option<Step> {
    step_at(rules, input, skip_insignificant(rules, input, pos))
}

/// The bytes that the steps cover, one after the other.
pub open spec fn covered(input: Seq<u8>, steps: Seq<Step>) -> Seq<u8>
    decreases steps.len(),
{
    if steps.len() == 0 {
        seq![]
    } else {
        steps[0].text(input) + covered(input, steps.drop_first())
    }
}

/// Whether every rule of the table has a well-formed pattern.
pub open spec fn well_formed(rules: Seq<Rule>) -> bool {
    forall|i: int| 0 <= i < rules.len() ==> (#[trigger] rules[i]).pattern.well_formed()
}

/// A step of well-formed rules on UTF-8 input moves forward, stays inside
/// the input, and ends where a character ends: what is left after it is
/// UTF-8 again.
pub proof fn lemma_step_advances(rules: Seq<Rule>, input: Seq<u8>, pos: nat)
    requires
        well_formed(rules),
        pos <= input.len(),
        valid_utf8(input.skip(pos as int)),
        step_at(rules, input, pos) is Some,
    ensures
        step_at(rules, input, pos)->0.advances(input, pos),
        step_at(rules, input, pos)->0.rule < rules.len(),
        is_char_boundary(input.skip(pos as int), step_at(rules, input, pos)->0.hi - pos),
        valid_utf8(input.skip(step_at(rules, input, pos)->0.hi as int)),
{
    let rest = input.skip(pos as int);
    lemma_longest_then_first(rules, rest);
    let c = winner(rules, rest)->0;
    rules[c.rule as int].pattern.lemma_match_is_text(rest);
    valid_utf8_split(rest, c.len as int);
    assert(rest.subrange(c.len as int, rest.len() as int) =~= input.skip((pos + c.len) as int));
}

/// Where the last rule accepts any character, some rule matches wherever
/// UTF-8 input is left.
pub proof fn lemma_some_rule_matches(rules: Seq<Rule>, input: Seq<u8>)
    requires
        rules.len() >= 1,
        rules[rules.len() - 1].pattern == Pattern::AnyChar,
        valid_utf8(input),
        input.len() >= 1,
    ensures
        winner(rules, input) is Some,
{
    lemma_first_char(input);
    let p = Pattern::AnyChar;
    let w = char_width(input[0]);
    assert(input.take(w as int)[0] == input[0]);
    assert forall|m: int| w < m <= input.len() implies !p.accepts(#[trigger] input.take(m)) by {
        assert(input.take(m)[0] == input[0]);
    }
    p.lemma_is_longest(input, w);
    lemma_longest_then_first(rules, input);
    assert(rules[rules.len() - 1].pattern.longest(input) is Some);
}

/// Well-formed rules match nothing in an empty input.
pub proof fn lemma_no_step_at_end(rules: Seq<Rule>, input: Seq<u8>)
    requires
        well_formed(rules),
    ensures
        step_at(rules, input, input.len()) is None,
{
    let rest = input.skip(input.len() as int);
    lemma_longest_then_first(rules, rest);
    if winner(rules, rest) is Some {
        let c = winner(rules, rest)->0;
        rules[c.rule as int].pattern.lemma_match_is_text(rest);
    }
}

/// Each step begins where the one before it ended, the first at `pos`, and
/// each covers at least one byte of the input.
pub proof fn lemma_contiguous(rules: Seq<Rule>, input: Seq<u8>, pos: nat)
    requires
        pos <= input.len(),
    ensures
        ({
            let steps = steps_from(rules, input, pos);
            &&& steps.len() > 0 ==> steps[0].lo == pos
            &&& forall|i: int| 0 < i < steps.len() ==> (#[trigger] steps[i]).lo == steps[i - 1].hi
            &&& forall|i: int|
                0 <= i < steps.len() ==> (#[trigger] steps[i]).lo < steps[i].hi <= input.len()
        }),
    decreases input.len() - pos,
{
    match step_at(rules, input, pos) {
        Some(s) => {
            if s.advances(input, pos) {
                lemma_contiguous(rules, input, s.hi);
                let rest = steps_from(rules, input, s.hi);
                let steps = steps_from(rules, input, pos);
                assert(steps == seq![s] + rest);
                assert forall|i: int| 0 < i < steps.len() implies (#[trigger] steps[i]).lo
                    == steps[i - 1].hi by {
                    assert(steps[i] == rest[i - 1]);
                    if i > 1 {
                        assert(steps[i - 1] == rest[i - 2]);
                    }
                }
                assert forall|i: int| 0 <= i < steps.len() implies (#[trigger] steps[i]).lo
                    < steps[i].hi <= input.len() by {
                    if i > 0 {
                        assert(steps[i] == rest[i - 1]);
                    }
                }
            }
        },
        None => {},
    }
}

/// The end of the last of the steps from `pos` on; `pos` where there is no
/// step.
pub open spec fn end_of(steps: Seq<Step>, pos: nat) -> nat {
    if steps.len() == 0 {
        pos
    } else {
        steps[steps.len() - 1].hi
    }
}

/// The texts of the steps, put together, are the input from `pos` to the
/// end of the last step.
pub proof fn lemma_covered(rules: Seq<Rule>, input: Seq<u8>, pos: nat)
    requires
        pos <= input.len(),
    ensures
        pos <= end_of(steps_from(rules, input, pos), pos) <= input.len(),
        covered(input, steps_from(rules, input, pos)) == input.subrange(
            pos as int,
            end_of(steps_from(rules, input, pos), pos) as int,
        ),
    decreases input.len() - pos,
{
    let steps = steps_from(rules, input, pos);
    match step_at(rules, input, pos) {
        Some(s) => {
            if s.advances(input, pos) {
                lemma_covered(rules, input, s.hi);
                let rest = steps_from(rules, input, s.hi);
                assert(steps == seq![s] + rest);
                assert(steps.drop_first() =~= rest);
                assert(end_of(steps, pos) == end_of(rest, s.hi));
                assert(covered(input, steps) =~= input.subrange(
                    pos as int,
                    end_of(steps, pos) as int,
                ));
            } else {
                assert(covered(input, steps) =~= input.subrange(pos as int, pos as int));
            }
        },
        None => {
            assert(covered(input, steps) =~= input.subrange(pos as int, pos as int));
        },
    }
}

/// With well-formed rules whose last accepts any character, the steps over
/// UTF-8 input reach its end.
pub proof fn lemma_reaches_end(rules: Seq<Rule>, input: Seq<u8>, pos: nat)
    requires
        well_formed(rules),
        rules.len() >= 1,
        rules[rules.len() - 1].pattern == Pattern::AnyChar,
        pos <= input.len(),
        valid_utf8(input.skip(pos as int)),
    ensures
        end_of(steps_from(rules, input, pos), pos) == input.len(),
        steps_from(rules, input, pos).len() <= input.len() - pos,
    decreases input.len() - pos,
{
    let steps = steps_from(rules, input, pos);
    if pos < input.len() {
        lemma_some_rule_matches(rules, input.skip(pos as int));
        lemma_step_advances(rules, input, pos);
        let s = step_at(rules, input, pos)->0;
        lemma_reaches_end(rules, input, s.hi);
        let rest = steps_from(rules, input, s.hi);
        assert(steps == seq![s] + rest);
        assert(end_of(steps, pos) == end_of(rest, s.hi));
    } else {
        lemma_no_step_at_end(rules, input);
    }
}

/// The place where insignificant steps have been skipped lies between `pos`
/// and the end of the input, and what is left there of UTF-8 input is UTF-8.
pub proof fn lemma_skip_bounds(rules: Seq<Rule>, input: Seq<u8>, pos: nat)
    requires
        well_formed(rules),
        pos <= input.len(),
        valid_utf8(input.skip(pos as int)),
    ensures
        pos <= skip_insignificant(rules, input, pos) <= input.len(),
        valid_utf8(input.skip(skip_insignificant(rules, input, pos) as int)),
        next_at(rules, input, pos) is Some ==> !next_at(rules, input, pos)->0.insignificant(
            rules,
        ),
    decreases input.len() - pos,
{
    match step_at(rules, input, pos) {
        Some(s) => {
            lemma_step_advances(rules, input, pos);
            if s.insignificant(rules) {
                lemma_skip_bounds(rules, input, s.hi);
            }
        },
        None => {},
    }
}

/// A constructor makes whitespace or a comment for every text or for none.
pub proof fn lemma_insignificant(c: Constructor, text: Seq<u8>, tok: Token)
    requires
        tok@ == c.token(text),
    ensures
        tok.insignificant() == c.insignificant(),
{
}

} // verus!
