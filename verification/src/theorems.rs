//! What holds of the lexer on every text.

use crate::boundary::lemma_units_bytes;
use crate::class::Class;
use crate::lexer::{is_next, is_step};
use crate::number::{decimal, digits_value, is_numeral};
use crate::pattern::{units_from, Pattern};
use crate::rule::{out_of_range, unterminated, Constructor};
use crate::scan::{lemma_winner_unique, wins, Choice};
use crate::stream::{
    covered, end_of, lemma_contiguous, lemma_covered, lemma_no_step_at_end, lemma_reaches_end,
    lemma_some_rule_matches, step_at, steps_from, Step,
};
use crate::table::{lemma_openings, lemma_table, table, NUMBER, OPEN_STRING, STRING};
use crate::token::{Span, Token, TokenView};
use vstd::prelude::*;
use vstd::utf8::{decode_utf8, valid_utf8};

verus! {

/// All the steps that the lexer makes over `input`, whitespace and comments
/// included.
pub open spec fn steps(input: Seq<u8>) -> Seq<Step> {
    steps_from(table(), input, 0)
}

/// Whether two outcomes are the same: nothing both times, or tokens that say
/// the same with the same span.
pub open spec fn same_outcome(a: Option<(Token, Span)>, b: Option<(Token, Span)>) -> bool {
    match (a, b) {
        (Some((s, p)), Some((t, q))) => s@ == t@ && p == q,
        (None, None) => true,
        _ => false,
    }
}

/// The scan of a text ends: it takes at most as many steps as the text has
/// bytes, each step moves forward, and the last one ends where the text
/// ends. No place in a text is left without a rule that matches.
pub proof fn lemma_scan_ends(input: Seq<u8>)
    requires
        valid_utf8(input),
    ensures
        steps(input).len() <= input.len(),
        end_of(steps(input), 0) == input.len(),
        forall|i: int| 0 <= i < steps(input).len() ==> (#[trigger] steps(input)[i]).lo < steps(
            input,
        )[i].hi,
        forall|pos: nat|
            pos < input.len() && valid_utf8(input.skip(pos as int)) ==> (#[trigger] step_at(
                table(),
                input,
                pos,
            )) is Some,
{
    lemma_table();
    assert(input.skip(0) =~= input);
    lemma_reaches_end(table(), input, 0);
    lemma_contiguous(table(), input, 0);
    assert forall|pos: nat|
        pos < input.len() && valid_utf8(input.skip(pos as int)) implies (#[trigger] step_at(
        table(),
        input,
        pos,
    )) is Some by {
        lemma_some_rule_matches(table(), input.skip(pos as int));
    }
}

/// The spans of the steps lie end to end: the first begins at the start of
/// the text, each other one where the one before it ended, and the last
/// ends at the end of the text.
pub proof fn lemma_spans_contiguous(input: Seq<u8>)
    requires
        valid_utf8(input),
    ensures
        steps(input).len() > 0 ==> steps(input)[0].lo == 0,
        forall|i: int|
            0 < i < steps(input).len() ==> (#[trigger] steps(input)[i]).lo == steps(input)[i
                - 1].hi,
        steps(input).len() > 0 ==> steps(input)[steps(input).len() - 1].hi == input.len(),
        steps(input).len() == 0 ==> input.len() == 0,
{
    lemma_table();
    assert(input.skip(0) =~= input);
    lemma_reaches_end(table(), input, 0);
    lemma_contiguous(table(), input, 0);
}

/// The texts that the steps cover, put together in order, are the text
/// that was scanned.
pub proof fn lemma_round_trip(input: Seq<u8>)
    requires
        valid_utf8(input),
    ensures
        covered(input, steps(input)) == input,
{
    lemma_table();
    assert(input.skip(0) =~= input);
    lemma_reaches_end(table(), input, 0);
    lemma_covered(table(), input, 0);
    assert(input.subrange(0, input.len() as int) =~= input);
}

/// One text, one outcome: whatever two steps from the same place of the
/// same text give is the same, and both leave the cursor at the same place.
pub proof fn lemma_step_deterministic(
    input: Seq<u8>,
    pos: nat,
    a: Option<(Token, Span)>,
    a_end: nat,
    b: Option<(Token, Span)>,
    b_end: nat,
)
    requires
        is_step(input, pos, a, a_end),
        is_step(input, pos, b, b_end),
    ensures
        same_outcome(a, b),
        a_end == b_end,
{
}

/// One text, one stream of tokens: whatever two readers of the token
/// stream get from the same place of the same text is the same, and both
/// leave the cursor at the same place.
pub proof fn lemma_next_deterministic(
    input: Seq<u8>,
    pos: nat,
    a: Option<(Token, Span)>,
    a_end: nat,
    b: Option<(Token, Span)>,
    b_end: nat,
)
    requires
        is_next(input, pos, a, a_end),
        is_next(input, pos, b, b_end),
    ensures
        same_outcome(a, b),
        a_end == b_end,
{
}

/// Where one rule wins with a match of the whole text, the scan is that one
/// step.
proof fn lemma_single_step(input: Seq<u8>, rule: nat)
    requires
        input.len() >= 1,
        wins(table(), input, (Choice { rule, len: input.len() })),
    ensures
        steps(input) == seq![Step { rule, lo: 0, hi: input.len() }],
        steps(input)[0].text(input) == input,
{
    lemma_table();
    lemma_winner_unique(table(), input, Choice { rule, len: input.len() });
    assert(input.skip(0) =~= input);
    lemma_no_step_at_end(table(), input);
    let s = Step { rule, lo: 0, hi: input.len() };
    assert(step_at(table(), input, 0) == Some(s));
    assert(steps_from(table(), input, input.len()) =~= seq![]);
    assert(steps(input) =~= seq![s]);
    assert(s.text(input) =~= input);
}

/// A text made of digits is read in one step, by the rule for numbers. Its
/// token is the number where that fits in 64 bits, and else the error that
/// holds the digits: nothing is cut off and nothing wraps round.
pub proof fn lemma_numeral(input: Seq<u8>)
    requires
        is_numeral(input),
    ensures
        steps(input) == seq![Step { rule: NUMBER as nat, lo: 0, hi: input.len() }],
        steps(input)[0].token(table(), input) == (if digits_value(input) <= i64::MAX {
            TokenView::Plain(Token::Integer(digits_value(input) as i64))
        } else {
            TokenView::Error(out_of_range() + decode_utf8(input))
        }),
{
    lemma_table();
    lemma_openings(input[0]);
    let rules = table();
    let whole = input.take(input.len() as int);
    assert(whole =~= input);
    let digits = Pattern::Run(Class::Digit);
    assert(rules[NUMBER as int].pattern == digits);
    assert(digits.is_longest(input, input.len()));
    digits.lemma_is_longest(input, input.len());
    assert forall|i: int| 0 <= i < rules.len() implies match (#[trigger] rules[i]).pattern.longest(
        input,
    ) {
        Some(m) => m < input.len() || (m == input.len() && NUMBER <= i),
        None => true,
    } by {
        let p = rules[i].pattern;
        if p.longest(input) is Some {
            p.lemma_longest(input);
            p.lemma_opening(input);
        }
    }
    lemma_single_step(input, NUMBER as nat);
    assert(rules[NUMBER as int].constructor == Constructor::Number);
    assert(decimal(input) == (if digits_value(input) <= i64::MAX {
        Some(digits_value(input) as i64)
    } else {
        None
    }));
}

/// A text made of a quote and, behind it, nothing but letters, digits,
/// spaces and line breaks behind a backslash is read in one step: the error
/// of a string literal that is not closed, which holds the whole text.
pub proof fn lemma_unterminated_string(input: Seq<u8>)
    requires
        input.len() >= 1,
        input[0] == 0x22,
        units_from(Class::Plain, 0x5c, 0x0a, input, 1),
    ensures
        steps(input) == seq![Step { rule: OPEN_STRING as nat, lo: 0, hi: input.len() }],
        steps(input)[0].token(table(), input) == TokenView::Error(
            unterminated() + decode_utf8(input),
        ),
{
    lemma_table();
    lemma_openings(input[0]);
    let rules = table();
    let whole = input.take(input.len() as int);
    assert(whole =~= input);
    let body = Pattern::Body(0x22, Class::Plain, 0x5c, 0x0a);
    assert(rules[OPEN_STRING as int].pattern == body);
    assert(body.is_longest(input, input.len()));
    body.lemma_is_longest(input, input.len());
    let closed = Pattern::Enclosed(0x22, 0x22);
    assert(rules[STRING as int].pattern == closed);
    assert forall|m: int| 0 <= m <= input.len() implies !closed.accepts(
        #[trigger] input.take(m),
    ) by {
        if m >= 2 {
            lemma_units_bytes(Class::Plain, 0x5c, 0x0a, input, 1, m - 1);
            assert(input.take(m)[m - 1] == input[m - 1]);
        }
    }
    closed.lemma_no_match(input);
    assert forall|i: int| 0 <= i < rules.len() implies match (#[trigger] rules[i]).pattern.longest(
        input,
    ) {
        Some(m) => m < input.len() || (m == input.len() && OPEN_STRING <= i),
        None => true,
    } by {
        let p = rules[i].pattern;
        if p.longest(input) is Some {
            p.lemma_longest(input);
            p.lemma_opening(input);
        }
    }
    lemma_single_step(input, OPEN_STRING as nat);
    assert(rules[OPEN_STRING as int].constructor == Constructor::Unterminated);
}

} // verus!
