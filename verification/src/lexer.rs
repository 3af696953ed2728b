//! The lexer: a cursor into the source text, and the stream of its tokens.

use crate::rule::Rule;
use crate::scan::select;
use crate::stream::{
    lemma_insignificant, lemma_no_step_at_end, lemma_skip_bounds, lemma_some_rule_matches,
    lemma_step_advances, next_at, skip_insignificant, step_at, Step,
};
use crate::table::{lemma_table, rule_table, table};
use crate::token::{Span, Token};
use vstd::prelude::*;
use vstd::string::StringSliceAdditionalSpecFns;
use vstd::utf8::{encode_utf8_valid_utf8, valid_utf8};

verus! {

/// A lexer over one source text. It owns its cursor and borrows the text;
/// the tokens come out in order, each one once.
pub struct Lexer<'a> {
    source: &'a str,
    rest: &'a str,
    rules: Vec<Rule>,
}

/// Whether `r` and `end` are what one step from `pos` gives: the token and
/// the span of the step that the table makes there, and the end of that
/// step; or nothing, and `pos`, where the table makes no step.
pub open spec fn is_step(input: Seq<u8>, pos: nat, r: Option<(Token, Span)>, end: nat) -> bool {
    agrees(input, step_at(table(), input, pos), pos, r, end)
}

/// Whether `r` and `end` are what the token stream gives from `pos`: the
/// token and the span of the first step that is neither whitespace nor a
/// comment, and the end of that step; or nothing, and the place where the
/// scan ended.
pub open spec fn is_next(input: Seq<u8>, pos: nat, r: Option<(Token, Span)>, end: nat) -> bool {
    agrees(
        input,
        next_at(table(), input, pos),
        skip_insignificant(table(), input, pos),
        r,
        end,
    )
}

/// Whether `r` holds the token and the span of `step` and `end` is where the
/// step ends; or, without a step, whether `r` is nothing and `end` is
/// `stay`.
pub open spec fn agrees(
    input: Seq<u8>,
    step: Option<Step>,
    stay: nat,
    r: Option<(Token, Span)>,
    end: nat,
) -> bool {
    match step {
        Some(s) => {
            &&& r matches Some((tok, span))
            &&& tok@ == s.token(table(), input)
            &&& span.lo == s.lo
            &&& span.hi == s.hi
            &&& end == s.hi
        },
        None => r is None && end == stay,
    }
}

impl<'a> Lexer<'a> {
    #[verifier::type_invariant]
    spec fn inv(self) -> bool {
        let whole = self.source.spec_bytes();
        let rest = self.rest.spec_bytes();
        &&& self.rules@ == table()
        &&& rest.len() <= whole.len()
        &&& rest == whole.skip(whole.len() - rest.len())
    }

    /// The source text, as bytes.
    pub closed spec fn input(&self) -> Seq<u8> {
        self.source.spec_bytes()
    }

    /// The offset of the cursor: the number of bytes read so far.
    pub closed spec fn position(&self) -> nat {
        (self.source.spec_bytes().len() - self.rest.spec_bytes().len()) as nat
    }

    /// A lexer at the start of `s`.
    pub fn new(s: &'a str) -> (lexer: Self)
        ensures
            lexer.input() == s.spec_bytes(),
            lexer.position() == 0,
            valid_utf8(lexer.input()),
    {
        let rules = rule_table();
        proof {
            assert(s.spec_bytes() =~= s.spec_bytes().skip(0));
            encode_utf8_valid_utf8(s@);
        }
        Lexer { source: s, rest: s, rules }
    }

    /// Reads one token, whitespace and comments included, and moves the
    /// cursor behind it. `None` at the end of the text, and only there.
    pub fn step(&mut self) -> (r: Option<(Token, Span)>)
        ensures
            final(self).input() == old(self).input(),
            is_step(old(self).input(), old(self).position(), r, final(self).position()),
            r is None <==> old(self).position() == old(self).input().len(),
            r is Some ==> old(self).position() < final(self).position() <= old(self).input().len(),
    {
        proof {
            use_type_invariant(&*self);
            encode_utf8_valid_utf8(self.rest@);
            lemma_table();
        }
        let ghost input = self.input();
        let ghost pos = self.position();
        let bytes = self.rest.as_bytes();
        assert(bytes@ == input.skip(pos as int));
        proof {
            if pos < input.len() {
                lemma_some_rule_matches(table(), bytes@);
            } else {
                lemma_no_step_at_end(table(), input);
            }
        }
        match select(self.rules.as_slice(), bytes) {
            None => None,
            Some((k, n)) => {
                proof {
                    lemma_step_advances(table(), input, pos);
                }
                let (text, rest) = self.rest.split_at(n);
                let tok = self.rules[k].constructor.construct(text);
                let whole: usize = self.source.as_bytes().len();
                let lo: usize = whole - bytes.len();
                let hi: usize = whole - rest.as_bytes().len();
                proof {
                    assert(text.spec_bytes() =~= input.subrange(pos as int, pos + n));
                    assert(rest.spec_bytes() =~= input.skip(pos + n));
                }
                self.rest = rest;
                Some((tok, Span { lo, hi }))
            },
        }
    }

    /// Reads the next token that is neither whitespace nor a comment, and
    /// moves the cursor behind it. `None` where nothing but whitespace
    /// and comments is left; the cursor is then at the end of the text.
    pub fn next(&mut self) -> (r: Option<(Token, Span)>)
        ensures
            final(self).input() == old(self).input(),
            is_next(old(self).input(), old(self).position(), r, final(self).position()),
            r is None <==> skip_insignificant(
                table(),
                old(self).input(),
                old(self).position(),
            ) == old(self).input().len(),
            r is None ==> final(self).position() == old(self).input().len(),
            r matches Some((tok, span)) ==> !tok.insignificant() && old(self).position() <= span.lo
                < span.hi <= old(self).input().len(),
    {
        let ghost input = self.input();
        let ghost start = self.position();
        proof {
            use_type_invariant(&*self);
            encode_utf8_valid_utf8(self.rest@);
            lemma_table();
            lemma_skip_bounds(table(), input, start);
        }
        loop
            invariant
                input == old(self).input(),
                start == old(self).position(),
                self.input() == input,
                start <= self.position() <= input.len(),
                skip_insignificant(table(), input, self.position()) == skip_insignificant(
                    table(),
                    input,
                    start,
                ),
            decreases input.len() - self.position(),
        {
            let ghost pos = self.position();
            proof {
                use_type_invariant(&*self);
                encode_utf8_valid_utf8(self.rest@);
                lemma_table();
                lemma_skip_bounds(table(), input, pos);
                if pos == input.len() {
                    lemma_no_step_at_end(table(), input);
                }
            }
            match self.step() {
                None => {
                    return None;
                },
                Some((tok, span)) => {
                    proof {
                        let s = step_at(table(), input, pos)->0;
                        lemma_step_advances(table(), input, pos);
                        lemma_insignificant(
                            table()[s.rule as int].constructor,
                            s.text(input),
                            tok,
                        );
                    }
                    if !tok.is_insignificant() {
                        return Some((tok, span));
                    }
                },
            }
        }
    }
}

} // verus!
