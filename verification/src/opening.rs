//! How a match begins: with at least one byte, and with which.

use crate::class::fold;
use crate::pattern::Pattern;
use vstd::prelude::*;
use vstd::string::StringSliceAdditionalSpecFns;
use vstd::utf8::is_ascii_chars_encode_utf8;

verus! {

impl Pattern {
    /// Whether what a well-formed pattern accepts can begin with the byte
    /// `b`.
    pub open spec fn opens_with(self, b: u8) -> bool {
        match self {
            Pattern::Text(t) => t.spec_bytes()[0] == b,
            Pattern::Caseless(t) => fold(t.spec_bytes()[0]) == fold(b),
            Pattern::Run(class) => class.has(b),
            Pattern::Trail(t, _) => t.spec_bytes()[0] == b,
            Pattern::Enclosed(open, _) => open == b,
            Pattern::Body(open, _, _, _) => open == b,
            Pattern::AnyChar => true,
        }
    }

    /// A well-formed pattern accepts no empty text, so that every match
    /// moves forward.
    pub proof fn lemma_not_empty(self)
        requires
            self.well_formed(),
        ensures
            !self.accepts(Seq::empty()),
    {
        match self {
            Pattern::Text(t) => {
                is_ascii_chars_encode_utf8(t@);
            },
            Pattern::Caseless(t) => {
                is_ascii_chars_encode_utf8(t@);
            },
            Pattern::Trail(t, _) => {
                is_ascii_chars_encode_utf8(t@);
            },
            _ => {},
        }
    }

    /// A well-formed pattern matches only where the input begins with a
    /// byte that the pattern opens with, and its match is not empty.
    pub proof fn lemma_opening(self, input: Seq<u8>)
        requires
            self.well_formed(),
            self.longest(input) is Some,
        ensures
            input.len() >= 1,
            self.longest(input)->0 >= 1,
            self.opens_with(input[0]),
    {
        self.lemma_longest(input);
        let n = self.longest(input)->0 as int;
        let s = input.take(n);
        assert(self.accepts(s));
        match self {
            Pattern::Text(t) => {
                is_ascii_chars_encode_utf8(t@);
                assert(s[0] == t.spec_bytes()[0]);
            },
            Pattern::Caseless(t) => {
                is_ascii_chars_encode_utf8(t@);
                assert(fold(s[0]) == fold(t.spec_bytes()[0]));
            },
            Pattern::Run(class) => {
                assert(class.has(s[0]));
            },
            Pattern::Trail(t, _) => {
                is_ascii_chars_encode_utf8(t@);
                assert(s[0] == t.spec_bytes()[0]);
            },
            Pattern::Enclosed(open, _) => {
                assert(s[0] == open);
            },
            Pattern::Body(open, _, _, _) => {
                assert(s[0] == open);
            },
            Pattern::AnyChar => {},
        }
    }
}

} // verus!
