//! Where a match ends: on the boundary of a character.
//!
//! The patterns read bytes, and the text of a token is a string. So a match
//! has to end where a character of the UTF-8 input ends. The lemmas of this
//! module show that the match of a well-formed pattern does.

use crate::class::{fold, Class};
use crate::pattern::{char_width, units_from, Pattern};
use vstd::prelude::*;
use vstd::string::StringSliceAdditionalSpecFns;
use vstd::utf8::{
    is_ascii_chars, is_ascii_chars_encode_utf8, is_char_boundary,
    is_char_boundary_iff_not_is_continuation_byte, is_char_boundary_start_end_of_seq,
    length_of_first_scalar, pop_first_scalar, valid_utf8, valid_utf8_split,
};

verus! {

/// An ASCII byte of a UTF-8 text is a character by itself: a character
/// boundary lies before it and after it.
pub proof fn lemma_ascii_boundaries(bytes: Seq<u8>, i: int)
    requires
        valid_utf8(bytes),
        0 <= i < bytes.len(),
        bytes[i] < 0x80,
    ensures
        is_char_boundary(bytes, i),
        is_char_boundary(bytes, i + 1),
{
    is_char_boundary_iff_not_is_continuation_byte(bytes, i);
    if i + 1 == bytes.len() {
        is_char_boundary_start_end_of_seq(bytes);
    } else {
        valid_utf8_split(bytes, i);
        let rest = bytes.subrange(i, bytes.len() as int);
        assert(rest[0] == bytes[i]);
        assert(valid_utf8(rest));
        assert(length_of_first_scalar(rest) == 1);
        let after = pop_first_scalar(rest);
        assert(after.len() == rest.len() - 1);
        assert(after[0] == bytes[i + 1]);
        assert(valid_utf8(after));
        is_char_boundary_iff_not_is_continuation_byte(bytes, i + 1);
    }
}

/// A UTF-8 text that is not empty begins with a whole character, whose
/// length its first byte tells.
pub proof fn lemma_first_char(bytes: Seq<u8>)
    requires
        valid_utf8(bytes),
        bytes.len() > 0,
    ensures
        1 <= char_width(bytes[0]) <= bytes.len(),
        is_char_boundary(bytes, char_width(bytes[0]) as int),
{
    let w = length_of_first_scalar(bytes);
    assert(w == char_width(bytes[0]));
    let after = pop_first_scalar(bytes);
    assert(valid_utf8(after));
    assert(is_char_boundary(after, 0));
    assert(is_char_boundary(bytes, w) == is_char_boundary(after, w - w));
}

/// Every byte of a sequence of units is of the class or one of the pair.
pub proof fn lemma_units_bytes(class: Class, e1: u8, e2: u8, s: Seq<u8>, i: int, j: int)
    requires
        0 <= i <= j < s.len(),
        units_from(class, e1, e2, s, i),
    ensures
        class.has(s[j]) || s[j] == e1 || s[j] == e2,
    decreases s.len() - i,
{
    if class.has(s[i]) {
        if i < j {
            lemma_units_bytes(class, e1, e2, s, i + 1, j);
        }
    } else {
        if i + 1 < j {
            lemma_units_bytes(class, e1, e2, s, i + 2, j);
        }
    }
}

impl Pattern {
    /// Whether the pattern is fit for a rule: its fixed parts are ASCII, a
    /// text is not empty, and the units of a body are ASCII. Such a pattern
    /// accepts no empty string and nothing that ends inside a character.
    pub open spec fn well_formed(self) -> bool {
        match self {
            Pattern::Text(t) => t@.len() >= 1 && is_ascii_chars(t@),
            Pattern::Caseless(t) => t@.len() >= 1 && is_ascii_chars(t@),
            Pattern::Run(_) => true,
            Pattern::Trail(t, _) => t@.len() >= 1 && is_ascii_chars(t@),
            Pattern::Enclosed(open, close) => open < 0x80 && close < 0x80,
            Pattern::Body(open, class, e1, e2) => open < 0x80 && class.ascii() && e1 < 0x80 && e2
                < 0x80,
            Pattern::AnyChar => true,
        }
    }

    /// The longest match of a well-formed pattern on a UTF-8 text is not
    /// empty and ends on a character boundary.
    pub proof fn lemma_match_is_text(self, input: Seq<u8>)
        requires
            self.well_formed(),
            valid_utf8(input),
            self.longest(input) is Some,
        ensures
            1 <= self.longest(input)->0 <= input.len(),
            is_char_boundary(input, self.longest(input)->0 as int),
    {
        self.lemma_longest(input);
        let n = self.longest(input)->0 as int;
        let s = input.take(n);
        assert(self.accepts(s));
        match self {
            Pattern::Text(t) => {
                is_ascii_chars_encode_utf8(t@);
                let tb = t.spec_bytes();
                assert(s[n - 1] == tb[n - 1]);
                assert(tb[n - 1] == t@[n - 1] as u8);
                lemma_ascii_boundaries(input, n - 1);
            },
            Pattern::Caseless(t) => {
                is_ascii_chars_encode_utf8(t@);
                let tb = t.spec_bytes();
                assert(fold(s[n - 1]) == fold(tb[n - 1]));
                assert(tb[n - 1] == t@[n - 1] as u8);
                lemma_ascii_boundaries(input, n - 1);
            },
            Pattern::Run(class) => {
                assert(class.has(s[n - 1]));
                if n < input.len() && class.has(input[n]) {
                    let longer = input.take(n + 1);
                    assert forall|i: int| 0 <= i < longer.len() implies class.has(
                        #[trigger] longer[i],
                    ) by {
                        if i < n {
                            assert(class.has(s[i]));
                        }
                    }
                    assert(self.accepts(longer));
                }
                lemma_run_stops(input, class, n);
            },
            Pattern::Trail(t, class) => {
                is_ascii_chars_encode_utf8(t@);
                let tb = t.spec_bytes();
                if n == tb.len() {
                    assert(s[n - 1] == tb[n - 1]);
                    assert(tb[n - 1] == t@[n - 1] as u8);
                    lemma_ascii_boundaries(input, n - 1);
                } else {
                    assert(class.has(s[n - 1]));
                    if n < input.len() && class.has(input[n]) {
                        let longer = input.take(n + 1);
                        assert forall|i: int| 0 <= i < tb.len() implies longer[i] == tb[i] by {
                            assert(s[i] == tb[i]);
                        }
                        assert forall|i: int| tb.len() <= i < longer.len() implies class.has(
                            #[trigger] longer[i],
                        ) by {
                            if i < n {
                                assert(class.has(s[i]));
                            }
                        }
                        assert(self.accepts(longer));
                    }
                    lemma_run_stops(input, class, n);
                }
            },
            Pattern::Enclosed(open, close) => {
                assert(s[n - 1] == close);
                lemma_ascii_boundaries(input, n - 1);
            },
            Pattern::Body(open, class, e1, e2) => {
                if n == 1 {
                    assert(s[0] == open);
                } else {
                    lemma_units_bytes(class, e1, e2, s, 1, n - 1);
                    class.lemma_ascii_or_rest(s[n - 1]);
                }
                lemma_ascii_boundaries(input, n - 1);
            },
            Pattern::AnyChar => {
                assert(s[0] == input[0]);
                lemma_first_char(input);
            },
        }
    }
}

/// A run of a class that stops at `n` stops on a character boundary: its
/// last byte is ASCII, or the byte that stopped it is, or the input ends
/// there.
proof fn lemma_run_stops(input: Seq<u8>, class: Class, n: int)
    requires
        valid_utf8(input),
        1 <= n <= input.len(),
        class.has(input[n - 1]),
        n < input.len() ==> !class.has(input[n]),
    ensures
        is_char_boundary(input, n),
{
    class.lemma_ascii_or_rest(input[n - 1]);
    if class.ascii() {
        lemma_ascii_boundaries(input, n - 1);
    } else if n == input.len() {
        is_char_boundary_start_end_of_seq(input);
    } else {
        class.lemma_ascii_or_rest(input[n]);
        lemma_ascii_boundaries(input, n);
    }
}

} // verus!
