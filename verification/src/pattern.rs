//! Patterns, and the longest prefix of an input that a pattern accepts.

use crate::class::{fold, fold_case, Class};
use vstd::prelude::*;
use vstd::string::StringSliceAdditionalSpecFns;

verus! {

/// The description of a set of byte strings.
#[derive(Debug, Clone, Copy)]
pub enum Pattern {
    /// Exactly this text.
    Text(&'static str),
    /// This text, each ASCII letter in either case.
    Caseless(&'static str),
    /// One or more bytes of the class.
    Run(Class),
    /// This text, then any number of bytes of the class.
    Trail(&'static str, Class),
    /// An opening byte, then any bytes at all, then a closing byte. Any
    /// bytes means any: the opening and the closing byte may occur in
    /// between, so the longest match ends at the last closing byte of the
    /// input.
    Enclosed(u8, u8),
    /// An opening byte, then any number of units. A unit is one byte of the
    /// class or, where the next byte is not of the class, the two bytes
    /// named last, one behind the other.
    Body(u8, Class, u8, u8),
    /// One character, whatever it is.
    AnyChar,
}

/// The number of bytes in a UTF-8 character that begins with `b`.
pub open spec fn char_width(b: u8) -> nat {
    if b <= 0x7f {
        1
    } else if 0xc0 <= b <= 0xdf {
        2
    } else if 0xe0 <= b <= 0xef {
        3
    } else {
        4
    }
}

/// Whether `t` is a prefix of `s`.
pub open spec fn starts_with(s: Seq<u8>, t: Seq<u8>) -> bool {
    t.len() <= s.len() && forall|i: int| 0 <= i < t.len() ==> s[i] == t[i]
}

/// Whether `t` is a prefix of `s` when the case of ASCII letters is ignored.
pub open spec fn starts_with_caseless(s: Seq<u8>, t: Seq<u8>) -> bool {
    t.len() <= s.len() && forall|i: int| 0 <= i < t.len() ==> fold(s[i]) == fold(t[i])
}

/// Whether `a` and `b` are the same text when the case of ASCII letters is
/// ignored.
pub open spec fn same_but_case(a: Seq<u8>, b: Seq<u8>) -> bool {
    a.len() == b.len() && forall|i: int| 0 <= i < a.len() ==> fold(a[i]) == fold(b[i])
}

/// Whether the bytes of `s` from `from` on all belong to `class`.
pub open spec fn all_in(class: Class, s: Seq<u8>, from: int) -> bool {
    forall|i: int| from <= i < s.len() ==> class.has(#[trigger] s[i])
}

/// Whether `s` from index `i` on is a sequence of units: bytes of `class`
/// and, where a byte is not of the class, the pair `e1 e2`.
pub open spec fn units_from(class: Class, e1: u8, e2: u8, s: Seq<u8>, i: int) -> bool
    decreases s.len() - i,
{
    if i >= s.len() {
        true
    } else if class.has(s[i]) {
        units_from(class, e1, e2, s, i + 1)
    } else if i + 1 < s.len() && s[i] == e1 && s[i + 1] == e2 {
        units_from(class, e1, e2, s, i + 2)
    } else {
        false
    }
}

impl Pattern {
    /// Whether the pattern accepts the whole of `s`.
    pub open spec fn accepts(self, s: Seq<u8>) -> bool {
        match self {
            Pattern::Text(t) => s.len() == t.spec_bytes().len() && starts_with(s, t.spec_bytes()),
            Pattern::Caseless(t) => s.len() == t.spec_bytes().len() && starts_with_caseless(
                s,
                t.spec_bytes(),
            ),
            Pattern::Run(class) => s.len() >= 1 && all_in(class, s, 0),
            Pattern::Trail(t, class) => starts_with(s, t.spec_bytes()) && all_in(
                class,
                s,
                t.spec_bytes().len() as int,
            ),
            Pattern::Enclosed(open, close) => s.len() >= 2 && s[0] == open && s[s.len() - 1]
                == close,
            Pattern::Body(open, class, e1, e2) => s.len() >= 1 && s[0] == open && units_from(
                class,
                e1,
                e2,
                s,
                1,
            ),
            Pattern::AnyChar => s.len() >= 1 && s.len() == char_width(s[0]),
        }
    }

    /// The greatest `n <= k` such that the pattern accepts the first `n`
    /// bytes of `input`, if there is one.
    pub open spec fn longest_within(self, input: Seq<u8>, k: nat) -> Option<nat>
        decreases k,
    {
        if self.accepts(input.take(k as int)) {
            Some(k)
        } else if k == 0 {
            None
        } else {
            self.longest_within(input, (k - 1) as nat)
        }
    }

    /// The length of the longest prefix of `input` that the pattern accepts,
    /// or `None` where it accepts no prefix.
    pub open spec fn longest(self, input: Seq<u8>) -> Option<nat> {
        self.longest_within(input, input.len())
    }

    /// Whether `n` is the length of an accepted prefix of `input` and no
    /// longer prefix is accepted.
    pub open spec fn is_longest(self, input: Seq<u8>, n: nat) -> bool {
        &&& n <= input.len()
        &&& self.accepts(input.take(n as int))
        &&& forall|m: int| n < m <= input.len() ==> !self.accepts(#[trigger] input.take(m))
    }

    /// Whether the pattern accepts no prefix of `input`.
    pub open spec fn no_match(self, input: Seq<u8>) -> bool {
        forall|m: int| 0 <= m <= input.len() ==> !self.accepts(#[trigger] input.take(m))
    }

    proof fn lemma_within_found(self, input: Seq<u8>, k: nat, n: nat)
        requires
            n <= k <= input.len(),
            self.accepts(input.take(n as int)),
            forall|m: int| n < m <= k ==> !self.accepts(#[trigger] input.take(m)),
        ensures
            self.longest_within(input, k) == Some(n),
        decreases k,
    {
        if k > n {
            self.lemma_within_found(input, (k - 1) as nat, n);
        }
    }

    proof fn lemma_within_none(self, input: Seq<u8>, k: nat)
        requires
            k <= input.len(),
            forall|m: int| 0 <= m <= k ==> !self.accepts(#[trigger] input.take(m)),
        ensures
            self.longest_within(input, k) is None,
        decreases k,
    {
        if k > 0 {
            self.lemma_within_none(input, (k - 1) as nat);
        }
    }

    proof fn lemma_within_sound(self, input: Seq<u8>, k: nat)
        requires
            k <= input.len(),
        ensures
            match self.longest_within(input, k) {
                Some(n) => n <= k && self.accepts(input.take(n as int)) && forall|m: int|
                    n < m <= k ==> !self.accepts(#[trigger] input.take(m)),
                None => forall|m: int| 0 <= m <= k ==> !self.accepts(#[trigger] input.take(m)),
            },
        decreases k,
    {
        if !self.accepts(input.take(k as int)) && k > 0 {
            self.lemma_within_sound(input, (k - 1) as nat);
        }
    }

    proof fn lemma_within_alike(self, a: Seq<u8>, b: Seq<u8>, k: nat)
        requires
            forall|m: int| 0 <= m <= k ==> self.accepts(a.take(m)) == self.accepts(b.take(m)),
        ensures
            self.longest_within(a, k) == self.longest_within(b, k),
        decreases k,
    {
        if k > 0 {
            self.lemma_within_alike(a, b, (k - 1) as nat);
        }
    }

    /// The longest match is the greatest length of an accepted prefix: the
    /// prefix of that length is accepted and no longer one is; and where
    /// there is no longest match, no prefix is accepted at all.
    pub proof fn lemma_longest(self, input: Seq<u8>)
        ensures
            match self.longest(input) {
                Some(n) => self.is_longest(input, n),
                None => self.no_match(input),
            },
    {
        self.lemma_within_sound(input, input.len());
    }

    /// A length that is the greatest of an accepted prefix is the longest
    /// match.
    pub proof fn lemma_is_longest(self, input: Seq<u8>, n: nat)
        requires
            self.is_longest(input, n),
        ensures
            self.longest(input) == Some(n),
    {
        self.lemma_within_found(input, input.len(), n);
    }

    /// Where no prefix is accepted there is no longest match.
    pub proof fn lemma_no_match(self, input: Seq<u8>)
        requires
            self.no_match(input),
        ensures
            self.longest(input) is None,
    {
        self.lemma_within_none(input, input.len());
    }
}

/// A caseless pattern matches alike on two inputs that differ in the case
/// of their letters only.
pub proof fn lemma_case_ignored(t: &'static str, a: Seq<u8>, b: Seq<u8>)
    requires
        same_but_case(a, b),
    ensures
        Pattern::Caseless(t).longest(a) == Pattern::Caseless(t).longest(b),
{
    let p = Pattern::Caseless(t);
    let text = t.spec_bytes();
    assert forall|m: int| 0 <= m <= a.len() implies p.accepts(a.take(m)) == p.accepts(
        b.take(m),
    ) by {
        let x = a.take(m);
        let y = b.take(m);
        assert forall|i: int| 0 <= i < m implies fold(#[trigger] x[i]) == fold(y[i]) by {
            assert(fold(a[i]) == fold(b[i]));
        }
        if m == text.len() {
            if starts_with_caseless(x, text) {
                assert forall|i: int| 0 <= i < text.len() implies fold(y[i]) == fold(text[i]) by {
                    assert(fold(x[i]) == fold(text[i]));
                }
            }
            if starts_with_caseless(y, text) {
                assert forall|i: int| 0 <= i < text.len() implies fold(x[i]) == fold(text[i]) by {
                    assert(fold(y[i]) == fold(text[i]));
                }
            }
        }
    }
    p.lemma_within_alike(a, b, a.len());
}

/// Tells whether `input` begins with `text`.
pub fn has_prefix(input: &[u8], text: &[u8]) -> (r: bool)
    ensures
        r == starts_with(input@, text@),
{
    if text.len() > input.len() {
        return false;
    }
    let mut i: usize = 0;
    while i < text.len()
        invariant
            i <= text.len() <= input.len(),
            forall|j: int| 0 <= j < i ==> input@[j] == text@[j],
        decreases text.len() - i,
    {
        if input[i] != text[i] {
            return false;
        }
        i += 1;
    }
    true
}

/// Tells whether `input` begins with `text`, the case of ASCII letters
/// ignored.
pub fn has_prefix_caseless(input: &[u8], text: &[u8]) -> (r: bool)
    ensures
        r == starts_with_caseless(input@, text@),
{
    if text.len() > input.len() {
        return false;
    }
    let mut i: usize = 0;
    while i < text.len()
        invariant
            i <= text.len() <= input.len(),
            forall|j: int| 0 <= j < i ==> fold(input@[j]) == fold(text@[j]),
        decreases text.len() - i,
    {
        if fold_case(input[i]) != fold_case(text[i]) {
            return false;
        }
        i += 1;
    }
    true
}

/// The end of the run of bytes of `class` that begins at `from`.
pub fn run_end(class: Class, input: &[u8], from: usize) -> (end: usize)
    requires
        from <= input@.len(),
    ensures
        from <= end <= input@.len(),
        forall|i: int| from <= i < end ==> class.has(#[trigger] input@[i]),
        end < input@.len() ==> !class.has(input@[end as int]),
{
    let mut i: usize = from;
    while i < input.len() && class.contains(input[i])
        invariant
            from <= i <= input@.len(),
            forall|j: int| from <= j < i ==> class.has(#[trigger] input@[j]),
        decreases input@.len() - i,
    {
        i += 1;
    }
    i
}


/// The number of bytes in a UTF-8 character that begins with `b`.
pub fn width_of(b: u8) -> (w: usize)
    ensures
        w == char_width(b),
{
    if b <= 0x7f {
        1
    } else if 0xc0 <= b && b <= 0xdf {
        2
    } else if 0xe0 <= b && b <= 0xef {
        3
    } else {
        4
    }
}

fn match_text(t: &'static str, input: &[u8]) -> (r: Option<usize>)
    ensures
        Pattern::Text(t).agrees(input@, r),
{
    let text = t.as_bytes();
    let ghost p = Pattern::Text(t);
    if has_prefix(input, text) {
        let n: usize = text.len();
        proof {
            assert(p.accepts(input@.take(n as int)));
        }
        Some(n)
    } else {
        proof {
            assert forall|m: int| 0 <= m <= input@.len() implies !p.accepts(
                #[trigger] input@.take(m),
            ) by {
                if p.accepts(input@.take(m)) {
                    assert forall|i: int| 0 <= i < text@.len() implies input@[i] == text@[i] by {
                        assert(input@.take(m)[i] == text@[i]);
                    }
                }
            }
        }
        None
    }
}

fn match_caseless(t: &'static str, input: &[u8]) -> (r: Option<usize>)
    ensures
        Pattern::Caseless(t).agrees(input@, r),
{
    let text = t.as_bytes();
    let ghost p = Pattern::Caseless(t);
    if has_prefix_caseless(input, text) {
        let n: usize = text.len();
        proof {
            assert(p.accepts(input@.take(n as int)));
        }
        Some(n)
    } else {
        proof {
            assert forall|m: int| 0 <= m <= input@.len() implies !p.accepts(
                #[trigger] input@.take(m),
            ) by {
                if p.accepts(input@.take(m)) {
                    assert forall|i: int| 0 <= i < text@.len() implies fold(input@[i]) == fold(
                        text@[i],
                    ) by {
                        assert(fold(input@.take(m)[i]) == fold(text@[i]));
                    }
                }
            }
        }
        None
    }
}

fn match_run(class: Class, input: &[u8]) -> (r: Option<usize>)
    ensures
        Pattern::Run(class).agrees(input@, r),
{
    let ghost p = Pattern::Run(class);
    let end: usize = run_end(class, input, 0);
    proof {
        assert forall|m: int| end < m <= input@.len() implies !p.accepts(
            #[trigger] input@.take(m),
        ) by {
            assert(!class.has(input@.take(m)[end as int]));
        }
    }
    if end == 0 {
        None
    } else {
        proof {
            assert(p.accepts(input@.take(end as int)));
        }
        Some(end)
    }
}

fn match_trail(t: &'static str, class: Class, input: &[u8]) -> (r: Option<usize>)
    ensures
        Pattern::Trail(t, class).agrees(input@, r),
{
    let text = t.as_bytes();
    let ghost p = Pattern::Trail(t, class);
    if has_prefix(input, text) {
        let end: usize = run_end(class, input, text.len());
        proof {
            assert(p.accepts(input@.take(end as int)));
            assert forall|m: int| end < m <= input@.len() implies !p.accepts(
                #[trigger] input@.take(m),
            ) by {
                assert(!class.has(input@.take(m)[end as int]));
            }
        }
        Some(end)
    } else {
        proof {
            assert forall|m: int| 0 <= m <= input@.len() implies !p.accepts(
                #[trigger] input@.take(m),
            ) by {
                if p.accepts(input@.take(m)) {
                    assert forall|i: int| 0 <= i < text@.len() implies input@[i] == text@[i] by {
                        assert(input@.take(m)[i] == text@[i]);
                    }
                }
            }
        }
        None
    }
}

fn match_enclosed(open: u8, close: u8, input: &[u8]) -> (r: Option<usize>)
    ensures
        Pattern::Enclosed(open, close).agrees(input@, r),
{
    let ghost p = Pattern::Enclosed(open, close);
    if input.len() < 2 || input[0] != open {
        proof {
            assert forall|m: int| 0 <= m <= input@.len() implies !p.accepts(
                #[trigger] input@.take(m),
            ) by {
                if m >= 2 {
                    assert(input@.take(m)[0] == input@[0]);
                }
            }
        }
        return None;
    }
    let mut j: usize = input.len() - 1;
    while j >= 1 && input[j] != close
        invariant
            j < input@.len(),
            forall|i: int| j < i < input@.len() ==> input@[i] != close,
        decreases j,
    {
        j -= 1;
    }
    proof {
        assert forall|m: int| j + 1 < m <= input@.len() implies !p.accepts(
            #[trigger] input@.take(m),
        ) by {
            assert(input@.take(m)[m - 1] == input@[m - 1]);
        }
    }
    if j >= 1 {
        proof {
            let s = input@.take(j + 1);
            assert(s[0] == input@[0]);
            assert(s[s.len() - 1] == input@[j as int]);
        }
        Some(j + 1)
    } else {
        proof {
            assert forall|m: int| 0 <= m <= input@.len() implies !p.accepts(
                #[trigger] input@.take(m),
            ) by {
                if m >= 2 {
                    assert(input@.take(m)[m - 1] == input@[m - 1]);
                }
            }
        }
        None
    }
}

/// Taking more of the input does not change the units that lie before `i`.
proof fn lemma_units_step(class: Class, e1: u8, e2: u8, input: Seq<u8>, m: int, i: int)
    requires
        1 <= i < m <= input.len(),
    ensures
        class.has(input[i]) ==> units_from(class, e1, e2, input.take(m), i) == units_from(
            class,
            e1,
            e2,
            input.take(m),
            i + 1,
        ),
        !class.has(input[i]) && i + 1 < m && input[i] == e1 && input[i + 1] == e2 ==> units_from(
            class,
            e1,
            e2,
            input.take(m),
            i,
        ) == units_from(class, e1, e2, input.take(m), i + 2),
        !class.has(input[i]) && !(i + 1 < m && input[i] == e1 && input[i + 1] == e2)
            ==> !units_from(class, e1, e2, input.take(m), i),
{
    let s = input.take(m);
    assert(s[i] == input[i]);
    if i + 1 < m {
        assert(s[i + 1] == input[i + 1]);
    }
}

fn match_body(open: u8, class: Class, e1: u8, e2: u8, input: &[u8]) -> (r: Option<usize>)
    ensures
        Pattern::Body(open, class, e1, e2).agrees(input@, r),
{
    let ghost p = Pattern::Body(open, class, e1, e2);
    if input.len() < 1 || input[0] != open {
        proof {
            assert forall|m: int| 0 <= m <= input@.len() implies !p.accepts(
                #[trigger] input@.take(m),
            ) by {
                if m >= 1 {
                    assert(input@.take(m)[0] == input@[0]);
                }
            }
        }
        return None;
    }
    let len: usize = input.len();
    let mut i: usize = 1;
    loop
        invariant_except_break
            1 <= i <= len,
        invariant
            len == input@.len(),
            1 <= i <= len,
            units_from(class, e1, e2, input@.take(i as int), 1),
            forall|m: int|
                i <= m <= len ==> units_from(class, e1, e2, #[trigger] input@.take(m), 1)
                    == units_from(class, e1, e2, input@.take(m), i as int),
        ensures
            forall|m: int|
                i < m <= len ==> !units_from(class, e1, e2, #[trigger] input@.take(m), 1),
        decreases len - i,
    {
        if i < len && class.contains(input[i]) {
            proof {
                assert forall|m: int| i + 1 <= m <= len implies units_from(
                    class,
                    e1,
                    e2,
                    #[trigger] input@.take(m),
                    1,
                ) == units_from(class, e1, e2, input@.take(m), i + 1) by {
                    lemma_units_step(class, e1, e2, input@, m, i as int);
                }
            }
            i += 1;
        } else if i < len - 1 && input[i] == e1 && input[i + 1] == e2 {
            proof {
                assert forall|m: int| i + 2 <= m <= len implies units_from(
                    class,
                    e1,
                    e2,
                    #[trigger] input@.take(m),
                    1,
                ) == units_from(class, e1, e2, input@.take(m), i + 2) by {
                    lemma_units_step(class, e1, e2, input@, m, i as int);
                }
            }
            i += 2;
        } else {
            proof {
                assert forall|m: int| i < m <= len implies !units_from(
                    class,
                    e1,
                    e2,
                    #[trigger] input@.take(m),
                    1,
                ) by {
                    lemma_units_step(class, e1, e2, input@, m, i as int);
                    if i + 1 < len && input@[i as int] == e1 && input@[i + 1] == e2 {
                        assert(false);
                    }
                }
            }
            break;
        }
    }
    proof {
        assert(input@.take(i as int)[0] == input@[0]);
        assert(p.accepts(input@.take(i as int)));
    }
    Some(i)
}

fn match_any_char(input: &[u8]) -> (r: Option<usize>)
    ensures
        Pattern::AnyChar.agrees(input@, r),
{
    let ghost p = Pattern::AnyChar;
    if input.len() == 0 {
        return None;
    }
    let w: usize = width_of(input[0]);
    proof {
        assert forall|m: int| 0 <= m <= input@.len() && m != w implies !p.accepts(
            #[trigger] input@.take(m),
        ) by {
            if m >= 1 {
                assert(input@.take(m)[0] == input@[0]);
            }
        }
    }
    if w <= input.len() {
        proof {
            assert(input@.take(w as int)[0] == input@[0]);
        }
        Some(w)
    } else {
        None
    }
}

impl Pattern {
    /// Whether `r` is the longest match of the pattern on `input`, stated
    /// by what the prefixes are: that of length `n` is accepted and no
    /// longer one, or none is accepted.
    pub open spec fn agrees(self, input: Seq<u8>, r: Option<usize>) -> bool {
        match r {
            Some(n) => self.is_longest(input, n as nat),
            None => self.no_match(input),
        }
    }

    /// Finds the longest prefix of `input` that the pattern accepts.
    pub fn longest_match(&self, input: &[u8]) -> (r: Option<usize>)
        ensures
            self.agrees(input@, r),
            match r {
                Some(n) => self.longest(input@) == Some(n as nat),
                None => self.longest(input@) is None,
            },
    {
        let r = match self {
            Pattern::Text(t) => match_text(t, input),
            Pattern::Caseless(t) => match_caseless(t, input),
            Pattern::Run(class) => match_run(*class, input),
            Pattern::Trail(t, class) => match_trail(t, *class, input),
            Pattern::Enclosed(open, close) => match_enclosed(*open, *close, input),
            Pattern::Body(open, class, e1, e2) => match_body(*open, *class, *e1, *e2, input),
            Pattern::AnyChar => match_any_char(input),
        };
        proof {
            match r {
                Some(n) => self.lemma_is_longest(input@, n as nat),
                None => self.lemma_no_match(input@),
            }
        }
        r
    }
}

} // verus!
