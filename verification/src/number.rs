//! Decimal numerals in 64 bits.

use crate::class::is_digit;
use vstd::prelude::*;

verus! {

/// The value of a decimal digit.
pub open spec fn digit(b: u8) -> nat {
    if is_digit(b) {
        (b - 0x30) as nat
    } else {
        0
    }
}

/// The number that a run of decimal digits denotes.
pub open spec fn digits_value(s: Seq<u8>) -> nat
    decreases s.len(),
{
    if s.len() == 0 {
        0
    } else {
        digits_value(s.drop_last()) * 10 + digit(s.last())
    }
}

/// Whether `s` is made of decimal digits, and of at least one.
pub open spec fn is_numeral(s: Seq<u8>) -> bool {
    s.len() >= 1 && forall|i: int| 0 <= i < s.len() ==> is_digit(#[trigger] s[i])
}

/// The 64-bit signed integer that `s` denotes: an optional `+` or `-`, then
/// decimal digits. `None` where `s` has another form or the number does
/// not fit.
pub open spec fn decimal(s: Seq<u8>) -> Option<i64> {
    let signed = s.len() >= 1 && (s[0] == 0x2b || s[0] == 0x2d);
    let digits = if signed {
        s.skip(1)
    } else {
        s
    };
    let value = if signed && s[0] == 0x2d {
        -(digits_value(digits) as int)
    } else {
        digits_value(digits) as int
    };
    if is_numeral(digits) && i64::MIN <= value <= i64::MAX {
        Some(value as i64)
    } else {
        None
    }
}

/// A numeral is worth at least as much as any of its prefixes.
proof fn lemma_prefix_value(s: Seq<u8>, k: int)
    requires
        0 <= k <= s.len(),
    ensures
        digits_value(s.take(k)) <= digits_value(s),
    decreases s.len(),
{
    if k < s.len() {
        lemma_prefix_value(s.drop_last(), k);
        assert(s.drop_last().take(k) =~= s.take(k));
    } else {
        assert(s.take(k) =~= s);
    }
}

/// Reads a 64-bit signed integer in decimal notation.
pub fn parse_i64(s: &[u8]) -> (r: Option<i64>)
    ensures
        r == decimal(s@),
{
    let len: usize = s.len();
    if len == 0 {
        return None;
    }
    let negative = s[0] == 0x2d;
    let start: usize = if s[0] == 0x2b || s[0] == 0x2d {
        1
    } else {
        0
    };
    let ghost digits = s@.skip(start as int);
    proof {
        if start == 0 {
            assert(digits =~= s@);
        }
    }
    if start == len {
        return None;
    }
    let limit: u64 = if negative {
        0x8000_0000_0000_0000
    } else {
        0x7fff_ffff_ffff_ffff
    };
    let mut acc: u64 = 0;
    let mut i: usize = start;
    while i < len
        invariant
            start <= i <= len,
            len == s@.len(),
            digits == s@.skip(start as int),
            start == 0 ==> digits == s@,
            len >= 1,
            negative == (s@[0] == 0x2d),
            start == (if s@[0] == 0x2b || s@[0] == 0x2d { 1int } else { 0int }),
            limit == (if negative { 0x8000_0000_0000_0000u64 } else { 0x7fff_ffff_ffff_ffffu64 }),
            acc == digits_value(digits.take(i - start)),
            acc <= limit,
            forall|j: int| 0 <= j < i - start ==> is_digit(#[trigger] digits[j]),
        decreases len - i,
    {
        let b: u8 = s[i];
        assert(digits[i - start] == b);
        if b < 0x30 || b > 0x39 {
            return None;
        }
        let d: u64 = (b - 0x30) as u64;
        proof {
            assert(digits.take(i + 1 - start).drop_last() =~= digits.take(i - start));
            assert(digits.take(i + 1 - start).last() == b);
            assert(digits_value(digits.take(i + 1 - start)) == acc * 10 + d);
        }
        if acc > (limit - d) / 10 {
            proof {
                assert(acc * 10 + d > limit);
                lemma_prefix_value(digits, i + 1 - start);
                assert(digits_value(digits) > limit);
            }
            return None;
        }
        acc = acc * 10 + d;
        i += 1;
    }
    proof {
        assert(digits.len() == len - start);
        assert(digits.take(len - start) =~= digits);
        assert(is_numeral(digits));
        assert(digits_value(digits) == acc);
    }
    if negative {
        if acc == 0x8000_0000_0000_0000 {
            Some(i64::MIN)
        } else {
            Some(-(acc as i64))
        }
    } else {
        Some(acc as i64)
    }
}

} // verus!
