//! Classes of bytes that patterns repeat.

use vstd::prelude::*;

verus! {

/// A set of bytes.
///
/// The input is UTF-8, so a byte of 0x80 or above is part of a character
/// outside ASCII. Such bytes belong to [`Class::NotNewline`] and
/// [`Class::Any`] and to no other class.
#[derive(Debug, Clone, Copy, PartialEq, Eq)]
pub enum Class {
    /// `0` to `9`.
    Digit,
    /// Letters, digits and the underscore.
    Word,
    /// Space, tab, line feed, vertical tab, form feed and carriage return.
    Space,
    /// Letters, digits and the space.
    Plain,
    /// Every byte but the line feed.
    NotNewline,
    /// Every byte.
    Any,
}

/// `0` to `9`.
pub open spec fn is_digit(b: u8) -> bool {
    0x30 <= b <= 0x39
}

/// `a` to `z` and `A` to `Z`.
pub open spec fn is_letter(b: u8) -> bool {
    0x41 <= b <= 0x5a || 0x61 <= b <= 0x7a
}

/// The lower-case form of an upper-case ASCII letter; any other byte
/// unchanged.
pub open spec fn fold(b: u8) -> u8 {
    if 0x41 <= b <= 0x5a {
        (b + 0x20) as u8
    } else {
        b
    }
}

/// Computes [`fold`].
pub fn fold_case(b: u8) -> (r: u8)
    ensures
        r == fold(b),
{
    if 0x41 <= b && b <= 0x5a {
        b + 0x20
    } else {
        b
    }
}

impl Class {
    /// Whether the byte belongs to the class.
    pub open spec fn has(self, b: u8) -> bool {
        match self {
            Class::Digit => is_digit(b),
            Class::Word => is_letter(b) || is_digit(b) || b == 0x5f,
            Class::Space => b == 0x20 || 0x09 <= b <= 0x0d,
            Class::Plain => is_letter(b) || is_digit(b) || b == 0x20,
            Class::NotNewline => b != 0x0a,
            Class::Any => true,
        }
    }

    /// Whether the class holds ASCII bytes only. A class that does not holds
    /// every byte outside ASCII.
    pub open spec fn ascii(self) -> bool {
        !(self is NotNewline) && !(self is Any)
    }

    /// Tells whether the byte belongs to the class.
    pub fn contains(self, b: u8) -> (r: bool)
        ensures
            r == self.has(b),
    {
        let digit = 0x30 <= b && b <= 0x39;
        let letter = (0x41 <= b && b <= 0x5a) || (0x61 <= b && b <= 0x7a);
        match self {
            Class::Digit => digit,
            Class::Word => letter || digit || b == 0x5f,
            Class::Space => b == 0x20 || (0x09 <= b && b <= 0x0d),
            Class::Plain => letter || digit || b == 0x20,
            Class::NotNewline => b != 0x0a,
            Class::Any => true,
        }
    }

    /// A class is either inside ASCII or holds all that is outside it.
    pub proof fn lemma_ascii_or_rest(self, b: u8)
        ensures
            self.ascii() && self.has(b) ==> b < 0x80,
            !self.ascii() && b >= 0x80 ==> self.has(b),
    {
    }
}

} // verus!
