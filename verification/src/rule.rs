//! Rules: a pattern, and the way a token is made from the text it matched.

use crate::number::{decimal, parse_i64};
use crate::pattern::{has_prefix, Pattern};
use crate::token::{Token, TokenView};
use vstd::prelude::*;
use vstd::string::{StringExecFns, StringSliceAdditionalSpecFns};
use vstd::utf8::{decode_utf8, encode_utf8_decode_utf8};

verus! {

/// How a rule makes its token from the text that its pattern matched.
#[derive(Debug)]
pub enum Constructor {
    /// Always this token.
    Fixed(Token),
    /// The text read as a 64-bit signed integer in decimal notation; an
    /// error where it is none.
    Number,
    /// An identifier, but for the two names of the current object.
    Name,
    /// The error of a string literal that the input ends in.
    Unterminated,
    /// The error of a character that nothing else accepts.
    Unknown,
}

/// A pattern and the constructor of its token. A rule's rank is its place in
/// the table.
#[derive(Debug)]
pub struct Rule {
    pub pattern: Pattern,
    pub constructor: Constructor,
}

impl Rule {
    /// The rule that makes `token` of whatever `pattern` matches.
    pub open spec fn spec_fixed(pattern: Pattern, token: Token) -> Rule {
        Rule { pattern, constructor: Constructor::Fixed(token) }
    }

    /// The rule that makes `token` of whatever `pattern` matches.
    #[verifier::when_used_as_spec(spec_fixed)]
    pub fn fixed(pattern: Pattern, token: Token) -> (rule: Rule)
        ensures
            rule == Rule::spec_fixed(pattern, token),
    {
        Rule { pattern, constructor: Constructor::Fixed(token) }
    }
}

/// The message that precedes a numeral that does not fit in 64 bits.
pub open spec fn out_of_range() -> Seq<char> {
    "Out of range: "@
}

/// The message that precedes a string literal without its closing quote.
pub open spec fn unterminated() -> Seq<char> {
    "EOF in String: "@
}

/// Whether `text` is one of the two names of the current object.
pub open spec fn names_self(text: Seq<u8>) -> bool {
    text == "self".spec_bytes() || text == "SELF_TYPE".spec_bytes()
}

impl Constructor {
    /// The token made from the matched bytes `text`.
    pub open spec fn token(self, text: Seq<u8>) -> TokenView {
        match self {
            Constructor::Fixed(t) => t@,
            Constructor::Number => match decimal(text) {
                Some(v) => TokenView::Plain(Token::Integer(v)),
                None => TokenView::Error(out_of_range() + decode_utf8(text)),
            },
            Constructor::Name => if names_self(text) {
                TokenView::Plain(Token::Slf)
            } else {
                TokenView::Ident(decode_utf8(text))
            },
            Constructor::Unterminated => TokenView::Error(unterminated() + decode_utf8(text)),
            Constructor::Unknown => TokenView::Error(decode_utf8(text)),
        }
    }

    /// Whether the constructor makes whitespace or a comment.
    pub open spec fn insignificant(self) -> bool {
        self matches Constructor::Fixed(t) && t.insignificant()
    }

    /// Makes the token of the matched text.
    pub fn construct(&self, text: &str) -> (tok: Token)
        ensures
            tok@ == self.token(text.spec_bytes()),
            tok.insignificant() == self.insignificant(),
    {
        proof {
            encode_utf8_decode_utf8(text@);
        }
        match self {
            Constructor::Fixed(t) => t.clone(),
            Constructor::Number => match parse_i64(text.as_bytes()) {
                Some(v) => Token::Integer(v),
                None => Token::Error("Out of range: ".to_owned().concat(text)),
            },
            Constructor::Name => {
                if same_bytes(text.as_bytes(), "self".as_bytes()) || same_bytes(
                    text.as_bytes(),
                    "SELF_TYPE".as_bytes(),
                ) {
                    Token::Slf
                } else {
                    Token::Ident(text.to_owned())
                }
            },
            Constructor::Unterminated => Token::Error("EOF in String: ".to_owned().concat(text)),
            Constructor::Unknown => Token::Error(text.to_owned()),
        }
    }
}

/// Tells whether two byte strings are the same.
pub fn same_bytes(a: &[u8], b: &[u8]) -> (r: bool)
    ensures
        r == (a@ == b@),
{
    let r = a.len() == b.len() && has_prefix(a, b);
    proof {
        if r {
            assert(a@ =~= b@);
        }
    }
    r
}

} // verus!
