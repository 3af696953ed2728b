//! Tokens, and the place in the source each one was read from.

use vstd::prelude::*;

verus! {

/// The type named by a literal.
#[derive(Debug, Clone, Copy, PartialEq, Eq)]
pub enum Type {
    String,
    Int,
}

/// One lexical unit.
#[derive(Debug, PartialEq)]
pub enum Token {
    Integer(i64),
    Ident(String),
    Slf,
    Comment,
    Whitespace,
    LeftParen,
    RightParen,
    LeftBracket,
    RightBracket,
    Colon,
    Semicolon,
    Comma,
    LeftAssign,
    RightAssign,
    Add,
    Sub,
    Mult,
    Divide,
    Tild,
    LT,
    LTEQ,
    GT,
    GTEQ,
    TypeID(Type),
    Bool(bool),
    Class,
    Else,
    Fi,
    If,
    In,
    Inherits,
    IsVoid,
    Let,
    Loop,
    Pool,
    Then,
    While,
    Case,
    Esac,
    New,
    Of,
    Not,
    Dispatch,
    Error(String),
}

/// What a token says, with the text of the two text-carrying variants as a
/// sequence of characters.
pub enum TokenView {
    /// An identifier and its spelling.
    Ident(Seq<char>),
    /// A lexical error and its message.
    Error(Seq<char>),
    /// Any other token: it carries no text and stands for itself.
    Plain(Token),
}

impl View for Token {
    type V = TokenView;

    open spec fn view(&self) -> TokenView {
        match self {
            Token::Ident(s) => TokenView::Ident(s@),
            Token::Error(s) => TokenView::Error(s@),
            _ => TokenView::Plain(*self),
        }
    }
}

impl Token {
    /// Whitespace and comments are insignificant: the token stream drops them.
    pub open spec fn insignificant(self) -> bool {
        self is Whitespace || self is Comment
    }

    /// Tells whether the token is whitespace or a comment.
    pub fn is_insignificant(&self) -> (r: bool)
        ensures
            r == self.insignificant(),
    {
        match self {
            Token::Whitespace => true,
            Token::Comment => true,
            _ => false,
        }
    }
}

impl Clone for Token {
    fn clone(&self) -> (t: Token)
        ensures
            t@ == self@,
    {
        match self {
            Token::Integer(i) => Token::Integer(*i),
            Token::Ident(s) => Token::Ident(s.clone()),
            Token::Slf => Token::Slf,
            Token::Comment => Token::Comment,
            Token::Whitespace => Token::Whitespace,
            Token::LeftParen => Token::LeftParen,
            Token::RightParen => Token::RightParen,
            Token::LeftBracket => Token::LeftBracket,
            Token::RightBracket => Token::RightBracket,
            Token::Colon => Token::Colon,
            Token::Semicolon => Token::Semicolon,
            Token::Comma => Token::Comma,
            Token::LeftAssign => Token::LeftAssign,
            Token::RightAssign => Token::RightAssign,
            Token::Add => Token::Add,
            Token::Sub => Token::Sub,
            Token::Mult => Token::Mult,
            Token::Divide => Token::Divide,
            Token::Tild => Token::Tild,
            Token::LT => Token::LT,
            Token::LTEQ => Token::LTEQ,
            Token::GT => Token::GT,
            Token::GTEQ => Token::GTEQ,
            Token::TypeID(t) => Token::TypeID(*t),
            Token::Bool(b) => Token::Bool(*b),
            Token::Class => Token::Class,
            Token::Else => Token::Else,
            Token::Fi => Token::Fi,
            Token::If => Token::If,
            Token::In => Token::In,
            Token::Inherits => Token::Inherits,
            Token::IsVoid => Token::IsVoid,
            Token::Let => Token::Let,
            Token::Loop => Token::Loop,
            Token::Pool => Token::Pool,
            Token::Then => Token::Then,
            Token::While => Token::While,
            Token::Case => Token::Case,
            Token::Esac => Token::Esac,
            Token::New => Token::New,
            Token::Of => Token::Of,
            Token::Not => Token::Not,
            Token::Dispatch => Token::Dispatch,
            Token::Error(s) => Token::Error(s.clone()),
        }
    }
}

/// A half-open range `[lo, hi)` of byte offsets into the whole source text.
#[derive(Debug, Clone, Copy, PartialEq, Eq)]
pub struct Span {
    pub lo: usize,
    pub hi: usize,
}

} // verus!
