//! A lexer for a small object-oriented teaching language.
//!
//! Source text is cut into tokens by an ordered table of rules. At every
//! position each rule's pattern is matched against the rest of the input; the
//! longest match wins, and among equally long matches the rule that stands
//! first in the table. Malformed input never stops the scan: it comes out as
//! [`Token::Error`].

pub mod boundary;
pub mod class;
pub mod lexer;
pub mod number;
pub mod opening;
pub mod pattern;
pub mod rule;
pub mod scan;
pub mod stream;
pub mod table;
pub mod theorems;
pub mod token;

pub use class::Class;
pub use lexer::Lexer;
pub use pattern::Pattern;
pub use rule::{Constructor, Rule};
pub use token::{Span, Token, TokenView, Type};
