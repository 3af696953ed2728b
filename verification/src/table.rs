//! The rules of the language, in the order of their rank.

use crate::class::{is_digit, Class};
use crate::pattern::Pattern;
use crate::rule::{Constructor, Rule};
use crate::token::{Token, Type};
use vstd::prelude::*;
use vstd::utf8::is_ascii_chars_encode_utf8;

verus! {

/// The rules of the language, the first of highest rank.
///
/// Comments come first: a line comment runs from `--` to the end of the
/// line, a block comment from one `*` to the last `*` of the input. A string
/// literal likewise runs from a quote to the last quote of the input; one
/// without a closing quote is read as far as it holds letters, digits,
/// spaces and line breaks behind a backslash, and is an error. A word is a
/// keyword, whatever its case, a lower-case `true` or `false`, a number, or
/// a name. The last rule accepts any one character, so that some rule
/// matches wherever input is left.
pub open spec fn table() -> Seq<Rule> {
    seq![
        Rule::fixed(Pattern::Trail("--", Class::NotNewline), Token::Comment),
        Rule::fixed(Pattern::Enclosed(0x2a, 0x2a), Token::Comment),
        Rule::fixed(Pattern::Run(Class::Space), Token::Whitespace),
        Rule::fixed(Pattern::Text("{"), Token::LeftBracket),
        Rule::fixed(Pattern::Text("}"), Token::RightBracket),
        Rule::fixed(Pattern::Text("("), Token::LeftParen),
        Rule::fixed(Pattern::Text(")"), Token::RightParen),
        Rule::fixed(Pattern::Text(":"), Token::Colon),
        Rule::fixed(Pattern::Text(";"), Token::Semicolon),
        Rule::fixed(Pattern::Text(","), Token::Comma),
        Rule::fixed(Pattern::Text("<-"), Token::LeftAssign),
        Rule::fixed(Pattern::Text("=>"), Token::RightAssign),
        Rule::fixed(Pattern::Text("+"), Token::Add),
        Rule::fixed(Pattern::Text("-"), Token::Sub),
        Rule::fixed(Pattern::Text("*"), Token::Mult),
        Rule::fixed(Pattern::Text("/"), Token::Divide),
        Rule::fixed(Pattern::Text("<"), Token::LT),
        Rule::fixed(Pattern::Caseless("class"), Token::Class),
        Rule::fixed(Pattern::Caseless("else"), Token::Else),
        Rule::fixed(Pattern::Caseless("fi"), Token::Fi),
        Rule::fixed(Pattern::Caseless("if"), Token::If),
        Rule::fixed(Pattern::Caseless("in"), Token::In),
        Rule::fixed(Pattern::Caseless("inherits"), Token::Inherits),
        Rule::fixed(Pattern::Caseless("isvoid"), Token::IsVoid),
        Rule::fixed(Pattern::Caseless("let"), Token::Let),
        Rule::fixed(Pattern::Caseless("loop"), Token::Loop),
        Rule::fixed(Pattern::Caseless("pool"), Token::Pool),
        Rule::fixed(Pattern::Caseless("then"), Token::Then),
        Rule::fixed(Pattern::Caseless("while"), Token::While),
        Rule::fixed(Pattern::Caseless("case"), Token::Case),
        Rule::fixed(Pattern::Caseless("esac"), Token::Esac),
        Rule::fixed(Pattern::Caseless("new"), Token::New),
        Rule::fixed(Pattern::Caseless("of"), Token::Of),
        Rule::fixed(Pattern::Caseless("not"), Token::Not),
        Rule::fixed(Pattern::Text("true"), Token::Bool(true)),
        Rule::fixed(Pattern::Text("false"), Token::Bool(false)),
        Rule { pattern: Pattern::Run(Class::Digit), constructor: Constructor::Number },
        Rule::fixed(Pattern::Enclosed(0x22, 0x22), Token::TypeID(Type::String)),
        Rule { pattern: Pattern::Body(0x22, Class::Plain, 0x5c, 0x0a), constructor: Constructor::Unterminated },
        Rule { pattern: Pattern::Run(Class::Word), constructor: Constructor::Name },
        Rule::fixed(Pattern::Text("."), Token::Dispatch),
        Rule { pattern: Pattern::AnyChar, constructor: Constructor::Unknown },
    ]
}

/// The number of rules.
pub const RULES: usize = 42;

/// The rank of the rule that reads numbers.
pub const NUMBER: usize = 36;

/// The rank of the rule that reads string literals.
pub const STRING: usize = 37;

/// The rank of the rule that reads string literals without a closing quote.
pub const OPEN_STRING: usize = 38;

/// The rank of the rule that reads names.
pub const NAME: usize = 39;

/// The rank of the rule that accepts any character.
pub const UNKNOWN: usize = 41;

/// Builds the table of rules.
pub fn rule_table() -> (rules: Vec<Rule>)
    ensures
        rules@ == table(),
{
    let mut rules: Vec<Rule> = Vec::new();
    rules.push(Rule::fixed(Pattern::Trail("--", Class::NotNewline), Token::Comment));
    rules.push(Rule::fixed(Pattern::Enclosed(0x2a, 0x2a), Token::Comment));
    rules.push(Rule::fixed(Pattern::Run(Class::Space), Token::Whitespace));
    rules.push(Rule::fixed(Pattern::Text("{"), Token::LeftBracket));
    rules.push(Rule::fixed(Pattern::Text("}"), Token::RightBracket));
    rules.push(Rule::fixed(Pattern::Text("("), Token::LeftParen));
    rules.push(Rule::fixed(Pattern::Text(")"), Token::RightParen));
    rules.push(Rule::fixed(Pattern::Text(":"), Token::Colon));
    rules.push(Rule::fixed(Pattern::Text(";"), Token::Semicolon));
    rules.push(Rule::fixed(Pattern::Text(","), Token::Comma));
    rules.push(Rule::fixed(Pattern::Text("<-"), Token::LeftAssign));
    rules.push(Rule::fixed(Pattern::Text("=>"), Token::RightAssign));
    rules.push(Rule::fixed(Pattern::Text("+"), Token::Add));
    rules.push(Rule::fixed(Pattern::Text("-"), Token::Sub));
    rules.push(Rule::fixed(Pattern::Text("*"), Token::Mult));
    rules.push(Rule::fixed(Pattern::Text("/"), Token::Divide));
    rules.push(Rule::fixed(Pattern::Text("<"), Token::LT));
    rules.push(Rule::fixed(Pattern::Caseless("class"), Token::Class));
    rules.push(Rule::fixed(Pattern::Caseless("else"), Token::Else));
    rules.push(Rule::fixed(Pattern::Caseless("fi"), Token::Fi));
    rules.push(Rule::fixed(Pattern::Caseless("if"), Token::If));
    rules.push(Rule::fixed(Pattern::Caseless("in"), Token::In));
    rules.push(Rule::fixed(Pattern::Caseless("inherits"), Token::Inherits));
    rules.push(Rule::fixed(Pattern::Caseless("isvoid"), Token::IsVoid));
    rules.push(Rule::fixed(Pattern::Caseless("let"), Token::Let));
    rules.push(Rule::fixed(Pattern::Caseless("loop"), Token::Loop));
    rules.push(Rule::fixed(Pattern::Caseless("pool"), Token::Pool));
    rules.push(Rule::fixed(Pattern::Caseless("then"), Token::Then));
    rules.push(Rule::fixed(Pattern::Caseless("while"), Token::While));
    rules.push(Rule::fixed(Pattern::Caseless("case"), Token::Case));
    rules.push(Rule::fixed(Pattern::Caseless("esac"), Token::Esac));
    rules.push(Rule::fixed(Pattern::Caseless("new"), Token::New));
    rules.push(Rule::fixed(Pattern::Caseless("of"), Token::Of));
    rules.push(Rule::fixed(Pattern::Caseless("not"), Token::Not));
    rules.push(Rule::fixed(Pattern::Text("true"), Token::Bool(true)));
    rules.push(Rule::fixed(Pattern::Text("false"), Token::Bool(false)));
    rules.push(Rule { pattern: Pattern::Run(Class::Digit), constructor: Constructor::Number });
    rules.push(Rule::fixed(Pattern::Enclosed(0x22, 0x22), Token::TypeID(Type::String)));
    rules.push(Rule { pattern: Pattern::Body(0x22, Class::Plain, 0x5c, 0x0a), constructor: Constructor::Unterminated });
    rules.push(Rule { pattern: Pattern::Run(Class::Word), constructor: Constructor::Name });
    rules.push(Rule::fixed(Pattern::Text("."), Token::Dispatch));
    rules.push(Rule { pattern: Pattern::AnyChar, constructor: Constructor::Unknown });
    rules
}

/// What the texts of the table are: each is ASCII and not empty, none
/// begins with a digit, and none with a quote.
proof fn lemma_texts()
    ensures
        table().len() == RULES,
        forall|i: int| 0 <= i < RULES ==> (#[trigger] table()[i]).pattern.well_formed(),
        forall|i: int, b: u8|
            0 <= i < RULES && is_digit(b) && #[trigger] table()[i].pattern.opens_with(b) ==> i
                == NUMBER || i == NAME || i == UNKNOWN,
        forall|i: int, b: u8|
            0 <= i < RULES && b == 0x22 && #[trigger] table()[i].pattern.opens_with(b) ==> i
                == STRING || i == OPEN_STRING || i == UNKNOWN,
{
    broadcast use is_ascii_chars_encode_utf8;

    reveal_strlit("--");
    reveal_strlit("{");
    reveal_strlit("}");
    reveal_strlit("(");
    reveal_strlit(")");
    reveal_strlit(":");
    reveal_strlit(";");
    reveal_strlit(",");
    reveal_strlit("<-");
    reveal_strlit("=>");
    reveal_strlit("+");
    reveal_strlit("-");
    reveal_strlit("*");
    reveal_strlit("/");
    reveal_strlit("<");
    reveal_strlit("class");
    reveal_strlit("else");
    reveal_strlit("fi");
    reveal_strlit("if");
    reveal_strlit("in");
    reveal_strlit("inherits");
    reveal_strlit("isvoid");
    reveal_strlit("let");
    reveal_strlit("loop");
    reveal_strlit("pool");
    reveal_strlit("then");
    reveal_strlit("while");
    reveal_strlit("case");
    reveal_strlit("esac");
    reveal_strlit("new");
    reveal_strlit("of");
    reveal_strlit("not");
    reveal_strlit("true");
    reveal_strlit("false");
    reveal_strlit(".");
    assert(forall|i: int| 0 <= i < RULES ==> (#[trigger] table()[i]).pattern.well_formed());
}

/// Every pattern of the table is well formed, and the last rule accepts any
/// character.
pub proof fn lemma_table()
    ensures
        table().len() == RULES,
        forall|i: int| 0 <= i < table().len() ==> (#[trigger] table()[i]).pattern.well_formed(),
        table()[RULES - 1].pattern == Pattern::AnyChar,
{
    lemma_texts();
}

/// The rules that a digit can begin a match of are those for numbers, for
/// names and for any character; those that a quote can begin a match of are
/// the two for string literals and that for any character.
pub proof fn lemma_openings(b: u8)
    ensures
        is_digit(b) ==> forall|i: int|
            0 <= i < RULES && (#[trigger] table()[i]).pattern.opens_with(b) ==> i == NUMBER || i
                == NAME || i == UNKNOWN,
        b == 0x22 ==> forall|i: int|
            0 <= i < RULES && (#[trigger] table()[i]).pattern.opens_with(b) ==> i == STRING || i
                == OPEN_STRING || i == UNKNOWN,
{
    lemma_texts();
}

} // verus!
