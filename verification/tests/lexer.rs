use cool_lexer::{Lexer, Span, Token, Type};

const CODE: &str = r#"
--This is a comment
* More comments *
* 
One More comment 
*
class List inherits A2I {
    item: Object;
    next: List;

    init(i: String, n: Object): List {
        
        {
            item <- i;
            next <- n;
            self
        }
    };

    flatten(): String {
        let string: String <-
            case item of
                i: Int => i2a(i);
                s: String => s;
                o: Object =>  { abort(); ""; };
            esac
        in
            if (isvoid next) then
                string
            else
                string.concat(next.flatten())
            fi
    };
};

class Main inherits IO {
    main(): Object {
        let hello: String <- "Hello ",
            world: String <- "World!",
            i: int <- 43,
            newline: String <- "\n",
            nil: List,
            list: List <- 
                (new List).init(hello,
                    (new List).init(world, 
                        (new List).init(42,
                            (new List).init(newline, nil))))
        in
            out_string(list.flatten())
    };
};"#;

const EOF_CODE: &str = r#"
"This is an EOF string"#;

fn significant(source: &str) -> Vec<(Token, Span)> {
    let mut lexer = Lexer::new(source);
    let mut out = Vec::new();
    while let Some(item) = lexer.next() {
        out.push(item);
    }
    out
}

fn tokens(source: &str) -> Vec<Token> {
    significant(source).into_iter().map(|(tok, _)| tok).collect()
}

fn all_steps(source: &str) -> Vec<(Token, Span)> {
    let mut lexer = Lexer::new(source);
    let mut out = Vec::new();
    while let Some(item) = lexer.step() {
        out.push(item);
    }
    out
}

fn ident(name: &str) -> Token {
    Token::Ident(name.to_string())
}

#[test]
fn test_comments() {
    let mut lex = Lexer::new(CODE);
    while let Some((tok, _span)) = lex.next() {
        match tok {
            Token::Error(_err) => panic!("bad token"),
            _ => println!("{:?}", tok),
        }
    }
}

#[test]
fn test_eof_in_string() {
    let mut lex = Lexer::new(EOF_CODE);
    let mut seen = 0;
    while let Some((tok, _span)) = lex.next() {
        assert_eq!(
            Token::Error("EOF in String: \"This is an EOF string".to_string()),
            tok
        );
        seen += 1;
    }
    assert_eq!(seen, 1);
}

#[test]
fn end_to_end_class_declaration() {
    let source = "class A{x:Int<-5;};";
    let expected = vec![
        Token::Class,
        ident("A"),
        Token::LeftBracket,
        ident("x"),
        Token::Colon,
        ident("Int"),
        Token::LeftAssign,
        Token::Integer(5),
        Token::Semicolon,
        Token::RightBracket,
        Token::Semicolon,
    ];
    assert_eq!(tokens(source), expected);
    let spans: Vec<(usize, usize)> =
        significant(source).iter().map(|(_, s)| (s.lo, s.hi)).collect();
    assert_eq!(
        spans,
        vec![
            (0, 5),
            (6, 7),
            (7, 8),
            (8, 9),
            (9, 10),
            (10, 13),
            (13, 15),
            (15, 16),
            (16, 17),
            (17, 18),
            (18, 19)
        ]
    );
}

#[test]
fn type_is_usable() {
    assert_eq!(Token::TypeID(Type::String), Token::TypeID(Type::String));
    assert_ne!(Token::TypeID(Type::String), Token::TypeID(Type::Int));
}

#[test]
fn longer_match_beats_shorter_rule() {
    assert_eq!(tokens("<-"), vec![Token::LeftAssign]);
    assert_eq!(tokens("<"), vec![Token::LT]);
    assert_eq!(tokens("< -"), vec![Token::LT, Token::Sub]);
    assert_eq!(tokens("=>"), vec![Token::RightAssign]);
    assert_eq!(tokens("-"), vec![Token::Sub]);
    assert_eq!(tokens("- -"), vec![Token::Sub, Token::Sub]);
    assert_eq!(tokens("--"), vec![]);
    assert_eq!(tokens("inherits"), vec![Token::Inherits]);
    assert_eq!(tokens("in"), vec![Token::In]);
    assert_eq!(tokens("inh"), vec![ident("inh")]);
    assert_eq!(tokens("classes"), vec![ident("classes")]);
}

#[test]
fn earlier_rule_wins_equal_length() {
    assert_eq!(tokens("123"), vec![Token::Integer(123)]);
    assert_eq!(tokens("class"), vec![Token::Class]);
    assert_eq!(tokens("true"), vec![Token::Bool(true)]);
    assert_eq!(tokens("false"), vec![Token::Bool(false)]);
    assert_eq!(tokens("."), vec![Token::Dispatch]);
    assert_eq!(tokens("*"), vec![Token::Mult]);
    assert_eq!(tokens("\""), vec![Token::Error("EOF in String: \"".to_string())]);
}

#[test]
fn keywords_ignore_case() {
    for spelling in ["Class", "CLASS", "class", "ClAsS"] {
        assert_eq!(tokens(spelling), vec![Token::Class]);
    }
    let keywords = [
        ("else", Token::Else),
        ("fi", Token::Fi),
        ("if", Token::If),
        ("in", Token::In),
        ("inherits", Token::Inherits),
        ("isvoid", Token::IsVoid),
        ("let", Token::Let),
        ("loop", Token::Loop),
        ("pool", Token::Pool),
        ("then", Token::Then),
        ("while", Token::While),
        ("case", Token::Case),
        ("esac", Token::Esac),
        ("new", Token::New),
        ("of", Token::Of),
        ("not", Token::Not),
    ];
    for (word, token) in keywords {
        assert_eq!(tokens(word), vec![token.clone()]);
        assert_eq!(tokens(&word.to_uppercase()), vec![token]);
    }
}

#[test]
fn booleans_are_lower_case_only() {
    assert_eq!(tokens("True"), vec![ident("True")]);
    assert_eq!(tokens("FALSE"), vec![ident("FALSE")]);
    assert_eq!(tokens("true1"), vec![ident("true1")]);
}

#[test]
fn self_names_collapse() {
    assert_eq!(tokens("self"), vec![Token::Slf]);
    assert_eq!(tokens("SELF_TYPE"), vec![Token::Slf]);
    assert_eq!(tokens("Self"), vec![ident("Self")]);
    assert_eq!(tokens("self_type"), vec![ident("self_type")]);
    assert_eq!(tokens("selfish"), vec![ident("selfish")]);
}

#[test]
fn integer_out_of_range_is_an_error_token() {
    assert_eq!(tokens("9223372036854775807"), vec![Token::Integer(i64::MAX)]);
    assert_eq!(
        tokens("9223372036854775808"),
        vec![Token::Error("Out of range: 9223372036854775808".to_string())]
    );
    assert_eq!(
        tokens("123456789012345678901234567890 7"),
        vec![
            Token::Error("Out of range: 123456789012345678901234567890".to_string()),
            Token::Integer(7)
        ]
    );
    assert_eq!(tokens("000000000000000000000000000005"), vec![Token::Integer(5)]);
    assert_eq!(tokens("0"), vec![Token::Integer(0)]);
}

#[test]
fn unterminated_string_is_one_error_token() {
    let source = "\"abc def 123";
    let found = significant(source);
    assert_eq!(found.len(), 1);
    assert_eq!(found[0].0, Token::Error("EOF in String: \"abc def 123".to_string()));
    assert_eq!((found[0].1.lo, found[0].1.hi), (0, source.len()));
    let mut lexer = Lexer::new(source);
    assert!(lexer.next().is_some());
    assert!(lexer.next().is_none());
    assert!(lexer.next().is_none());
}

#[test]
fn unterminated_string_continues_over_escaped_line_break() {
    assert_eq!(
        tokens("\"abc\\\ndef"),
        vec![Token::Error("EOF in String: \"abc\\\ndef".to_string())]
    );
    assert_eq!(
        tokens("\"abc\ndef"),
        vec![Token::Error("EOF in String: \"abc".to_string()), ident("def")]
    );
    assert_eq!(
        tokens("\"abc!"),
        vec![
            Token::Error("EOF in String: \"abc".to_string()),
            Token::Error("!".to_string())
        ]
    );
}

#[test]
fn string_literal_runs_to_last_quote() {
    assert_eq!(tokens("\"Hello\""), vec![Token::TypeID(Type::String)]);
    assert_eq!(tokens("\"\""), vec![Token::TypeID(Type::String)]);
    assert_eq!(tokens("\"a\" + \"b\""), vec![Token::TypeID(Type::String)]);
    assert_eq!(
        tokens("x <- \"a\nb\";"),
        vec![ident("x"), Token::LeftAssign, Token::TypeID(Type::String), Token::Semicolon]
    );
}

#[test]
fn block_comment_runs_to_last_star() {
    assert_eq!(tokens("* note *"), vec![]);
    assert_eq!(tokens("a * b * c"), vec![ident("a"), ident("c")]);
    assert_eq!(tokens("a * b * c * d"), vec![ident("a"), ident("d")]);
    assert_eq!(tokens("2 * 3"), vec![Token::Integer(2), Token::Mult, Token::Integer(3)]);
    assert_eq!(tokens("**"), vec![]);
}

#[test]
fn line_comment_ends_with_the_line() {
    assert_eq!(tokens("a -- b c\nd"), vec![ident("a"), ident("d")]);
    assert_eq!(tokens("-- only"), vec![]);
    assert_eq!(tokens("--\u{e9}\u{20ac}\n1"), vec![Token::Integer(1)]);
}

#[test]
fn punctuation() {
    assert_eq!(
        tokens("{ } ( ) : ; , + - / ."),
        vec![
            Token::LeftBracket,
            Token::RightBracket,
            Token::LeftParen,
            Token::RightParen,
            Token::Colon,
            Token::Semicolon,
            Token::Comma,
            Token::Add,
            Token::Sub,
            Token::Divide,
            Token::Dispatch,
        ]
    );
    assert_eq!(tokens("a.b"), vec![ident("a"), Token::Dispatch, ident("b")]);
}

#[test]
fn unknown_characters_are_error_tokens() {
    assert_eq!(tokens("#"), vec![Token::Error("#".to_string())]);
    assert_eq!(tokens("="), vec![Token::Error("=".to_string())]);
    assert_eq!(tokens("~"), vec![Token::Error("~".to_string())]);
    assert_eq!(tokens(">"), vec![Token::Error(">".to_string())]);
    let found = significant("a \u{e9}\u{20ac}\u{1f600} b");
    let got: Vec<(Token, usize, usize)> =
        found.into_iter().map(|(t, s)| (t, s.lo, s.hi)).collect();
    assert_eq!(
        got,
        vec![
            (ident("a"), 0, 1),
            (Token::Error("\u{e9}".to_string()), 2, 4),
            (Token::Error("\u{20ac}".to_string()), 4, 7),
            (Token::Error("\u{1f600}".to_string()), 7, 11),
            (ident("b"), 12, 13),
        ]
    );
}

#[test]
fn whitespace_is_dropped() {
    assert_eq!(tokens(" \t\n\u{b}\u{c}\r"), vec![]);
    assert_eq!(tokens("v"), vec![ident("v")]);
    assert_eq!(tokens(" value v "), vec![ident("value"), ident("v")]);
    let steps = all_steps(" \t\n\u{b}\u{c}\r");
    assert_eq!(steps.len(), 1);
    assert_eq!(steps[0].0, Token::Whitespace);
    assert_eq!((steps[0].1.lo, steps[0].1.hi), (0, 6));
}

#[test]
fn empty_input_has_no_tokens() {
    let mut lexer = Lexer::new("");
    assert!(lexer.step().is_none());
    assert!(lexer.next().is_none());
    assert!(lexer.next().is_none());
}

#[test]
fn steps_include_whitespace_and_comments() {
    let steps = all_steps("a --c\n* x *b");
    let got: Vec<(Token, usize, usize)> =
        steps.into_iter().map(|(t, s)| (t, s.lo, s.hi)).collect();
    assert_eq!(
        got,
        vec![
            (ident("a"), 0, 1),
            (Token::Whitespace, 1, 2),
            (Token::Comment, 2, 5),
            (Token::Whitespace, 5, 6),
            (Token::Comment, 6, 11),
            (ident("b"), 11, 12),
        ]
    );
}

#[test]
fn filtered_spans_leave_gaps() {
    let spans: Vec<(usize, usize)> =
        significant("a  b").iter().map(|(_, s)| (s.lo, s.hi)).collect();
    assert_eq!(spans, vec![(0, 1), (3, 4)]);
}

fn assert_contiguous_and_round_trip(source: &str) {
    let steps = all_steps(source);
    let mut at = 0;
    let mut text = String::new();
    for (_, span) in &steps {
        assert_eq!(span.lo, at);
        assert!(span.lo < span.hi);
        text.push_str(&source[span.lo..span.hi]);
        at = span.hi;
    }
    assert_eq!(at, source.len());
    assert_eq!(text, source);
    assert!(steps.len() <= source.len());
}

#[test]
fn step_spans_are_contiguous_and_cover_the_input() {
    assert_contiguous_and_round_trip(CODE);
    assert_contiguous_and_round_trip(EOF_CODE);
    assert_contiguous_and_round_trip("class A{x:Int<-5;};");
    assert_contiguous_and_round_trip("");
    assert_contiguous_and_round_trip("\u{e9}\"\u{20ac}*\\\n\u{1f600}--\u{0}");
    assert_eq!(all_steps("class A{x:Int<-5;};").len(), 12);
}

#[test]
fn every_character_is_lexed() {
    for code in 0u32..0x250 {
        let c = char::from_u32(code).unwrap();
        let mut text = String::new();
        text.push(c);
        assert_contiguous_and_round_trip(&text);
        text.push('"');
        text.push(c);
        text.push('*');
        text.push(c);
        assert_contiguous_and_round_trip(&text);
    }
    for c in ['\u{7ff}', '\u{800}', '\u{ffff}', '\u{10000}', '\u{10ffff}'] {
        let text = format!("{}a{}", c, c);
        assert_contiguous_and_round_trip(&text);
        assert_eq!(
            tokens(&text),
            vec![Token::Error(c.to_string()), ident("a"), Token::Error(c.to_string())]
        );
    }
}

#[test]
fn two_runs_give_the_same_tokens() {
    assert_eq!(significant(CODE), significant(CODE));
    assert_eq!(all_steps(CODE), all_steps(CODE));
    assert_eq!(significant(CODE).len(), 141);
    assert_eq!(all_steps(CODE).len(), 212);
}

#[test]
fn sample_program_tokens() {
    let found = tokens(CODE);
    assert_eq!(
        &found[..6],
        &[
            Token::Class,
            ident("List"),
            Token::Inherits,
            ident("A2I"),
            Token::LeftBracket,
            ident("item"),
        ]
    );
    assert_eq!(found.iter().filter(|t| **t == Token::TypeID(Type::String)).count(), 1);
    assert_eq!(found.iter().filter(|t| **t == Token::Slf).count(), 1);
    assert_eq!(found.iter().filter(|t| **t == Token::Integer(42)).count(), 1);
    // The one string literal runs from the first quote to the last, over
    // all that stands between them.
    assert_eq!(found.iter().filter(|t| **t == Token::IsVoid).count(), 0);
    assert_eq!(found.iter().filter(|t| **t == Token::Integer(43)).count(), 0);
    let at = found.iter().position(|t| *t == Token::TypeID(Type::String)).unwrap();
    assert_eq!(
        &found[at - 5..at + 5],
        &[
            Token::LeftBracket,
            ident("abort"),
            Token::LeftParen,
            Token::RightParen,
            Token::Semicolon,
            Token::TypeID(Type::String),
            Token::Comma,
            ident("nil"),
            Token::Colon,
            ident("List"),
        ]
    );
    assert_eq!(
        &found[found.len() - 13..],
        &[
            Token::In,
            ident("out_string"),
            Token::LeftParen,
            ident("list"),
            Token::Dispatch,
            ident("flatten"),
            Token::LeftParen,
            Token::RightParen,
            Token::RightParen,
            Token::RightBracket,
            Token::Semicolon,
            Token::RightBracket,
            Token::Semicolon,
        ]
    );
}
