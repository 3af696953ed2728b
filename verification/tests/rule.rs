use cool_lexer::number::parse_i64;
use cool_lexer::rule::same_bytes;
use cool_lexer::{Constructor, Token, Type};

#[test]
fn decimal_numerals() {
    assert_eq!(parse_i64(b"0"), Some(0));
    assert_eq!(parse_i64(b"42"), Some(42));
    assert_eq!(parse_i64(b"-42"), Some(-42));
    assert_eq!(parse_i64(b"+7"), Some(7));
    assert_eq!(parse_i64(b"0000000000000000000000012"), Some(12));
    assert_eq!(parse_i64(b"9223372036854775807"), Some(i64::MAX));
    assert_eq!(parse_i64(b"9223372036854775808"), None);
    assert_eq!(parse_i64(b"-9223372036854775808"), Some(i64::MIN));
    assert_eq!(parse_i64(b"-9223372036854775809"), None);
    assert_eq!(parse_i64(b"18446744073709551616"), None);
    assert_eq!(parse_i64(b"99999999999999999999999999"), None);
    assert_eq!(parse_i64(b""), None);
    assert_eq!(parse_i64(b"-"), None);
    assert_eq!(parse_i64(b"+"), None);
    assert_eq!(parse_i64(b"12a"), None);
    assert_eq!(parse_i64(b"a"), None);
    assert_eq!(parse_i64(b"1 "), None);
    assert_eq!(parse_i64(b"--1"), None);
}

#[test]
fn decimal_numerals_as_the_standard_library_reads_them() {
    let samples = [
        "0", "-0", "+0", "1", "-1", "007", "9223372036854775806", "9223372036854775807",
        "9223372036854775808", "-9223372036854775807", "-9223372036854775808",
        "-9223372036854775809", "92233720368547758070", "", "+", "-", "+-1", "1+", "0x10", " 1",
        "1_000", "\u{663}",
    ];
    for s in samples {
        assert_eq!(parse_i64(s.as_bytes()), s.parse::<i64>().ok(), "{:?}", s);
    }
}

#[test]
fn constructors_make_their_tokens() {
    assert_eq!(Constructor::Fixed(Token::Class).construct("anything"), Token::Class);
    assert_eq!(
        Constructor::Fixed(Token::TypeID(Type::Int)).construct(""),
        Token::TypeID(Type::Int)
    );
    assert_eq!(
        Constructor::Fixed(Token::Ident("x".to_string())).construct("y"),
        Token::Ident("x".to_string())
    );
    assert_eq!(Constructor::Number.construct("12"), Token::Integer(12));
    assert_eq!(Constructor::Number.construct("-12"), Token::Integer(-12));
    assert_eq!(
        Constructor::Number.construct("99999999999999999999"),
        Token::Error("Out of range: 99999999999999999999".to_string())
    );
    assert_eq!(
        Constructor::Number.construct("12a"),
        Token::Error("Out of range: 12a".to_string())
    );
    assert_eq!(Constructor::Name.construct("self"), Token::Slf);
    assert_eq!(Constructor::Name.construct("SELF_TYPE"), Token::Slf);
    assert_eq!(Constructor::Name.construct("selfs"), Token::Ident("selfs".to_string()));
    assert_eq!(Constructor::Name.construct("x"), Token::Ident("x".to_string()));
    assert_eq!(
        Constructor::Unterminated.construct("\"ab"),
        Token::Error("EOF in String: \"ab".to_string())
    );
    assert_eq!(Constructor::Unknown.construct("#"), Token::Error("#".to_string()));
    assert_eq!(Constructor::Unknown.construct("\u{20ac}"), Token::Error("\u{20ac}".to_string()));
}

#[test]
fn tokens_copy_and_classify() {
    let all = [
        Token::Integer(-3),
        Token::Ident("a".to_string()),
        Token::Slf,
        Token::Comment,
        Token::Whitespace,
        Token::LeftParen,
        Token::TypeID(Type::String),
        Token::Bool(true),
        Token::Dispatch,
        Token::Error("e".to_string()),
    ];
    for t in &all {
        assert_eq!(&t.clone(), t);
        assert_eq!(t.is_insignificant(), matches!(t, Token::Comment | Token::Whitespace));
    }
}

#[test]
fn byte_strings_compare() {
    assert!(same_bytes(b"self", b"self"));
    assert!(!same_bytes(b"self", b"selfs"));
    assert!(!same_bytes(b"selfs", b"self"));
    assert!(!same_bytes(b"self", b"seLf"));
    assert!(same_bytes(b"", b""));
}
