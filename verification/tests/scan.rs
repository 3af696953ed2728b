use cool_lexer::scan::select;
use cool_lexer::table::{rule_table, RULES};
use cool_lexer::{Class, Constructor, Pattern, Rule, Token};

fn rule(pattern: Pattern, token: Token) -> Rule {
    Rule::fixed(pattern, token)
}

#[test]
fn fixed_rule_holds_its_pattern_and_token() {
    match Rule::fixed(Pattern::Text("+"), Token::Add) {
        Rule { pattern: Pattern::Text("+"), constructor: Constructor::Fixed(Token::Add) } => {}
        other => panic!("{:?}", other),
    }
}

#[test]
fn equal_length_goes_to_the_earlier_rule() {
    let digits_first =
        vec![rule(Pattern::Run(Class::Digit), Token::Add), rule(Pattern::Run(Class::Word), Token::Sub)];
    assert_eq!(select(&digits_first, b"123"), Some((0, 3)));
    let words_first =
        vec![rule(Pattern::Run(Class::Word), Token::Sub), rule(Pattern::Run(Class::Digit), Token::Add)];
    assert_eq!(select(&words_first, b"123"), Some((0, 3)));
    let three = vec![
        rule(Pattern::Text("ab"), Token::Add),
        rule(Pattern::Caseless("AB"), Token::Sub),
        rule(Pattern::Run(Class::Word), Token::Mult),
    ];
    assert_eq!(select(&three, b"ab."), Some((0, 2)));
    assert_eq!(select(&three, b"Ab."), Some((1, 2)));
    assert_eq!(select(&three, b"abc"), Some((2, 3)));
}

#[test]
fn longer_match_wins_whatever_the_order() {
    let digits_first =
        vec![rule(Pattern::Run(Class::Digit), Token::Add), rule(Pattern::Run(Class::Word), Token::Sub)];
    assert_eq!(select(&digits_first, b"123a"), Some((1, 4)));
    let words_first =
        vec![rule(Pattern::Run(Class::Word), Token::Sub), rule(Pattern::Run(Class::Digit), Token::Add)];
    assert_eq!(select(&words_first, b"123a"), Some((0, 4)));
    let arrow = vec![
        rule(Pattern::Text("<"), Token::LT),
        rule(Pattern::Text("-"), Token::Sub),
        rule(Pattern::Text("<-"), Token::LeftAssign),
    ];
    assert_eq!(select(&arrow, b"<-"), Some((2, 2)));
    assert_eq!(select(&arrow, b"<"), Some((0, 1)));
    assert_eq!(select(&arrow, b"-<"), Some((1, 1)));
}

#[test]
fn no_rule_matches() {
    let one = vec![rule(Pattern::Text("a"), Token::Add)];
    assert_eq!(select(&one, b"b"), None);
    assert_eq!(select(&one, b""), None);
    let none: Vec<Rule> = Vec::new();
    assert_eq!(select(&none, b"a"), None);
}

#[test]
fn table_of_the_language() {
    let table = rule_table();
    assert_eq!(table.len(), RULES);
    assert_eq!(RULES, 42);
    assert_eq!(select(&table, b"<-x"), Some((10, 2)));
    assert_eq!(select(&table, b"<x"), Some((16, 1)));
    assert_eq!(select(&table, b"123"), Some((36, 3)));
    assert_eq!(select(&table, b"a123"), Some((39, 4)));
    assert_eq!(select(&table, b"#"), Some((41, 1)));
    assert_eq!(select(&table, b""), None);
    match &table[41] {
        Rule { pattern: Pattern::AnyChar, constructor: Constructor::Unknown } => {}
        other => panic!("{:?}", other),
    }
}
