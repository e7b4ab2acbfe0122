use lexer::lexer::{Lexer, Token};

/// Scans `input` and checks that exactly `expected_tokens` come out, followed
/// by the end-of-input signal.
fn check(input: &str, expected_tokens: Vec<Token>) {
    let mut lex = Lexer::new(input.to_string());
    for expected_token in expected_tokens {
        let produced = lex
            .next_token()
            .expect("a token was expected before the end of the input");
        assert_eq!(expected_token, produced);
    }
    assert_eq!(lex.next_token(), None);
}

#[test]
fn single_character_tokens_in_isolation() {
    let cases = vec![
        ("+", Token::OpPlus),
        ("-", Token::OpMinus),
        ("*", Token::OpMult),
        ("/", Token::OpDiv),
        ("%", Token::OpMod),
        ("&", Token::OpAnd),
        ("|", Token::OpOr),
        ("!", Token::OpNot),
        (">", Token::OpGt),
        ("<", Token::OpLt),
        ("=", Token::Assignment),
        (";", Token::SemiColon),
        (":", Token::Colon),
        (",", Token::Comma),
        ("(", Token::Lparen),
        (")", Token::RParen),
        ("{", Token::LSquirly),
        ("}", Token::RSquirly),
        ("[", Token::LBracket),
        ("]", Token::RBracket),
    ];
    for (input, expected) in cases {
        check(input, vec![expected]);
    }
}

#[test]
fn two_character_operators_in_isolation() {
    check(">=", vec![Token::OpGe]);
    check("==", vec![Token::OpEq]);
    check("!=", vec![Token::OpNe]);
    check("<=", vec![Token::OpLe]);
}

#[test]
fn short_form_when_not_followed_by_equals() {
    check(">a", vec![Token::OpGt, Token::Identifier("a".to_string())]);
    check("=+", vec![Token::Assignment, Token::OpPlus]);
    check("!;", vec![Token::OpNot, Token::SemiColon]);
    check("<5", vec![Token::OpLt, Token::NumLiteral("5".to_string())]);
}

#[test]
fn greedy_operator_chain() {
    check(
        ">>===!=<<=",
        vec![
            Token::OpGt,
            Token::OpGe,
            Token::OpEq,
            Token::OpNe,
            Token::OpLt,
            Token::OpLe,
        ],
    );
}

#[test]
fn keywords_in_isolation() {
    let cases = vec![
        ("let", Token::KwLet),
        ("fn", Token::KwFn),
        ("void", Token::KwVoid),
        ("true", Token::KwTrue),
        ("false", Token::KwFalse),
        ("if", Token::KwIf),
        ("else", Token::KwElse),
        ("while", Token::KwWhile),
        ("return", Token::KwReturn),
        ("break", Token::KwBreak),
    ];
    for (input, expected) in cases {
        check(input, vec![expected]);
    }
}

#[test]
fn identifiers_carry_the_full_run() {
    check("foo_bar", vec![Token::Identifier("foo_bar".to_string())]);
    check("_", vec![Token::Identifier("_".to_string())]);
    check("lets", vec![Token::Identifier("lets".to_string())]);
    check("Let", vec![Token::Identifier("Let".to_string())]);
    check(
        "whiles break",
        vec![Token::Identifier("whiles".to_string()), Token::KwBreak],
    );
}

#[test]
fn integer_and_decimal_literals() {
    check("12345", vec![Token::NumLiteral("12345".to_string())]);
    check("10.25", vec![Token::NumLiteral("10.25".to_string())]);
    check("0.0", vec![Token::NumLiteral("0.0".to_string())]);
}

#[test]
fn trailing_point_stays_in_the_literal() {
    check("7.", vec![Token::NumLiteral("7.".to_string())]);
}

#[test]
fn second_point_is_not_consumed() {
    let mut lex = Lexer::new("5.5.5".to_string());
    assert_eq!(lex.next_token(), Some(Token::NumLiteral("5.5".to_string())));
    // the second point matches no rule: it is skipped without a token
    assert_eq!(lex.next_token(), None);
    assert_eq!(lex.next_token(), Some(Token::NumLiteral("5".to_string())));
    assert_eq!(lex.next_token(), None);
}

#[test]
fn whitespace_never_reaches_a_token() {
    check(" \t\r\n +  \n\n - \t ", vec![Token::OpPlus, Token::OpMinus]);
    check("   ", vec![]);
    check("", vec![]);
}

#[test]
fn unrecognized_byte_is_skipped_silently() {
    let mut lex = Lexer::new("a @ b".to_string());
    assert_eq!(lex.next_token(), Some(Token::Identifier("a".to_string())));
    assert_eq!(lex.next_token(), None);
    assert_eq!(lex.next_token(), Some(Token::Identifier("b".to_string())));
    assert_eq!(lex.next_token(), None);
}

#[test]
fn comment_runs_to_just_before_the_newline() {
    check(
        "? note\nlet",
        vec![Token::Comment("? note".to_string()), Token::KwLet],
    );
}

#[test]
fn comment_without_newline_runs_to_the_end() {
    check("x ? tail", vec![
        Token::Identifier("x".to_string()),
        Token::Comment("? tail".to_string()),
    ]);
    check("?", vec![Token::Comment("?".to_string())]);
}

#[test]
fn comment_keeps_non_ascii_text() {
    check(
        "? caf\u{e9}\n;",
        vec![Token::Comment("? caf\u{e9}".to_string()), Token::SemiColon],
    );
}
