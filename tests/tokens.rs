use bugland::token::{LexError, Token, Tokenizer};

fn s(x: &str) -> String {
    x.to_string()
}

#[test]
fn declaration_tokens() {
    let toks = Tokenizer::tokenize("variable x = 5;").unwrap();
    assert_eq!(
        toks,
        vec![
            Token::Keyword(s("variable")),
            Token::Identifier(s("x")),
            Token::Operator(s("=")),
            Token::Number(5),
            Token::Symbol(';'),
        ]
    );
}

#[test]
fn control_words_are_identifiers() {
    let toks = Tokenizer::tokenize("if while for else and or not").unwrap();
    let names = ["if", "while", "for", "else", "and", "or", "not"];
    assert_eq!(toks, names.iter().map(|n| Token::Identifier(s(n))).collect::<Vec<_>>());
}

#[test]
fn booleans_and_keywords() {
    let toks = Tokenizer::tokenize("true false print update True").unwrap();
    assert_eq!(
        toks,
        vec![
            Token::Boolean(true),
            Token::Boolean(false),
            Token::Keyword(s("print")),
            Token::Keyword(s("update")),
            Token::Identifier(s("True")),
        ]
    );
}

#[test]
fn float_needs_digit_after_dot() {
    let toks = Tokenizer::tokenize("3.14 007").unwrap();
    assert_eq!(toks, vec![Token::Float(s("3.14")), Token::Number(7)]);
    assert_eq!(Tokenizer::tokenize("5."), Err(LexError::UnexpectedCharacter('.')));
}

#[test]
fn operators_take_a_following_equals() {
    let toks = Tokenizer::tokenize("== != <= >= < > ! =").unwrap();
    let ops = ["==", "!=", "<=", ">=", "<", ">", "!", "="];
    assert_eq!(toks, ops.iter().map(|o| Token::Operator(s(o))).collect::<Vec<_>>());
}

#[test]
fn symbols_and_division() {
    let toks = Tokenizer::tokenize(": + - * / { } ( ) ;").unwrap();
    let syms = [':', '+', '-', '*', '/', '{', '}', '(', ')', ';'];
    assert_eq!(toks, syms.iter().map(|c| Token::Symbol(*c)).collect::<Vec<_>>());
}

#[test]
fn line_comment_yields_nothing() {
    let toks = Tokenizer::tokenize("1 // two 3\n4").unwrap();
    assert_eq!(toks, vec![Token::Number(1), Token::Number(4)]);
    assert_eq!(Tokenizer::tokenize("//").unwrap(), vec![]);
}

#[test]
fn strings_are_verbatim() {
    let toks = Tokenizer::tokenize("\"a b \\n\" \"open").unwrap();
    assert_eq!(toks, vec![Token::StringLiteral(s("a b \\n")), Token::StringLiteral(s("open"))]);
}

#[test]
fn empty_input_has_no_tokens() {
    assert_eq!(Tokenizer::tokenize("").unwrap(), vec![]);
    assert_eq!(Tokenizer::tokenize(" \t\n\r").unwrap(), vec![]);
    assert_eq!(Tokenizer::tokenize("\u{a0}1").unwrap(), vec![Token::Number(1)]);
}

#[test]
fn unknown_character_is_an_error() {
    assert_eq!(Tokenizer::tokenize("x # y"), Err(LexError::UnexpectedCharacter('#')));
}

#[test]
fn integer_range_is_checked() {
    assert_eq!(
        Tokenizer::tokenize("9223372036854775807").unwrap(),
        vec![Token::Number(9223372036854775807)]
    );
    assert_eq!(Tokenizer::tokenize("9223372036854775808"), Err(LexError::IntegerOutOfRange));
}

#[test]
fn reconstruct_separates_by_spaces() {
    let toks = vec![
        Token::Keyword(s("print")),
        Token::StringLiteral(s("hi there")),
        Token::Symbol(';'),
        Token::Number(12),
        Token::Operator(s("<=")),
        Token::Float(s("1.50")),
        Token::Boolean(false),
    ];
    assert_eq!(Tokenizer::reconstruct(&toks), "print \"hi there\" ; 12 <= 1.50 false");
    assert_eq!(Tokenizer::reconstruct(&[]), "");
}

#[test]
fn round_trip_keeps_tokens() {
    let src = "variable x = 10; while (x < 3) { print \"a b\"; update x + 1; } for (i = 0; i < 2; i += 1) { print 2.5; } x != y / 2 // note";
    let toks = Tokenizer::tokenize(src).unwrap();
    let again = Tokenizer::tokenize(&Tokenizer::reconstruct(&toks)).unwrap();
    assert_eq!(again, toks);
}

#[test]
fn reconstruct_of_negative_number_is_not_a_round_trip() {
    let text = Tokenizer::reconstruct(&[Token::Number(-3)]);
    assert_eq!(text, "-3");
    assert_eq!(Tokenizer::tokenize(&text).unwrap(), vec![Token::Symbol('-'), Token::Number(3)]);
}

#[test]
fn wide_white_space_is_skipped() {
    assert_eq!(Tokenizer::tokenize("\u{3000}1\u{2028}2\u{85}").unwrap(), vec![Token::Number(1), Token::Number(2)]);
    assert_eq!(Tokenizer::tokenize("\u{200b}"), Err(LexError::UnexpectedCharacter('\u{200b}')));
}
