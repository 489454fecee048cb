use minilang::environment::Environment;
use minilang::lexer::{find_reserved, is_skippable, tokenize, BinaryOperator, LexError, Token};
use minilang::parser::Parser;

fn standard_test(content: &str) {
    let mut parser = Parser::initialize(content.to_string()).unwrap();
    let program = parser.produce_ast().unwrap();
    let mut environment = Environment::create(None);
    let result = environment.evaluate_program(program);
    assert!(result.is_ok());
}

#[test]
fn test2() {
    let content = r#"
let a; a = 3;
let c = 5; c = 4;
let d = a + c * 2;
"#;
    standard_test(content);
}

#[test]
fn tokenize_simple_expression() {
    let tokens = tokenize("2 + 3".to_string()).unwrap();
    assert_eq!(
        tokens,
        vec![
            Token::Number("2".to_string()),
            Token::BinaryOperator(BinaryOperator::Additive('+')),
            Token::Number("3".to_string()),
            Token::EndOfInput,
        ]
    );
}

#[test]
fn tokenize_reserved_words() {
    let tokens = tokenize("let const null".to_string()).unwrap();
    assert_eq!(tokens, vec![Token::Let, Token::Const, Token::Null, Token::EndOfInput]);
}

#[test]
fn tokenize_reserved_needs_whole_word() {
    let tokens = tokenize("letx".to_string()).unwrap();
    assert_eq!(tokens, vec![Token::Identifier("letx".to_string()), Token::EndOfInput]);
}

#[test]
fn tokenize_maximal_digit_run() {
    let tokens = tokenize("123*45".to_string()).unwrap();
    assert_eq!(
        tokens,
        vec![
            Token::Number("123".to_string()),
            Token::BinaryOperator(BinaryOperator::Multiplicative('*')),
            Token::Number("45".to_string()),
            Token::EndOfInput,
        ]
    );
}

#[test]
fn tokenize_punctuation() {
    let tokens = tokenize("()=;%".to_string()).unwrap();
    assert_eq!(
        tokens,
        vec![
            Token::OpenParen,
            Token::CloseParen,
            Token::Equals,
            Token::Semicolon,
            Token::BinaryOperator(BinaryOperator::Multiplicative('%')),
            Token::EndOfInput,
        ]
    );
}

#[test]
fn tokenize_skips_whitespace_only() {
    let tokens = tokenize(" \n\t".to_string()).unwrap();
    assert_eq!(tokens, vec![Token::EndOfInput]);
}

#[test]
fn tokenize_undefined_character() {
    let result = tokenize("2 @ 3".to_string());
    assert_eq!(result, Err(LexError::UndefinedCharacter('@')));
}

#[test]
fn find_reserved_classifies_words() {
    assert_eq!(find_reserved(&"let".to_string()), Some(Token::Let));
    assert_eq!(find_reserved(&"const".to_string()), Some(Token::Const));
    assert_eq!(find_reserved(&"null".to_string()), Some(Token::Null));
    assert_eq!(find_reserved(&"letter".to_string()), None);
    assert_eq!(find_reserved(&"x".to_string()), None);
}

#[test]
fn is_skippable_accepts_whitespace_only() {
    assert!(is_skippable(&' '));
    assert!(is_skippable(&'\n'));
    assert!(is_skippable(&'\t'));
    assert!(!is_skippable(&'a'));
    assert!(!is_skippable(&'0'));
}

#[test]
fn round_trip_spaced_token_text() {
    // The textual forms of supported tokens, one space after each,
    // re-lex to the same token kinds.
    let text = "let x = 12 + ( y * 3 ) ; null";
    let tokens = tokenize(text.to_string()).unwrap();
    let mut rebuilt = String::new();
    for t in &tokens {
        let piece = match t {
            Token::Number(s) => s.clone(),
            Token::Identifier(s) => s.clone(),
            Token::Equals => "=".to_string(),
            Token::OpenParen => "(".to_string(),
            Token::CloseParen => ")".to_string(),
            Token::BinaryOperator(BinaryOperator::Additive(c)) => c.to_string(),
            Token::BinaryOperator(BinaryOperator::Multiplicative(c)) => c.to_string(),
            Token::Let => "let".to_string(),
            Token::Const => "const".to_string(),
            Token::Null => "null".to_string(),
            Token::Semicolon => ";".to_string(),
            Token::EndOfInput => String::new(),
        };
        rebuilt.push_str(&piece);
        rebuilt.push(' ');
    }
    let again = tokenize(rebuilt).unwrap();
    assert_eq!(tokens, again);
}

#[test]
fn digit_bearing_identifier_splits_into_two_tokens() {
    // Identifiers do not support digits: "x1" lexes as an identifier
    // followed by a number, not as one name.
    let tokens = tokenize("x1".to_string()).unwrap();
    assert_eq!(
        tokens,
        vec![
            Token::Identifier("x".to_string()),
            Token::Number("1".to_string()),
            Token::EndOfInput,
        ]
    );
}

#[test]
fn round_trip_reserved_wins_over_identifier() {
    // An identifier spelled like a reserved word reads back as the
    // reserved word.
    let tokens = tokenize("let".to_string()).unwrap();
    assert_eq!(tokens, vec![Token::Let, Token::EndOfInput]);
}
