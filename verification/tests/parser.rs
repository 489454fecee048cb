use minilang::ast::{Expression, Statement};
use minilang::lexer::{LexError, Token};
use minilang::parser::{ParseError, Parser};

fn parse(source: &str) -> Result<Vec<Statement>, ParseError> {
    let mut parser = Parser::initialize(source.to_string()).unwrap();
    parser.produce_ast().map(|p| p.body)
}

fn binary(left: Expression, right: Expression, operator: char) -> Expression {
    Expression::BinaryExpression { left: Box::new(left), right: Box::new(right), operator }
}

#[test]
fn parse_precedence_shape() {
    // "2 + 3 * 4" parses as 2 + (3 * 4).
    let body = parse("2 + 3 * 4").unwrap();
    assert_eq!(
        body,
        vec![Statement::Expression(binary(
            Expression::NumericLiteral(2),
            binary(Expression::NumericLiteral(3), Expression::NumericLiteral(4), '*'),
            '+',
        ))]
    );
}

#[test]
fn parse_parentheses_reset_precedence() {
    // "(2 + 3) * 4" parses as (2 + 3) * 4.
    let body = parse("(2 + 3) * 4").unwrap();
    assert_eq!(
        body,
        vec![Statement::Expression(binary(
            binary(Expression::NumericLiteral(2), Expression::NumericLiteral(3), '+'),
            Expression::NumericLiteral(4),
            '*',
        ))]
    );
}

#[test]
fn parse_left_associative_shape() {
    // "10 - 3 - 2" parses as (10 - 3) - 2.
    let body = parse("10 - 3 - 2").unwrap();
    assert_eq!(
        body,
        vec![Statement::Expression(binary(
            binary(Expression::NumericLiteral(10), Expression::NumericLiteral(3), '-'),
            Expression::NumericLiteral(2),
            '-',
        ))]
    );
}

#[test]
fn parse_let_without_initializer() {
    let body = parse("let a;").unwrap();
    assert_eq!(
        body,
        vec![Statement::VarDeclaration { identifier: "a".to_string(), value: None }]
    );
}

#[test]
fn parse_let_with_initializer() {
    let body = parse("let a = 1;").unwrap();
    assert_eq!(
        body,
        vec![Statement::VarDeclaration {
            identifier: "a".to_string(),
            value: Some(Expression::NumericLiteral(1)),
        }]
    );
}

#[test]
fn parse_const_declaration() {
    let body = parse("const a = 1;").unwrap();
    assert_eq!(
        body,
        vec![Statement::ConstDeclaration {
            identifier: "a".to_string(),
            value: Expression::NumericLiteral(1),
        }]
    );
}

#[test]
fn parse_const_without_initializer_fails() {
    assert_eq!(parse("const a;"), Err(ParseError::ConstWithoutInitializer));
}

#[test]
fn parse_declaration_missing_semicolon_fails() {
    assert_eq!(parse("let a = 1"), Err(ParseError::MissingSemicolon));
}

#[test]
fn parse_assignment_statement() {
    let body = parse("a = 1;").unwrap();
    assert_eq!(
        body,
        vec![Statement::VarAssignment {
            assigne: Expression::Identifier("a".to_string()),
            value: Expression::NumericLiteral(1),
        }]
    );
}

#[test]
fn parse_assignment_missing_semicolon_fails() {
    assert_eq!(parse("a = 1"), Err(ParseError::MissingSemicolon));
}

#[test]
fn parse_missing_close_paren_fails() {
    assert_eq!(parse("(2 + 3"), Err(ParseError::MissingCloseParen));
}

#[test]
fn parse_unmatched_close_paren_fails() {
    assert_eq!(parse(") 2"), Err(ParseError::UnmatchedCloseParen));
}

#[test]
fn parse_unexpected_token_reports_it() {
    assert_eq!(
        parse("let 5;"),
        Err(ParseError::UnexpectedToken(Token::Number("5".to_string())))
    );
}

#[test]
fn parse_number_at_the_32_bit_limit() {
    let body = parse("2147483647").unwrap();
    assert_eq!(body, vec![Statement::Expression(Expression::NumericLiteral(2147483647))]);
}

#[test]
fn parse_number_beyond_the_32_bit_limit_fails() {
    assert_eq!(parse("2147483648"), Err(ParseError::NumberOutOfRange));
}

#[test]
fn parse_null_literal() {
    let body = parse("null").unwrap();
    assert_eq!(body, vec![Statement::Expression(Expression::NullLiteral)]);
}

#[test]
fn parse_empty_program() {
    let body = parse("").unwrap();
    assert_eq!(body, Vec::new());
}

#[test]
fn parse_expression_statement_optional_semicolon() {
    let body = parse("2 + 3;").unwrap();
    assert_eq!(
        body,
        vec![Statement::Expression(binary(
            Expression::NumericLiteral(2),
            Expression::NumericLiteral(3),
            '+',
        ))]
    );
}

#[test]
fn initialize_reports_lexer_error() {
    let r = Parser::initialize("2 # 3".to_string());
    assert!(matches!(r, Err(LexError::UndefinedCharacter('#'))));
}
