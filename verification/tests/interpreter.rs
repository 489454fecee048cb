use minilang::environment::{EnvError, Environment};
use minilang::interpreter::{evaluate_program, EvalError};
use minilang::parser::Parser;
use minilang::values::RuntimeValue;

fn run(source: &str) -> Result<RuntimeValue, EvalError> {
    let mut parser = Parser::initialize(source.to_string()).unwrap();
    let program = parser.produce_ast().unwrap();
    let mut environment = Environment::create(None);
    evaluate_program(program, &mut environment)
}

fn run_with_env(source: &str, environment: &mut Environment) -> Result<RuntimeValue, EvalError> {
    let mut parser = Parser::initialize(source.to_string()).unwrap();
    let program = parser.produce_ast().unwrap();
    evaluate_program(program, environment)
}

#[test]
fn precedence_multiplication_binds_tighter() {
    assert_eq!(run("2 + 3 * 4"), Ok(RuntimeValue::NumberValue(14)));
}

#[test]
fn precedence_parentheses_reset() {
    assert_eq!(run("(2 + 3) * 4"), Ok(RuntimeValue::NumberValue(20)));
}

#[test]
fn subtraction_is_left_associative() {
    assert_eq!(run("10 - 3 - 2"), Ok(RuntimeValue::NumberValue(5)));
}

#[test]
fn redeclaration_in_same_scope_fails() {
    assert_eq!(
        run("let a = 1; let a = 2;"),
        Err(EvalError::Env(EnvError::Redeclaration("a".to_string())))
    );
}

#[test]
fn constants_are_not_assignable() {
    assert_eq!(
        run("const a = 1; a = 2;"),
        Err(EvalError::Env(EnvError::NotFound("a".to_string())))
    );
}

#[test]
fn variables_are_assignable() {
    assert_eq!(run("let a = 1; a = 2;"), Ok(RuntimeValue::NumberValue(2)));
}

#[test]
fn division_by_zero_fails() {
    assert_eq!(run("4 / 0"), Err(EvalError::DivisionByZero));
}

#[test]
fn modulo_by_zero_fails() {
    assert_eq!(run("4 % 0"), Err(EvalError::DivisionByZero));
}

#[test]
fn unbound_identifier_fails() {
    assert_eq!(run("b"), Err(EvalError::Env(EnvError::NotFound("b".to_string()))));
}

#[test]
fn end_to_end_scenario() {
    // "let a; a = 3; let c = 5; let d = a + c * 2;" — `a` starts null,
    // becomes 3; `c` is 5; `d` evaluates 3 + 5*2 = 13; the final
    // environment holds a=3, c=5, d=13.
    let mut environment = Environment::create(None);
    assert_eq!(
        run_with_env("let a;", &mut environment),
        Ok(RuntimeValue::NullValue)
    );
    assert_eq!(
        environment.lookup(&"a".to_string()),
        Some(RuntimeValue::NullValue)
    );
    assert_eq!(
        run_with_env("a = 3; let c = 5; let d = a + c * 2;", &mut environment),
        Ok(RuntimeValue::NumberValue(13))
    );
    assert_eq!(environment.lookup(&"a".to_string()), Some(RuntimeValue::NumberValue(3)));
    assert_eq!(environment.lookup(&"c".to_string()), Some(RuntimeValue::NumberValue(5)));
    assert_eq!(environment.lookup(&"d".to_string()), Some(RuntimeValue::NumberValue(13)));
}

#[test]
fn addition_overflow_fails() {
    assert_eq!(run("2000000000 + 2000000000"), Err(EvalError::IntegerOverflow));
}

#[test]
fn multiplication_overflow_fails() {
    assert_eq!(run("100000 * 100000"), Err(EvalError::IntegerOverflow));
}

#[test]
fn null_operand_is_unsupported() {
    assert_eq!(run("null + 1"), Err(EvalError::UnsupportedOperandTypes));
}

#[test]
fn assignment_target_must_be_identifier() {
    assert_eq!(run("1 = 2;"), Err(EvalError::InvalidAssignmentTarget));
}

#[test]
fn division_truncates_toward_zero() {
    assert_eq!(run("7 / 2"), Ok(RuntimeValue::NumberValue(3)));
    assert_eq!(run("(0 - 7) / 2"), Ok(RuntimeValue::NumberValue(-3)));
}

#[test]
fn remainder_follows_truncating_division() {
    assert_eq!(run("7 % 2"), Ok(RuntimeValue::NumberValue(1)));
    assert_eq!(run("(0 - 7) % 2"), Ok(RuntimeValue::NumberValue(-1)));
}

#[test]
fn empty_program_evaluates_to_null() {
    assert_eq!(run(""), Ok(RuntimeValue::NullValue));
}

#[test]
fn program_value_is_last_statement() {
    assert_eq!(run("1; 2; 3"), Ok(RuntimeValue::NumberValue(3)));
}

#[test]
fn null_literal_evaluates_to_null() {
    assert_eq!(run("null"), Ok(RuntimeValue::NullValue));
}

#[test]
fn declaration_without_initializer_is_null() {
    assert_eq!(run("let a;"), Ok(RuntimeValue::NullValue));
}

#[test]
fn failing_statement_keeps_earlier_bindings() {
    let mut environment = Environment::create(None);
    let r = run_with_env("let a = 1; let b = 0; a / b", &mut environment);
    assert_eq!(r, Err(EvalError::DivisionByZero));
    assert_eq!(environment.lookup(&"a".to_string()), Some(RuntimeValue::NumberValue(1)));
    assert_eq!(environment.lookup(&"b".to_string()), Some(RuntimeValue::NumberValue(0)));
}
