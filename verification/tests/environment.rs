use minilang::ast::{Expression, Statement};
use minilang::environment::{EnvError, Environment};
use minilang::values::RuntimeValue;

#[test]
fn declare_then_lookup() {
    let mut env = Environment::create(None);
    assert!(env.declare_variable("x", RuntimeValue::NumberValue(1)).is_ok());
    assert_eq!(env.lookup(&"x".to_string()), Some(RuntimeValue::NumberValue(1)));
    assert_eq!(env.resolve(&"x".to_string()), Some(0));
}

#[test]
fn lookup_of_unbound_name_is_none() {
    let env = Environment::create(None);
    assert_eq!(env.lookup(&"x".to_string()), None);
    assert_eq!(env.resolve(&"x".to_string()), None);
}

#[test]
fn redeclaring_a_variable_fails() {
    let mut env = Environment::create(None);
    env.declare_variable("x", RuntimeValue::NumberValue(1)).unwrap();
    assert_eq!(
        env.declare_variable("x", RuntimeValue::NumberValue(2)),
        Err(EnvError::Redeclaration("x".to_string()))
    );
    assert_eq!(env.lookup(&"x".to_string()), Some(RuntimeValue::NumberValue(1)));
}

#[test]
fn variable_and_constant_share_one_namespace() {
    let mut env = Environment::create(None);
    env.declare_constant("x", RuntimeValue::NumberValue(1)).unwrap();
    assert_eq!(
        env.declare_variable("x", RuntimeValue::NumberValue(2)),
        Err(EnvError::Redeclaration("x".to_string()))
    );
}

#[test]
fn assignment_overwrites_a_variable() {
    let mut env = Environment::create(None);
    env.declare_variable("x", RuntimeValue::NumberValue(1)).unwrap();
    assert!(env.assign_variable(&"x".to_string(), RuntimeValue::NumberValue(2)).is_ok());
    assert_eq!(env.lookup(&"x".to_string()), Some(RuntimeValue::NumberValue(2)));
}

#[test]
fn assignment_to_a_constant_fails() {
    let mut env = Environment::create(None);
    env.declare_constant("x", RuntimeValue::NumberValue(1)).unwrap();
    assert_eq!(
        env.assign_variable(&"x".to_string(), RuntimeValue::NumberValue(2)),
        Err(EnvError::NotFound("x".to_string()))
    );
    assert_eq!(env.lookup(&"x".to_string()), Some(RuntimeValue::NumberValue(1)));
}

#[test]
fn assignment_to_an_unbound_name_fails() {
    let mut env = Environment::create(None);
    assert_eq!(
        env.assign_variable(&"x".to_string(), RuntimeValue::NumberValue(2)),
        Err(EnvError::NotFound("x".to_string()))
    );
}

#[test]
fn nested_scope_shadows_outer_binding() {
    let mut outer = Environment::create(None);
    outer.declare_variable("a", RuntimeValue::NumberValue(1)).unwrap();
    let mut child = Environment::create(Some(Box::new(outer)));
    // Declaring `a` again succeeds in the nested scope, and shadows.
    assert!(child.declare_variable("a", RuntimeValue::NumberValue(2)).is_ok());
    assert_eq!(child.lookup(&"a".to_string()), Some(RuntimeValue::NumberValue(2)));
    assert_eq!(child.resolve(&"a".to_string()), Some(1));
}

#[test]
fn nested_scope_reads_outer_bindings() {
    let mut outer = Environment::create(None);
    outer.declare_variable("a", RuntimeValue::NumberValue(1)).unwrap();
    outer.declare_constant("b", RuntimeValue::Bool(true)).unwrap();
    let child = Environment::create(Some(Box::new(outer)));
    assert_eq!(child.lookup(&"a".to_string()), Some(RuntimeValue::NumberValue(1)));
    assert_eq!(child.lookup(&"b".to_string()), Some(RuntimeValue::Bool(true)));
    assert_eq!(child.resolve(&"a".to_string()), Some(0));
}

#[test]
fn assignment_walks_to_the_outer_scope() {
    let mut outer = Environment::create(None);
    outer.declare_variable("a", RuntimeValue::NumberValue(1)).unwrap();
    let mut child = Environment::create(Some(Box::new(outer)));
    assert!(child.assign_variable(&"a".to_string(), RuntimeValue::NumberValue(5)).is_ok());
    assert_eq!(child.lookup(&"a".to_string()), Some(RuntimeValue::NumberValue(5)));
}

#[test]
fn evaluate_one_statement() {
    let mut env = Environment::create(None);
    let declaration = Statement::VarDeclaration {
        identifier: "x".to_string(),
        value: Some(Expression::NumericLiteral(4)),
    };
    assert_eq!(env.evaluate(declaration), Ok(RuntimeValue::NumberValue(4)));
    let assignment = Statement::VarAssignment {
        assigne: Expression::Identifier("x".to_string()),
        value: Expression::BinaryExpression {
            left: Box::new(Expression::Identifier("x".to_string())),
            right: Box::new(Expression::NumericLiteral(2)),
            operator: '*',
        },
    };
    assert_eq!(env.evaluate(assignment), Ok(RuntimeValue::NumberValue(8)));
    assert_eq!(env.lookup(&"x".to_string()), Some(RuntimeValue::NumberValue(8)));
}

#[test]
fn evaluate_expression_is_pure() {
    let mut env = Environment::create(None);
    env.declare_variable("x", RuntimeValue::NumberValue(3)).unwrap();
    let e = Expression::BinaryExpression {
        left: Box::new(Expression::Identifier("x".to_string())),
        right: Box::new(Expression::NumericLiteral(1)),
        operator: '-',
    };
    assert_eq!(env.evaluate_expression(e), Ok(RuntimeValue::NumberValue(2)));
    assert_eq!(env.lookup(&"x".to_string()), Some(RuntimeValue::NumberValue(3)));
}

#[test]
fn evaluate_identifier_reads_the_environment() {
    let mut env = Environment::create(None);
    env.declare_variable("x", RuntimeValue::NumberValue(7)).unwrap();
    assert_eq!(
        env.evaluate_identifier("x".to_string()),
        Ok(RuntimeValue::NumberValue(7))
    );
    assert!(env.evaluate_identifier("y".to_string()).is_err());
}
