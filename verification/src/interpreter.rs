//! The evaluator: a tree walk over the abstract syntax tree, consulting
//! and mutating an environment, producing a runtime value.
//!
//! The spec functions [`eval_expr`], [`eval_stmt`] and [`eval_program`]
//! are the mathematical semantics of the language; the executable
//! methods on [`Environment`] are proved to agree with them. Expressions
//! are evaluated strictly left to right; a program's value is that of
//! its last statement, `Null` when it has none; evaluation stops at the
//! first failing statement, keeping the bindings made before it.

use crate::ast::{
    expr_ops_grammatical, stmt_ops_grammatical, stmts_view, Expression, ExpressionModel, Program,
    Statement, StatementModel,
};
use crate::environment::{
    env_assign, env_declarable, env_declare_const, env_declare_var, env_has_var, env_lookup,
    EnvError, EnvErrorModel, Environment, FrameModel,
};
use crate::values::RuntimeValue;
use vstd::prelude::*;

verus! {

/// A failure of evaluation, carried up to the caller instead of
/// aborting: an arithmetic fault, an ill-typed or ill-formed operation,
/// or an environment error.
#[derive(Debug, PartialEq, Eq)]
pub enum EvalError {
    DivisionByZero,
    UnsupportedOperandTypes,
    UnsupportedOperator,
    IntegerOverflow,
    InvalidAssignmentTarget,
    Env(EnvError),
}

/// The mathematical form of an evaluation error.
pub enum EvalErrorModel {
    DivisionByZero,
    UnsupportedOperandTypes,
    UnsupportedOperator,
    IntegerOverflow,
    InvalidAssignmentTarget,
    Env(EnvErrorModel),
}

impl View for EvalError {
    type V = EvalErrorModel;

    open spec fn view(&self) -> EvalErrorModel {
        match self {
            EvalError::DivisionByZero => EvalErrorModel::DivisionByZero,
            EvalError::UnsupportedOperandTypes => EvalErrorModel::UnsupportedOperandTypes,
            EvalError::UnsupportedOperator => EvalErrorModel::UnsupportedOperator,
            EvalError::IntegerOverflow => EvalErrorModel::IntegerOverflow,
            EvalError::InvalidAssignmentTarget => EvalErrorModel::InvalidAssignmentTarget,
            EvalError::Env(e) => EvalErrorModel::Env(e@),
        }
    }
}

// ---------------------------------------------------------------------------
// The semantics
// ---------------------------------------------------------------------------

/// Integer arithmetic with Rust's truncating division and remainder:
/// division and remainder by zero fail, as does any result outside the
/// 32-bit range.
pub open spec fn apply_numeric_op(op: char, a: i32, b: i32) -> Result<i32, EvalErrorModel> {
    if op == '+' {
        match a.checked_add(b) {
            Some(v) => Ok(v),
            None => Err(EvalErrorModel::IntegerOverflow),
        }
    } else if op == '-' {
        match a.checked_sub(b) {
            Some(v) => Ok(v),
            None => Err(EvalErrorModel::IntegerOverflow),
        }
    } else if op == '*' {
        match a.checked_mul(b) {
            Some(v) => Ok(v),
            None => Err(EvalErrorModel::IntegerOverflow),
        }
    } else if op == '/' {
        if b == 0 {
            Err(EvalErrorModel::DivisionByZero)
        } else {
            match a.checked_div(b) {
                Some(v) => Ok(v),
                None => Err(EvalErrorModel::IntegerOverflow),
            }
        }
    } else if op == '%' {
        if b == 0 {
            Err(EvalErrorModel::DivisionByZero)
        } else {
            match a.checked_rem(b) {
                Some(v) => Ok(v),
                None => Err(EvalErrorModel::IntegerOverflow),
            }
        }
    } else {
        Err(EvalErrorModel::UnsupportedOperator)
    }
}

/// A binary operation applies only to two numbers; any other operand
/// pairing fails rather than coerce.
pub open spec fn apply_binary_values(op: char, lv: RuntimeValue, rv: RuntimeValue) -> Result<
    RuntimeValue,
    EvalErrorModel,
> {
    match (lv, rv) {
        (RuntimeValue::NumberValue(a), RuntimeValue::NumberValue(b)) => {
            match apply_numeric_op(op, a, b) {
                Ok(v) => Ok(RuntimeValue::NumberValue(v)),
                Err(e) => Err(e),
            }
        },
        _ => Err(EvalErrorModel::UnsupportedOperandTypes),
    }
}

/// The value of an expression under an environment: literals denote
/// themselves, identifiers look up the scope chain, binary expressions
/// evaluate the left subtree fully, then the right, then the operator.
pub open spec fn eval_expr(env: Seq<FrameModel>, e: ExpressionModel) -> Result<
    RuntimeValue,
    EvalErrorModel,
>
    decreases e,
{
    match e {
        ExpressionModel::NumericLiteral(n) => Ok(RuntimeValue::NumberValue(n as i32)),
        ExpressionModel::Identifier(name) => match env_lookup(env, name) {
            Some(v) => Ok(v),
            None => Err(EvalErrorModel::Env(EnvErrorModel::NotFound(name))),
        },
        ExpressionModel::NullLiteral => Ok(RuntimeValue::NullValue),
        ExpressionModel::BinaryExpression { left, right, operator } => {
            match eval_expr(env, *left) {
                Ok(lv) => match eval_expr(env, *right) {
                    Ok(rv) => apply_binary_values(operator, lv, rv),
                    Err(er) => Err(er),
                },
                Err(er) => Err(er),
            }
        },
    }
}

pub open spec fn opt_expr_view(v: Option<Expression>) -> Option<ExpressionModel> {
    match v {
        Some(e) => Some(e@),
        None => None,
    }
}

/// The effect of one statement: its value and the environment it leaves
/// behind. A declaration evaluates its initializer (`Null` when a
/// variable declaration has none) and binds it in the innermost scope;
/// an assignment requires an identifier target, evaluates its value and
/// overwrites the innermost variable binding; a failing statement
/// leaves the environment as it was.
pub open spec fn eval_stmt(env: Seq<FrameModel>, s: StatementModel) -> (Result<
    RuntimeValue,
    EvalErrorModel,
>, Seq<FrameModel>) {
    match s {
        StatementModel::VarDeclaration { identifier, value } => {
            let ev = match value {
                Some(e) => eval_expr(env, e),
                None => Ok(RuntimeValue::NullValue),
            };
            match ev {
                Ok(v) => {
                    if env_declarable(env, identifier) {
                        (Ok(v), env_declare_var(env, identifier, v))
                    } else {
                        (
                            Err(EvalErrorModel::Env(EnvErrorModel::Redeclaration(identifier))),
                            env,
                        )
                    }
                },
                Err(er) => (Err(er), env),
            }
        },
        StatementModel::ConstDeclaration { identifier, value } => {
            match eval_expr(env, value) {
                Ok(v) => {
                    if env_declarable(env, identifier) {
                        (Ok(v), env_declare_const(env, identifier, v))
                    } else {
                        (
                            Err(EvalErrorModel::Env(EnvErrorModel::Redeclaration(identifier))),
                            env,
                        )
                    }
                },
                Err(er) => (Err(er), env),
            }
        },
        StatementModel::VarAssignment { assigne, value } => {
            match assigne {
                ExpressionModel::Identifier(name) => {
                    match eval_expr(env, value) {
                        Ok(v) => {
                            if env_has_var(env, name) {
                                (Ok(v), env_assign(env, name, v))
                            } else {
                                (Err(EvalErrorModel::Env(EnvErrorModel::NotFound(name))), env)
                            }
                        },
                        Err(er) => (Err(er), env),
                    }
                },
                _ => (Err(EvalErrorModel::InvalidAssignmentTarget), env),
            }
        },
        StatementModel::Expression(e) => (eval_expr(env, e), env),
    }
}

/// The effect of a whole program: statements in order, the value of the
/// last one (`Null` for an empty program), stopping at the first
/// failure with the environment as that statement left it.
pub open spec fn eval_program(env: Seq<FrameModel>, stmts: Seq<StatementModel>) -> (Result<
    RuntimeValue,
    EvalErrorModel,
>, Seq<FrameModel>)
    decreases stmts.len(),
{
    if stmts.len() == 0 {
        (Ok(RuntimeValue::NullValue), env)
    } else {
        let step = eval_stmt(env, stmts[0]);
        match step.0 {
            Ok(v) => {
                if stmts.len() == 1 {
                    (Ok(v), step.1)
                } else {
                    eval_program(step.1, stmts.drop_first())
                }
            },
            Err(er) => (Err(er), step.1),
        }
    }
}

// ---------------------------------------------------------------------------
// Operators of the grammar are always dispatched
// ---------------------------------------------------------------------------

/// A grammatical expression never fails with an unsupported operator:
/// the five operator characters of the grammar are exactly the ones the
/// arithmetic dispatch covers.
pub proof fn lemma_grammatical_expr_dispatches(env: Seq<FrameModel>, e: ExpressionModel)
    requires
        expr_ops_grammatical(e),
    ensures
        eval_expr(env, e) != Err::<RuntimeValue, _>(EvalErrorModel::UnsupportedOperator),
    decreases e,
{
    match e {
        ExpressionModel::BinaryExpression { left, right, operator } => {
            lemma_grammatical_expr_dispatches(env, *left);
            lemma_grammatical_expr_dispatches(env, *right);
        },
        _ => {},
    }
}

/// A grammatical statement never fails with an unsupported operator.
pub proof fn lemma_grammatical_stmt_dispatches(env: Seq<FrameModel>, s: StatementModel)
    requires
        stmt_ops_grammatical(s),
    ensures
        eval_stmt(env, s).0 != Err::<RuntimeValue, _>(EvalErrorModel::UnsupportedOperator),
{
    match s {
        StatementModel::VarDeclaration { identifier, value } => {
            match value {
                Some(e) => lemma_grammatical_expr_dispatches(env, e),
                None => {},
            }
        },
        StatementModel::ConstDeclaration { identifier, value } => {
            lemma_grammatical_expr_dispatches(env, value);
        },
        StatementModel::VarAssignment { assigne, value } => {
            lemma_grammatical_expr_dispatches(env, value);
        },
        StatementModel::Expression(e) => {
            lemma_grammatical_expr_dispatches(env, e);
        },
    }
}

/// The unsupported-operator failure is unreachable through the parser:
/// a program whose statements carry only the grammar's operators — as
/// every program from `produce_ast` does — never reports it, whatever
/// the environment holds.
pub proof fn lemma_grammatical_program_dispatches(env: Seq<FrameModel>, ss: Seq<StatementModel>)
    requires
        forall|k: int| 0 <= k < ss.len() ==> stmt_ops_grammatical(#[trigger] ss[k]),
    ensures
        eval_program(env, ss).0 != Err::<RuntimeValue, _>(EvalErrorModel::UnsupportedOperator),
    decreases ss.len(),
{
    if ss.len() > 0 {
        lemma_grammatical_stmt_dispatches(env, ss[0]);
        let step = eval_stmt(env, ss[0]);
        match step.0 {
            Ok(v) => {
                if ss.len() > 1 {
                    let rest = ss.drop_first();
                    assert forall|k: int|
                        0 <= k < rest.len() implies stmt_ops_grammatical(#[trigger] rest[k]) by {
                        assert(rest[k] == ss[k + 1]);
                    }
                    lemma_grammatical_program_dispatches(step.1, rest);
                }
            },
            Err(_) => {},
        }
    }
}

// ---------------------------------------------------------------------------
// The executable evaluator
// ---------------------------------------------------------------------------

impl Environment {
    /// Apply one arithmetic operator to two numbers, with Rust's
    /// truncating division and remainder.
    pub fn evaluate_numeric_binary_operation(left: i32, right: i32, operator: char) -> (r: Result<
        i32,
        EvalError,
    >)
        ensures
            match (r, apply_numeric_op(operator, left, right)) {
                (Ok(v), Ok(mv)) => v == mv,
                (Err(e), Err(em)) => e@ == em,
                _ => false,
            },
    {
        if operator == '+' {
            match left.checked_add(right) {
                Some(v) => Ok(v),
                None => Err(EvalError::IntegerOverflow),
            }
        } else if operator == '-' {
            match left.checked_sub(right) {
                Some(v) => Ok(v),
                None => Err(EvalError::IntegerOverflow),
            }
        } else if operator == '*' {
            match left.checked_mul(right) {
                Some(v) => Ok(v),
                None => Err(EvalError::IntegerOverflow),
            }
        } else if operator == '/' {
            if right == 0 {
                Err(EvalError::DivisionByZero)
            } else {
                match left.checked_div(right) {
                    Some(v) => Ok(v),
                    None => Err(EvalError::IntegerOverflow),
                }
            }
        } else if operator == '%' {
            if right == 0 {
                Err(EvalError::DivisionByZero)
            } else {
                match left.checked_rem(right) {
                    Some(v) => Ok(v),
                    None => Err(EvalError::IntegerOverflow),
                }
            }
        } else {
            Err(EvalError::UnsupportedOperator)
        }
    }

    /// The value bound to `identifier`, from the innermost scope that
    /// binds it; `NotFound` when no scope does.
    pub fn evaluate_identifier(&self, identifier: String) -> (r: Result<RuntimeValue, EvalError>)
        requires
            self.wf(),
        ensures
            match (r, eval_expr(self@, ExpressionModel::Identifier(identifier@))) {
                (Ok(v), Ok(mv)) => v == mv,
                (Err(e), Err(em)) => e@ == em,
                _ => false,
            },
    {
        match self.lookup(&identifier) {
            Some(v) => Ok(v),
            None => Err(EvalError::Env(EnvError::NotFound(identifier))),
        }
    }

    /// The value of an expression under this environment.
    pub fn evaluate_expression(&self, expression: Expression) -> (r: Result<
        RuntimeValue,
        EvalError,
    >)
        requires
            self.wf(),
        ensures
            match (r, eval_expr(self@, expression@)) {
                (Ok(v), Ok(mv)) => v == mv,
                (Err(e), Err(em)) => e@ == em,
                _ => false,
            },
        decreases expression,
    {
        match expression {
            Expression::NumericLiteral(number) => Ok(RuntimeValue::NumberValue(number)),
            Expression::NullLiteral => Ok(RuntimeValue::NullValue),
            Expression::Identifier(identifier) => self.evaluate_identifier(identifier),
            Expression::BinaryExpression { left, right, operator } => {
                let lv = match self.evaluate_expression(*left) {
                    Ok(v) => v,
                    Err(e) => {
                        return Err(e);
                    },
                };
                let rv = match self.evaluate_expression(*right) {
                    Ok(v) => v,
                    Err(e) => {
                        return Err(e);
                    },
                };
                match (lv, rv) {
                    (RuntimeValue::NumberValue(a), RuntimeValue::NumberValue(b)) => {
                        match Self::evaluate_numeric_binary_operation(a, b, operator) {
                            Ok(v) => Ok(RuntimeValue::NumberValue(v)),
                            Err(e) => Err(e),
                        }
                    },
                    _ => Err(EvalError::UnsupportedOperandTypes),
                }
            },
        }
    }

    /// Declare a variable in the innermost scope: the initializer's
    /// value if one is given, `Null` otherwise; the result is the
    /// declared value.
    pub fn evaluate_variable_declaration(
        &mut self,
        identifier: String,
        value: Option<Expression>,
    ) -> (r: Result<RuntimeValue, EvalError>)
        requires
            old(self).wf(),
        ensures
            final(self).wf(),
            ({
                let step = eval_stmt(
                    old(self)@,
                    StatementModel::VarDeclaration {
                        identifier: identifier@,
                        value: opt_expr_view(value),
                    },
                );
                &&& final(self)@ == step.1
                &&& match (r, step.0) {
                    (Ok(v), Ok(mv)) => v == mv,
                    (Err(e), Err(em)) => e@ == em,
                    _ => false,
                }
            }),
    {
        let v = match value {
            Some(e) => match self.evaluate_expression(e) {
                Ok(v) => v,
                Err(er) => {
                    return Err(er);
                },
            },
            None => RuntimeValue::NullValue,
        };
        match self.declare_variable(identifier.as_str(), v) {
            Ok(_) => Ok(v),
            Err(er) => Err(EvalError::Env(er)),
        }
    }

    /// Declare a constant in the innermost scope; the result is the
    /// declared value.
    pub fn evaluate_constant_declaration(&mut self, identifier: String, value: Expression) -> (r:
        Result<RuntimeValue, EvalError>)
        requires
            old(self).wf(),
        ensures
            final(self).wf(),
            ({
                let step = eval_stmt(
                    old(self)@,
                    StatementModel::ConstDeclaration { identifier: identifier@, value: value@ },
                );
                &&& final(self)@ == step.1
                &&& match (r, step.0) {
                    (Ok(v), Ok(mv)) => v == mv,
                    (Err(e), Err(em)) => e@ == em,
                    _ => false,
                }
            }),
    {
        let v = match self.evaluate_expression(value) {
            Ok(v) => v,
            Err(er) => {
                return Err(er);
            },
        };
        match self.declare_constant(identifier.as_str(), v) {
            Ok(_) => Ok(v),
            Err(er) => Err(EvalError::Env(er)),
        }
    }

    /// Assign to a variable: the target must be an identifier, the value
    /// is evaluated, and the innermost variable binding of that name is
    /// overwritten; the result is the assigned value.
    pub fn evaluate_variable_assignment(&mut self, assigne: Expression, value: Expression) -> (r:
        Result<RuntimeValue, EvalError>)
        requires
            old(self).wf(),
        ensures
            final(self).wf(),
            ({
                let step = eval_stmt(
                    old(self)@,
                    StatementModel::VarAssignment { assigne: assigne@, value: value@ },
                );
                &&& final(self)@ == step.1
                &&& match (r, step.0) {
                    (Ok(v), Ok(mv)) => v == mv,
                    (Err(e), Err(em)) => e@ == em,
                    _ => false,
                }
            }),
    {
        match assigne {
            Expression::Identifier(name) => {
                let v = match self.evaluate_expression(value) {
                    Ok(v) => v,
                    Err(er) => {
                        return Err(er);
                    },
                };
                match self.assign_variable(&name, v) {
                    Ok(_) => Ok(v),
                    Err(er) => Err(EvalError::Env(er)),
                }
            },
            _ => Err(EvalError::InvalidAssignmentTarget),
        }
    }

    /// Evaluate one statement, mutating this environment.
    pub fn evaluate(&mut self, ast_node: Statement) -> (r: Result<RuntimeValue, EvalError>)
        requires
            old(self).wf(),
        ensures
            final(self).wf(),
            ({
                let step = eval_stmt(old(self)@, ast_node@);
                &&& final(self)@ == step.1
                &&& match (r, step.0) {
                    (Ok(v), Ok(mv)) => v == mv,
                    (Err(e), Err(em)) => e@ == em,
                    _ => false,
                }
            }),
    {
        match ast_node {
            Statement::Expression(expression) => self.evaluate_expression(expression),
            Statement::VarDeclaration { identifier, value } => {
                self.evaluate_variable_declaration(identifier, value)
            },
            Statement::ConstDeclaration { identifier, value } => {
                self.evaluate_constant_declaration(identifier, value)
            },
            Statement::VarAssignment { assigne, value } => {
                self.evaluate_variable_assignment(assigne, value)
            },
        }
    }

    /// Evaluate a whole program: statements in order, the value of the
    /// last one (`Null` when the program is empty), stopping at the
    /// first failure and keeping the bindings made before it.
    #[verifier::loop_isolation(false)]
    pub fn evaluate_program(&mut self, program: Program) -> (r: Result<RuntimeValue, EvalError>)
        requires
            old(self).wf(),
        ensures
            final(self).wf(),
            ({
                let outcome = eval_program(old(self)@, program@);
                &&& final(self)@ == outcome.1
                &&& match (r, outcome.0) {
                    (Ok(v), Ok(mv)) => v == mv,
                    (Err(e), Err(em)) => e@ == em,
                    _ => false,
                }
            }),
    {
        let ghost all = program@;
        let Program { body: mut body } = program;
        let mut last = RuntimeValue::NullValue;
        while body.len() > 0
            invariant
                self.wf(),
                ({
                    let rem = stmts_view(body@);
                    if rem.len() == 0 {
                        eval_program(old(self)@, all) == (
                            Ok::<RuntimeValue, EvalErrorModel>(last),
                            self@,
                        )
                    } else {
                        eval_program(old(self)@, all) == eval_program(self@, rem)
                    }
                }),
            decreases body@.len(),
        {
            let ghost pre_env = self@;
            let ghost pre_rem = stmts_view(body@);
            let s = body.remove(0);
            proof {
                assert(pre_rem[0] == s@);
                assert(stmts_view(body@) =~= pre_rem.drop_first());
            }
            match self.evaluate(s) {
                Ok(v) => {
                    last = v;
                },
                Err(e) => {
                    proof {
                        let step = eval_stmt(pre_env, s@);
                        assert(eval_program(pre_env, pre_rem).0 == step.0);
                        assert(eval_program(pre_env, pre_rem).1 == step.1);
                        assert(eval_program(old(self)@, all) == eval_program(pre_env, pre_rem));
                        assert(self@ == step.1);
                    }
                    return Err(e);
                },
            }
        }
        Ok(last)
    }
}

// ---------------------------------------------------------------------------
// The evaluator as free entry points
// ---------------------------------------------------------------------------

/// Evaluate a whole program against `environment`.
pub fn evaluate_program(program: Program, environment: &mut Environment) -> (r: Result<
    RuntimeValue,
    EvalError,
>)
    requires
        old(environment).wf(),
    ensures
        final(environment).wf(),
        ({
            let outcome = eval_program(old(environment)@, program@);
            &&& final(environment)@ == outcome.1
            &&& match (r, outcome.0) {
                (Ok(v), Ok(mv)) => v == mv,
                (Err(e), Err(em)) => e@ == em,
                _ => false,
            }
        }),
{
    environment.evaluate_program(program)
}

/// Evaluate one statement against `environment`.
pub fn evaluate(ast_node: Statement, environment: &mut Environment) -> (r: Result<
    RuntimeValue,
    EvalError,
>)
    requires
        old(environment).wf(),
    ensures
        final(environment).wf(),
        ({
            let step = eval_stmt(old(environment)@, ast_node@);
            &&& final(environment)@ == step.1
            &&& match (r, step.0) {
                (Ok(v), Ok(mv)) => v == mv,
                (Err(e), Err(em)) => e@ == em,
                _ => false,
            }
        }),
{
    environment.evaluate(ast_node)
}

/// Evaluate an expression against `environment`, which it never alters.
pub fn evaluate_expression(expression: Expression, environment: &Environment) -> (r: Result<
    RuntimeValue,
    EvalError,
>)
    requires
        environment.wf(),
    ensures
        match (r, eval_expr(environment@, expression@)) {
            (Ok(v), Ok(mv)) => v == mv,
            (Err(e), Err(em)) => e@ == em,
            _ => false,
        },
{
    environment.evaluate_expression(expression)
}

/// Declare a variable in `environment`'s innermost scope.
pub fn evaluate_variable_declaration(
    identifier: String,
    value: Option<Expression>,
    environment: &mut Environment,
) -> (r: Result<RuntimeValue, EvalError>)
    requires
        old(environment).wf(),
    ensures
        final(environment).wf(),
        ({
            let step = eval_stmt(
                old(environment)@,
                StatementModel::VarDeclaration {
                    identifier: identifier@,
                    value: opt_expr_view(value),
                },
            );
            &&& final(environment)@ == step.1
            &&& match (r, step.0) {
                (Ok(v), Ok(mv)) => v == mv,
                (Err(e), Err(em)) => e@ == em,
                _ => false,
            }
        }),
{
    environment.evaluate_variable_declaration(identifier, value)
}

/// Declare a constant in `environment`'s innermost scope.
pub fn evaluate_constant_declaration(
    identifier: String,
    value: Expression,
    environment: &mut Environment,
) -> (r: Result<RuntimeValue, EvalError>)
    requires
        old(environment).wf(),
    ensures
        final(environment).wf(),
        ({
            let step = eval_stmt(
                old(environment)@,
                StatementModel::ConstDeclaration { identifier: identifier@, value: value@ },
            );
            &&& final(environment)@ == step.1
            &&& match (r, step.0) {
                (Ok(v), Ok(mv)) => v == mv,
                (Err(e), Err(em)) => e@ == em,
                _ => false,
            }
        }),
{
    environment.evaluate_constant_declaration(identifier, value)
}

/// Assign to a variable of `environment`; the target expression must be
/// an identifier.
pub fn evaluate_assignment(
    assigne: Expression,
    value: Expression,
    environment: &mut Environment,
) -> (r: Result<RuntimeValue, EvalError>)
    requires
        old(environment).wf(),
    ensures
        final(environment).wf(),
        ({
            let step = eval_stmt(
                old(environment)@,
                StatementModel::VarAssignment { assigne: assigne@, value: value@ },
            );
            &&& final(environment)@ == step.1
            &&& match (r, step.0) {
                (Ok(v), Ok(mv)) => v == mv,
                (Err(e), Err(em)) => e@ == em,
                _ => false,
            }
        }),
{
    environment.evaluate_variable_assignment(assigne, value)
}

} // verus!
