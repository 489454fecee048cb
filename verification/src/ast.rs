//! The abstract syntax tree: a passive data model consumed by the parser
//! and the evaluator, together with its mathematical mirror.

use vstd::prelude::*;

verus! {

/// An expression: a strict tree of exclusively owned subtrees. Operators
/// are kept as their source character, since every operator of the
/// grammar is a single character.
#[derive(Debug, PartialEq, Eq)]
pub enum Expression {
    NumericLiteral(i32),
    Identifier(String),
    NullLiteral,
    BinaryExpression { left: Box<Expression>, right: Box<Expression>, operator: char },
}

/// One statement of a program. A constant declaration always carries an
/// initializer; a variable declaration may omit one.
#[derive(Debug, PartialEq, Eq)]
#[allow(inconsistent_fields)]
pub enum Statement {
    VarDeclaration { identifier: String, value: Option<Expression> },
    ConstDeclaration { identifier: String, value: Expression },
    VarAssignment { assigne: Expression, value: Expression },
    Expression(Expression),
}

/// The AST root: an ordered statement list.
#[derive(Debug, PartialEq, Eq)]
pub struct Program {
    pub body: Vec<Statement>,
}

/// The mathematical form of an expression: text as character sequences,
/// numbers as unbounded integers.
pub enum ExpressionModel {
    NumericLiteral(int),
    Identifier(Seq<char>),
    NullLiteral,
    BinaryExpression { left: Box<ExpressionModel>, right: Box<ExpressionModel>, operator: char },
}

/// The mathematical form of a statement.
#[allow(inconsistent_fields)]
pub enum StatementModel {
    VarDeclaration { identifier: Seq<char>, value: Option<ExpressionModel> },
    ConstDeclaration { identifier: Seq<char>, value: ExpressionModel },
    VarAssignment { assigne: ExpressionModel, value: ExpressionModel },
    Expression(ExpressionModel),
}

impl View for Expression {
    type V = ExpressionModel;

    open spec fn view(&self) -> ExpressionModel
        decreases self,
    {
        match self {
            Expression::NumericLiteral(n) => ExpressionModel::NumericLiteral(*n as int),
            Expression::Identifier(s) => ExpressionModel::Identifier(s@),
            Expression::NullLiteral => ExpressionModel::NullLiteral,
            Expression::BinaryExpression { left, right, operator } => {
                ExpressionModel::BinaryExpression {
                    left: Box::new((**left)@),
                    right: Box::new((**right)@),
                    operator: *operator,
                }
            },
        }
    }
}

impl View for Statement {
    type V = StatementModel;

    open spec fn view(&self) -> StatementModel {
        match self {
            Statement::VarDeclaration { identifier, value } => StatementModel::VarDeclaration {
                identifier: identifier@,
                value: match value {
                    Some(e) => Some(e@),
                    None => None,
                },
            },
            Statement::ConstDeclaration { identifier, value } => StatementModel::ConstDeclaration {
                identifier: identifier@,
                value: value@,
            },
            Statement::VarAssignment { assigne, value } => StatementModel::VarAssignment {
                assigne: assigne@,
                value: value@,
            },
            Statement::Expression(e) => StatementModel::Expression(e@),
        }
    }
}

/// The statement models of a statement sequence.
pub open spec fn stmts_view(ss: Seq<Statement>) -> Seq<StatementModel> {
    ss.map_values(|s: Statement| s@)
}

/// Every operator in the expression is one of the grammar's five.
pub open spec fn expr_ops_grammatical(e: ExpressionModel) -> bool
    decreases e,
{
    match e {
        ExpressionModel::BinaryExpression { left, right, operator } => {
            &&& crate::lexer::is_additive_char(operator) || crate::lexer::is_multiplicative_char(
                operator,
            )
            &&& expr_ops_grammatical(*left)
            &&& expr_ops_grammatical(*right)
        },
        _ => true,
    }
}

/// Every operator in the statement is one of the grammar's five.
pub open spec fn stmt_ops_grammatical(s: StatementModel) -> bool {
    match s {
        StatementModel::VarDeclaration { identifier, value } => match value {
            Some(e) => expr_ops_grammatical(e),
            None => true,
        },
        StatementModel::ConstDeclaration { identifier, value } => expr_ops_grammatical(value),
        StatementModel::VarAssignment { assigne, value } => expr_ops_grammatical(assigne)
            && expr_ops_grammatical(value),
        StatementModel::Expression(e) => expr_ops_grammatical(e),
    }
}

impl View for Program {
    type V = Seq<StatementModel>;

    open spec fn view(&self) -> Seq<StatementModel> {
        stmts_view(self.body@)
    }
}

impl Program {
    /// An empty program, to be appended to as statements are parsed.
    pub fn new() -> (r: Self)
        ensures
            r@ =~= Seq::<StatementModel>::empty(),
    {
        let r = Self { body: Vec::new() };
        proof {
            assert(r@ =~= Seq::<StatementModel>::empty());
        }
        r
    }
}

} // verus!
