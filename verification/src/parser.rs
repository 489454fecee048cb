//! The parser: tokens to an abstract syntax tree by recursive descent,
//! with precedence climbing for binary operators.
//!
//! The grammar, highest precedence first and left-associative:
//!
//! ```text
//! program        := statement* EndOfInput
//! statement      := let_decl | const_decl | assignment_or_expr
//! let_decl       := "let" Identifier (";" | "=" expression ";")
//! const_decl     := "const" Identifier "=" expression ";"
//! assignment_or_expr := expression ("=" expression ";")? (";")?
//! expression     := additive
//! additive       := multiplicative (("+"|"-") multiplicative)*
//! multiplicative := primary (("*"|"/"|"%") primary)*
//! primary        := Number | Identifier | Null | "(" expression ")"
//! ```
//!
//! The spec functions `sp_*` are the mathematical model of this grammar:
//! each maps a token-model suffix to the parsed node and the remaining
//! suffix, or to the error the grammar violation earns. The executable
//! [`Parser`] is proved to agree with them. A few branches of the model
//! guard a recursive call on the remaining suffix having shrunk; the
//! `lemma_sp_*` lemmas show those guards always hold, so the guarded
//! branches never differ from the grammar.

use crate::ast::{
    expr_ops_grammatical, stmt_ops_grammatical, Expression, ExpressionModel, Program, Statement,
    StatementModel,
};
use std::collections::VecDeque;
use crate::lexer::{
    is_additive_char, is_digit_char, is_multiplicative_char, lex, tokenize, tokens_view,
    BinaryOperator, LexError, Token, TokenModel,
};
use vstd::prelude::*;

verus! {

/// A grammar violation, reported in place of a parse tree.
#[derive(Debug, PartialEq, Eq)]
pub enum ParseError {
    UnexpectedToken(Token),
    MissingCloseParen,
    UnmatchedCloseParen,
    MissingSemicolon,
    ConstWithoutInitializer,
    NumberOutOfRange,
}

/// The mathematical form of a parse error.
pub enum ParseErrorModel {
    UnexpectedToken(TokenModel),
    MissingCloseParen,
    UnmatchedCloseParen,
    MissingSemicolon,
    ConstWithoutInitializer,
    NumberOutOfRange,
}

impl View for ParseError {
    type V = ParseErrorModel;

    open spec fn view(&self) -> ParseErrorModel {
        match self {
            ParseError::UnexpectedToken(t) => ParseErrorModel::UnexpectedToken(t@),
            ParseError::MissingCloseParen => ParseErrorModel::MissingCloseParen,
            ParseError::UnmatchedCloseParen => ParseErrorModel::UnmatchedCloseParen,
            ParseError::MissingSemicolon => ParseErrorModel::MissingSemicolon,
            ParseError::ConstWithoutInitializer => ParseErrorModel::ConstWithoutInitializer,
            ParseError::NumberOutOfRange => ParseErrorModel::NumberOutOfRange,
        }
    }
}

// ---------------------------------------------------------------------------
// Number literals
// ---------------------------------------------------------------------------

/// The integer a digit run denotes.
pub open spec fn digits_val(s: Seq<char>) -> int
    decreases s.len(),
{
    if s.len() == 0 {
        0
    } else {
        10 * digits_val(s.drop_last()) + (s.last() as u32 - 48)
    }
}

/// Every prefix of a digit run denotes at most what the whole run does,
/// and nothing below zero.
proof fn lemma_digits_val_prefix(s: Seq<char>, j: int)
    requires
        0 <= j <= s.len(),
        forall|k: int| 0 <= k < s.len() ==> is_digit_char(#[trigger] s[k]),
    ensures
        0 <= digits_val(s.take(j)),
        digits_val(s.take(j)) <= digits_val(s),
    decreases s.len(),
{
    if s.len() == 0 {
        assert(s.take(j) =~= s);
    } else if j == s.len() {
        assert(s.take(j) =~= s);
        let d = s.drop_last();
        assert forall|k: int| 0 <= k < d.len() implies is_digit_char(#[trigger] d[k]) by {
            assert(d[k] == s[k]);
        }
        assert(is_digit_char(s[s.len() - 1]));
        assert(s.last() as u32 - 48 >= 0);
        lemma_digits_val_prefix(d, d.len() as int);
        assert(d.take(d.len() as int) =~= d);
    } else {
        let d = s.drop_last();
        assert forall|k: int| 0 <= k < d.len() implies is_digit_char(#[trigger] d[k]) by {
            assert(d[k] == s[k]);
        }
        assert(is_digit_char(s[s.len() - 1]));
        assert(s.last() as u32 - 48 >= 0);
        assert(s.take(j) =~= d.take(j));
        lemma_digits_val_prefix(d, j);
        lemma_digits_val_prefix(d, d.len() as int);
        assert(d.take(d.len() as int) =~= d);
    }
}

// ---------------------------------------------------------------------------
// Well-formed token sequences
// ---------------------------------------------------------------------------

/// A number token carries a nonempty run of digits, and an operator
/// token a character of its tier.
pub open spec fn token_wf(t: TokenModel) -> bool {
    match t {
        TokenModel::Number(s) => s.len() > 0 && (forall|k: int|
            0 <= k < s.len() ==> is_digit_char(#[trigger] s[k])),
        TokenModel::BinaryOperator(BinaryOperator::Additive(c)) => is_additive_char(c),
        TokenModel::BinaryOperator(BinaryOperator::Multiplicative(c)) => is_multiplicative_char(c),
        _ => true,
    }
}

/// What the parser requires of its tokens: the `EndOfInput` sentinel
/// closes the sequence, and each token is well formed.
pub open spec fn wf_tokens(ts: Seq<TokenModel>) -> bool {
    &&& ts.len() >= 1
    &&& ts.last() == TokenModel::EndOfInput
    &&& forall|k: int| 0 <= k < ts.len() ==> token_wf(#[trigger] ts[k])
}

proof fn lemma_wf_suffix(ts: Seq<TokenModel>, n: int)
    requires
        wf_tokens(ts),
        0 <= n < ts.len(),
    ensures
        wf_tokens(ts.skip(n)),
{
    let rest = ts.skip(n);
    assert(rest.last() == ts.last());
    assert forall|k: int| 0 <= k < rest.len() implies token_wf(#[trigger] rest[k]) by {
        assert(rest[k] == ts[n + k]);
    }
}

proof fn lemma_wf_drop_first(ts: Seq<TokenModel>)
    requires
        wf_tokens(ts),
        ts.len() >= 2,
    ensures
        wf_tokens(ts.drop_first()),
{
    lemma_wf_suffix(ts, 1);
    assert(ts.drop_first() =~= ts.skip(1));
}

// ---------------------------------------------------------------------------
// The grammar model
// ---------------------------------------------------------------------------

/// A binary node with exclusively owned subtrees.
pub open spec fn binary(left: ExpressionModel, right: ExpressionModel, op: char) -> ExpressionModel {
    ExpressionModel::BinaryExpression {
        left: Box::new(left),
        right: Box::new(right),
        operator: op,
    }
}

pub open spec fn is_additive_op(t: TokenModel) -> bool {
    match t {
        TokenModel::BinaryOperator(BinaryOperator::Additive(_)) => true,
        _ => false,
    }
}

pub open spec fn is_multiplicative_op(t: TokenModel) -> bool {
    match t {
        TokenModel::BinaryOperator(BinaryOperator::Multiplicative(_)) => true,
        _ => false,
    }
}

pub open spec fn sp_primary(ts: Seq<TokenModel>) -> Result<
    (ExpressionModel, Seq<TokenModel>),
    ParseErrorModel,
>
    decreases ts.len(), 0int,
{
    if ts.len() == 0 {
        Err(ParseErrorModel::UnexpectedToken(TokenModel::EndOfInput))
    } else {
        match ts[0] {
            TokenModel::Number(text) => {
                if digits_val(text) <= i32::MAX {
                    Ok((ExpressionModel::NumericLiteral(digits_val(text)), ts.drop_first()))
                } else {
                    Err(ParseErrorModel::NumberOutOfRange)
                }
            },
            TokenModel::Identifier(name) => {
                Ok((ExpressionModel::Identifier(name), ts.drop_first()))
            },
            TokenModel::Null => Ok((ExpressionModel::NullLiteral, ts.drop_first())),
            TokenModel::OpenParen => {
                match sp_expression(ts.drop_first()) {
                    Ok((e, rem)) => {
                        if rem.len() > 0 && rem[0] == TokenModel::CloseParen {
                            Ok((e, rem.drop_first()))
                        } else {
                            Err(ParseErrorModel::MissingCloseParen)
                        }
                    },
                    Err(e) => Err(e),
                }
            },
            TokenModel::CloseParen => Err(ParseErrorModel::UnmatchedCloseParen),
            _ => Err(ParseErrorModel::UnexpectedToken(ts[0])),
        }
    }
}

pub open spec fn sp_multiplicative_rest(ts: Seq<TokenModel>, left: ExpressionModel) -> Result<
    (ExpressionModel, Seq<TokenModel>),
    ParseErrorModel,
>
    decreases ts.len(), 1int,
{
    if ts.len() == 0 {
        Ok((left, ts))
    } else {
        match ts[0] {
            TokenModel::BinaryOperator(BinaryOperator::Multiplicative(c)) => {
                match sp_primary(ts.drop_first()) {
                    Ok((right, rem)) => {
                        let combined = binary(left, right, c);
                        // the suffix always shrinks (lemma_sp_primary)
                        if rem.len() < ts.len() {
                            sp_multiplicative_rest(rem, combined)
                        } else {
                            Ok((combined, rem))
                        }
                    },
                    Err(e) => Err(e),
                }
            },
            _ => Ok((left, ts)),
        }
    }
}

pub open spec fn sp_multiplicative(ts: Seq<TokenModel>) -> Result<
    (ExpressionModel, Seq<TokenModel>),
    ParseErrorModel,
>
    decreases ts.len(), 2int,
{
    match sp_primary(ts) {
        Ok((l, rem)) => {
            if rem.len() < ts.len() {
                sp_multiplicative_rest(rem, l)
            } else {
                Ok((l, rem))
            }
        },
        Err(e) => Err(e),
    }
}

pub open spec fn sp_additive_rest(ts: Seq<TokenModel>, left: ExpressionModel) -> Result<
    (ExpressionModel, Seq<TokenModel>),
    ParseErrorModel,
>
    decreases ts.len(), 3int,
{
    if ts.len() == 0 {
        Ok((left, ts))
    } else {
        match ts[0] {
            TokenModel::BinaryOperator(BinaryOperator::Additive(c)) => {
                match sp_multiplicative(ts.drop_first()) {
                    Ok((right, rem)) => {
                        let combined = binary(left, right, c);
                        if rem.len() < ts.len() {
                            sp_additive_rest(rem, combined)
                        } else {
                            Ok((combined, rem))
                        }
                    },
                    Err(e) => Err(e),
                }
            },
            _ => Ok((left, ts)),
        }
    }
}

pub open spec fn sp_additive(ts: Seq<TokenModel>) -> Result<
    (ExpressionModel, Seq<TokenModel>),
    ParseErrorModel,
>
    decreases ts.len(), 4int,
{
    match sp_multiplicative(ts) {
        Ok((l, rem)) => {
            if rem.len() < ts.len() {
                sp_additive_rest(rem, l)
            } else {
                Ok((l, rem))
            }
        },
        Err(e) => Err(e),
    }
}

pub open spec fn sp_expression(ts: Seq<TokenModel>) -> Result<
    (ExpressionModel, Seq<TokenModel>),
    ParseErrorModel,
>
    decreases ts.len(), 5int,
{
    sp_additive(ts)
}

pub open spec fn sp_let(ts: Seq<TokenModel>) -> Result<
    (StatementModel, Seq<TokenModel>),
    ParseErrorModel,
>
    decreases ts.len(), 6int,
{
    if ts.len() < 3 {
        Err(ParseErrorModel::UnexpectedToken(TokenModel::EndOfInput))
    } else {
        match ts[1] {
            TokenModel::Identifier(name) => {
                match ts[2] {
                    TokenModel::Semicolon => {
                        Ok((
                            StatementModel::VarDeclaration { identifier: name, value: None },
                            ts.skip(3),
                        ))
                    },
                    TokenModel::Equals => {
                        match sp_expression(ts.skip(3)) {
                            Ok((v, rem)) => {
                                if rem.len() > 0 && rem[0] == TokenModel::Semicolon {
                                    Ok((
                                        StatementModel::VarDeclaration {
                                            identifier: name,
                                            value: Some(v),
                                        },
                                        rem.drop_first(),
                                    ))
                                } else {
                                    Err(ParseErrorModel::MissingSemicolon)
                                }
                            },
                            Err(e) => Err(e),
                        }
                    },
                    _ => Err(ParseErrorModel::UnexpectedToken(ts[2])),
                }
            },
            _ => Err(ParseErrorModel::UnexpectedToken(ts[1])),
        }
    }
}

pub open spec fn sp_const(ts: Seq<TokenModel>) -> Result<
    (StatementModel, Seq<TokenModel>),
    ParseErrorModel,
>
    decreases ts.len(), 6int,
{
    if ts.len() < 3 {
        Err(ParseErrorModel::UnexpectedToken(TokenModel::EndOfInput))
    } else {
        match ts[1] {
            TokenModel::Identifier(name) => {
                match ts[2] {
                    TokenModel::Semicolon => Err(ParseErrorModel::ConstWithoutInitializer),
                    TokenModel::Equals => {
                        match sp_expression(ts.skip(3)) {
                            Ok((v, rem)) => {
                                if rem.len() > 0 && rem[0] == TokenModel::Semicolon {
                                    Ok((
                                        StatementModel::ConstDeclaration {
                                            identifier: name,
                                            value: v,
                                        },
                                        rem.drop_first(),
                                    ))
                                } else {
                                    Err(ParseErrorModel::MissingSemicolon)
                                }
                            },
                            Err(e) => Err(e),
                        }
                    },
                    _ => Err(ParseErrorModel::UnexpectedToken(ts[2])),
                }
            },
            _ => Err(ParseErrorModel::UnexpectedToken(ts[1])),
        }
    }
}

/// An expression statement, turned into an assignment when an `=` follows
/// the parsed expression. An assignment must end with a semicolon, as the
/// declarations do; a bare expression statement may end with one.
pub open spec fn sp_assignment_or_expression(ts: Seq<TokenModel>) -> Result<
    (StatementModel, Seq<TokenModel>),
    ParseErrorModel,
>
    decreases ts.len(), 6int,
{
    match sp_expression(ts) {
        Ok((e, rem)) => {
            if rem.len() > 0 && rem[0] == TokenModel::Equals && rem.len() <= ts.len() {
                match sp_expression(rem.drop_first()) {
                    Ok((v, rem2)) => {
                        if rem2.len() > 0 && rem2[0] == TokenModel::Semicolon {
                            Ok((
                                StatementModel::VarAssignment { assigne: e, value: v },
                                rem2.drop_first(),
                            ))
                        } else {
                            Err(ParseErrorModel::MissingSemicolon)
                        }
                    },
                    Err(e2) => Err(e2),
                }
            } else if rem.len() > 0 && rem[0] == TokenModel::Semicolon {
                Ok((StatementModel::Expression(e), rem.drop_first()))
            } else {
                Ok((StatementModel::Expression(e), rem))
            }
        },
        Err(e) => Err(e),
    }
}

pub open spec fn sp_statement(ts: Seq<TokenModel>) -> Result<
    (StatementModel, Seq<TokenModel>),
    ParseErrorModel,
>
    decreases ts.len(), 7int,
{
    if ts.len() == 0 {
        Err(ParseErrorModel::UnexpectedToken(TokenModel::EndOfInput))
    } else {
        match ts[0] {
            TokenModel::Let => sp_let(ts),
            TokenModel::Const => sp_const(ts),
            _ => sp_assignment_or_expression(ts),
        }
    }
}

pub open spec fn sp_program(ts: Seq<TokenModel>) -> Result<Seq<StatementModel>, ParseErrorModel>
    decreases ts.len(), 8int,
{
    if ts.len() == 0 || ts[0] == TokenModel::EndOfInput {
        Ok(Seq::empty())
    } else {
        match sp_statement(ts) {
            Ok((s, rem)) => {
                if rem.len() < ts.len() {
                    match sp_program(rem) {
                        Ok(ss) => Ok(seq![s] + ss),
                        Err(e) => Err(e),
                    }
                } else {
                    Ok(seq![s])
                }
            },
            Err(e) => Err(e),
        }
    }
}

// ---------------------------------------------------------------------------
// Progress: every parse consumes tokens and leaves a well-formed suffix
// ---------------------------------------------------------------------------

proof fn lemma_sp_primary(ts: Seq<TokenModel>)
    requires
        wf_tokens(ts),
    ensures
        match sp_primary(ts) {
            Ok((e, rem)) => wf_tokens(rem) && rem.len() < ts.len() && expr_ops_grammatical(e),
            Err(_) => true,
        },
    decreases ts.len(), 0int,
{
    match ts[0] {
        TokenModel::Number(text) => {
            lemma_wf_drop_first(ts);
        },
        TokenModel::Identifier(name) => {
            lemma_wf_drop_first(ts);
        },
        TokenModel::Null => {
            lemma_wf_drop_first(ts);
        },
        TokenModel::OpenParen => {
            lemma_wf_drop_first(ts);
            lemma_sp_expression(ts.drop_first());
            match sp_expression(ts.drop_first()) {
                Ok((e, rem)) => {
                    if rem.len() > 0 && rem[0] == TokenModel::CloseParen {
                        lemma_wf_drop_first(rem);
                    }
                },
                Err(_) => {},
            }
        },
        _ => {},
    }
}

proof fn lemma_sp_multiplicative_rest(ts: Seq<TokenModel>, left: ExpressionModel)
    requires
        wf_tokens(ts),
        expr_ops_grammatical(left),
    ensures
        match sp_multiplicative_rest(ts, left) {
            Ok((e, rem)) => wf_tokens(rem) && rem.len() <= ts.len() && expr_ops_grammatical(e),
            Err(_) => true,
        },
    decreases ts.len(), 1int,
{
    match ts[0] {
        TokenModel::BinaryOperator(BinaryOperator::Multiplicative(c)) => {
            lemma_wf_drop_first(ts);
            lemma_sp_primary(ts.drop_first());
            match sp_primary(ts.drop_first()) {
                Ok((right, rem)) => {
                    lemma_sp_multiplicative_rest(rem, binary(left, right, c));
                },
                Err(_) => {},
            }
        },
        _ => {},
    }
}

proof fn lemma_sp_multiplicative(ts: Seq<TokenModel>)
    requires
        wf_tokens(ts),
    ensures
        match sp_multiplicative(ts) {
            Ok((e, rem)) => wf_tokens(rem) && rem.len() < ts.len() && expr_ops_grammatical(e),
            Err(_) => true,
        },
    decreases ts.len(), 2int,
{
    lemma_sp_primary(ts);
    match sp_primary(ts) {
        Ok((l, rem)) => {
            lemma_sp_multiplicative_rest(rem, l);
        },
        Err(_) => {},
    }
}

proof fn lemma_sp_additive_rest(ts: Seq<TokenModel>, left: ExpressionModel)
    requires
        wf_tokens(ts),
        expr_ops_grammatical(left),
    ensures
        match sp_additive_rest(ts, left) {
            Ok((e, rem)) => wf_tokens(rem) && rem.len() <= ts.len() && expr_ops_grammatical(e),
            Err(_) => true,
        },
    decreases ts.len(), 3int,
{
    match ts[0] {
        TokenModel::BinaryOperator(BinaryOperator::Additive(c)) => {
            lemma_wf_drop_first(ts);
            lemma_sp_multiplicative(ts.drop_first());
            match sp_multiplicative(ts.drop_first()) {
                Ok((right, rem)) => {
                    lemma_sp_additive_rest(rem, binary(left, right, c));
                },
                Err(_) => {},
            }
        },
        _ => {},
    }
}

proof fn lemma_sp_additive(ts: Seq<TokenModel>)
    requires
        wf_tokens(ts),
    ensures
        match sp_additive(ts) {
            Ok((e, rem)) => wf_tokens(rem) && rem.len() < ts.len() && expr_ops_grammatical(e),
            Err(_) => true,
        },
    decreases ts.len(), 4int,
{
    lemma_sp_multiplicative(ts);
    match sp_multiplicative(ts) {
        Ok((l, rem)) => {
            lemma_sp_additive_rest(rem, l);
        },
        Err(_) => {},
    }
}

proof fn lemma_sp_expression(ts: Seq<TokenModel>)
    requires
        wf_tokens(ts),
    ensures
        match sp_expression(ts) {
            Ok((e, rem)) => wf_tokens(rem) && rem.len() < ts.len() && expr_ops_grammatical(e),
            Err(_) => true,
        },
    decreases ts.len(), 5int,
{
    lemma_sp_additive(ts);
}

proof fn lemma_sp_let(ts: Seq<TokenModel>)
    requires
        wf_tokens(ts),
    ensures
        match sp_let(ts) {
            Ok((s, rem)) => wf_tokens(rem) && rem.len() < ts.len() && stmt_ops_grammatical(s),
            Err(_) => true,
        },
    decreases ts.len(), 6int,
{
    if ts.len() >= 3 {
        match ts[1] {
            TokenModel::Identifier(name) => {
                match ts[2] {
                    TokenModel::Semicolon => {
                        lemma_wf_suffix(ts, 3);
                    },
                    TokenModel::Equals => {
                        lemma_wf_suffix(ts, 3);
                        lemma_sp_expression(ts.skip(3));
                        match sp_expression(ts.skip(3)) {
                            Ok((v, rem)) => {
                                if rem.len() > 0 && rem[0] == TokenModel::Semicolon {
                                    lemma_wf_drop_first(rem);
                                }
                            },
                            Err(_) => {},
                        }
                    },
                    _ => {},
                }
            },
            _ => {},
        }
    }
}

proof fn lemma_sp_const(ts: Seq<TokenModel>)
    requires
        wf_tokens(ts),
    ensures
        match sp_const(ts) {
            Ok((s, rem)) => wf_tokens(rem) && rem.len() < ts.len() && stmt_ops_grammatical(s),
            Err(_) => true,
        },
    decreases ts.len(), 6int,
{
    if ts.len() >= 3 {
        match ts[1] {
            TokenModel::Identifier(name) => {
                match ts[2] {
                    TokenModel::Equals => {
                        lemma_wf_suffix(ts, 3);
                        lemma_sp_expression(ts.skip(3));
                        match sp_expression(ts.skip(3)) {
                            Ok((v, rem)) => {
                                if rem.len() > 0 && rem[0] == TokenModel::Semicolon {
                                    lemma_wf_drop_first(rem);
                                }
                            },
                            Err(_) => {},
                        }
                    },
                    _ => {},
                }
            },
            _ => {},
        }
    }
}

proof fn lemma_sp_assignment_or_expression(ts: Seq<TokenModel>)
    requires
        wf_tokens(ts),
    ensures
        match sp_assignment_or_expression(ts) {
            Ok((s, rem)) => wf_tokens(rem) && rem.len() < ts.len() && stmt_ops_grammatical(s),
            Err(_) => true,
        },
    decreases ts.len(), 6int,
{
    lemma_sp_expression(ts);
    match sp_expression(ts) {
        Ok((e, rem)) => {
            if rem.len() > 0 && rem[0] == TokenModel::Equals {
                lemma_wf_drop_first(rem);
                lemma_sp_expression(rem.drop_first());
                match sp_expression(rem.drop_first()) {
                    Ok((v, rem2)) => {
                        if rem2.len() > 0 && rem2[0] == TokenModel::Semicolon {
                            lemma_wf_drop_first(rem2);
                        }
                    },
                    Err(_) => {},
                }
            } else if rem.len() > 0 && rem[0] == TokenModel::Semicolon {
                lemma_wf_drop_first(rem);
            }
        },
        Err(_) => {},
    }
}

/// Every program the grammar accepts carries only the grammar's five
/// operators. `produce_ast` promises agreement with `sp_program`, so an
/// abstract syntax tree obtained through the parser never holds any
/// other operator character.
pub proof fn lemma_parsed_programs_grammatical(ts: Seq<TokenModel>)
    requires
        wf_tokens(ts),
    ensures
        match sp_program(ts) {
            Ok(ss) => forall|k: int| 0 <= k < ss.len() ==> stmt_ops_grammatical(#[trigger] ss[k]),
            Err(_) => true,
        },
    decreases ts.len(),
{
    if ts.len() == 0 || ts[0] == TokenModel::EndOfInput {
    } else {
        lemma_sp_statement(ts);
        match sp_statement(ts) {
            Ok((s, rem)) => {
                if rem.len() < ts.len() {
                    lemma_parsed_programs_grammatical(rem);
                    match sp_program(rem) {
                        Ok(ss) => {
                            let full = seq![s] + ss;
                            assert forall|k: int|
                                0 <= k < full.len() implies stmt_ops_grammatical(
                                #[trigger] full[k],
                            ) by {
                                if k == 0 {
                                    assert(full[0] == s);
                                } else {
                                    assert(full[k] == ss[k - 1]);
                                }
                            }
                        },
                        Err(_) => {},
                    }
                } else {
                    assert(seq![s][0] == s);
                }
            },
            Err(_) => {},
        }
    }
}

// ---------------------------------------------------------------------------
// The executable parser
// ---------------------------------------------------------------------------

/// Parse a digit run into a machine integer, rejecting values beyond the
/// 32-bit range.
fn parse_number(text: &String) -> (r: Result<i32, ParseError>)
    requires
        text@.len() > 0,
        forall|k: int| 0 <= k < text@.len() ==> is_digit_char(#[trigger] text@[k]),
    ensures
        match r {
            Ok(v) => digits_val(text@) <= i32::MAX && v as int == digits_val(text@),
            Err(pe) => pe@ == ParseErrorModel::NumberOutOfRange && digits_val(text@) > i32::MAX,
        },
{
    let s = text.as_str();
    let n = s.unicode_len();
    let mut acc: i32 = 0;
    let mut i: usize = 0;
    proof {
        assert(s@.take(0) =~= Seq::<char>::empty());
    }
    while i < n
        invariant
            i <= n,
            n == s@.len(),
            s@ == text@,
            forall|k: int| 0 <= k < text@.len() ==> is_digit_char(#[trigger] text@[k]),
            0 <= acc,
            acc as int == digits_val(s@.take(i as int)),
        decreases n - i,
    {
        let c = s.get_char(i);
        proof {
            assert(is_digit_char(s@[i as int]));
        }
        let d = (c as u32) - 48;
        let acc10 = match acc.checked_mul(10) {
            Some(x) => x,
            None => {
                proof {
                    assert(s@.take(i + 1).drop_last() =~= s@.take(i as int));
                    assert(s@.take(i + 1).last() == s@[i as int]);
                    lemma_digits_val_prefix(text@, i + 1);
                }
                return Err(ParseError::NumberOutOfRange);
            },
        };
        let acc2 = match acc10.checked_add(d as i32) {
            Some(x) => x,
            None => {
                proof {
                    assert(s@.take(i + 1).drop_last() =~= s@.take(i as int));
                    assert(s@.take(i + 1).last() == s@[i as int]);
                    lemma_digits_val_prefix(text@, i + 1);
                }
                return Err(ParseError::NumberOutOfRange);
            },
        };
        proof {
            assert(s@.take(i + 1).drop_last() =~= s@.take(i as int));
            assert(s@.take(i + 1).last() == s@[i as int]);
        }
        acc = acc2;
        i = i + 1;
    }
    proof {
        assert(s@.take(n as int) =~= text@);
    }
    Ok(acc)
}

/// The parser state: the tokens not yet consumed, front to back, always
/// closed by the `EndOfInput` sentinel.
#[derive(Debug)]
pub struct Parser {
    tokens: VecDeque<Token>,
}

impl View for Parser {
    type V = Seq<TokenModel>;

    closed spec fn view(&self) -> Seq<TokenModel> {
        tokens_view(self.tokens@)
    }
}

impl Parser {
    /// The parser's invariant on its remaining tokens.
    pub open spec fn wf(&self) -> bool {
        wf_tokens(self@)
    }

    /// Lex `source_code` and stand ready to parse its tokens.
    pub fn initialize(source_code: String) -> (r: Result<Parser, LexError>)
        ensures
            match (r, lex(source_code@)) {
                (Ok(p), Ok(m)) => p@ == m.push(TokenModel::EndOfInput) && p.wf(),
                (Err(e1), Err(e2)) => e1 == e2,
                _ => false,
            },
    {
        proof {
            crate::lexer::lemma_lex_shapes(source_code@);
        }
        let ghost src = source_code@;
        let mut vec_tokens = match tokenize(source_code) {
            Ok(v) => v,
            Err(e) => {
                return Err(e);
            },
        };
        let ghost all = vec_tokens@;
        let mut deque: VecDeque<Token> = VecDeque::new();
        while vec_tokens.len() > 0
            invariant
                vec_tokens@ + deque@ =~= all,
            decreases vec_tokens.len(),
        {
            let t = vec_tokens.pop().unwrap();
            deque.push_front(t);
        }
        proof {
            assert(deque@ =~= all);
        }
        let p = Parser { tokens: deque };
        proof {
            match lex(src) {
                Ok(m) => {
                    assert(p@ == m.push(TokenModel::EndOfInput));
                    assert(p@.last() == TokenModel::EndOfInput);
                    assert forall|k: int| 0 <= k < p@.len() implies token_wf(
                        #[trigger] p@[k],
                    ) by {
                        if k < m.len() {
                            assert(p@[k] == m[k]);
                            assert(crate::lexer::supported_token_shape(m[k]));
                        }
                    }
                },
                Err(_) => {},
            }
        }
        Ok(p)
    }

    /// Whether the next token is the `EndOfInput` sentinel.
    fn eof(&self) -> (r: bool)
        requires
            self@.len() > 0,
        ensures
            r == (self@[0] == TokenModel::EndOfInput),
    {
        match &self.tokens[0] {
            Token::EndOfInput => true,
            _ => false,
        }
    }

    /// Peek at the next token without consuming it.
    fn at(&self) -> (t: &Token)
        requires
            self@.len() > 0,
        ensures
            t@ == self@[0],
    {
        &self.tokens[0]
    }

    /// Remove and return the next token. The `EndOfInput` sentinel keeps
    /// the sequence nonempty on every path the grammar allows.
    fn pop_front(&mut self) -> (t: Token)
        requires
            old(self)@.len() > 0,
        ensures
            t@ == old(self)@[0],
            final(self)@ == old(self)@.drop_first(),
    {
        let t = self.tokens.pop_front().unwrap();
        proof {
            assert(tokens_view(self.tokens@) =~= tokens_view(old(self).tokens@).drop_first());
        }
        t
    }

    fn head_is_multiplicative(&self) -> (r: bool)
        requires
            self@.len() > 0,
        ensures
            r == is_multiplicative_op(self@[0]),
    {
        match &self.tokens[0] {
            Token::BinaryOperator(BinaryOperator::Multiplicative(_)) => true,
            _ => false,
        }
    }

    fn head_is_additive(&self) -> (r: bool)
        requires
            self@.len() > 0,
        ensures
            r == is_additive_op(self@[0]),
    {
        match &self.tokens[0] {
            Token::BinaryOperator(BinaryOperator::Additive(_)) => true,
            _ => false,
        }
    }

    fn parse_primary_expression(&mut self) -> (r: Result<Expression, ParseError>)
        requires
            old(self).wf(),
        ensures
            match (r, sp_primary(old(self)@)) {
                (Ok(e), Ok((em, rem))) => {
                    e@ == em && final(self)@ == rem && final(self).wf() && final(self)@.len() < old(self)@.len()
                },
                (Err(pe), Err(pem)) => pe@ == pem,
                _ => false,
            },
        decreases old(self)@.len(), 0int,
    {
        proof {
            lemma_sp_primary(old(self)@);
        }
        let token = self.pop_front();
        match token {
            Token::Number(value) => {
                proof {
                    assert(token_wf(old(self)@[0]));
                }
                match parse_number(&value) {
                    Ok(n) => Ok(Expression::NumericLiteral(n)),
                    Err(e) => Err(e),
                }
            },
            Token::Identifier(value) => Ok(Expression::Identifier(value)),
            Token::Null => Ok(Expression::NullLiteral),
            Token::OpenParen => {
                proof {
                    lemma_wf_drop_first(old(self)@);
                }
                match self.parse_expression() {
                    Ok(expr) => {
                        let next = self.pop_front();
                        match next {
                            Token::CloseParen => Ok(expr),
                            _ => Err(ParseError::MissingCloseParen),
                        }
                    },
                    Err(e) => Err(e),
                }
            },
            Token::CloseParen => Err(ParseError::UnmatchedCloseParen),
            t => Err(ParseError::UnexpectedToken(t)),
        }
    }

    fn parse_multiplicative_expression(&mut self) -> (r: Result<Expression, ParseError>)
        requires
            old(self).wf(),
        ensures
            match (r, sp_multiplicative(old(self)@)) {
                (Ok(e), Ok((em, rem))) => {
                    e@ == em && final(self)@ == rem && final(self).wf() && final(self)@.len() < old(self)@.len()
                },
                (Err(pe), Err(pem)) => pe@ == pem,
                _ => false,
            },
        decreases old(self)@.len(), 2int,
    {
        let mut left = match self.parse_primary_expression() {
            Ok(e) => e,
            Err(e) => {
                return Err(e);
            },
        };
        while self.head_is_multiplicative()
            invariant
                self.wf(),
                self@.len() < old(self)@.len(),
                sp_multiplicative(old(self)@) == sp_multiplicative_rest(self@, left@),
            decreases self@.len(),
        {
            let op_token = self.pop_front();
            match op_token {
                Token::BinaryOperator(BinaryOperator::Multiplicative(c)) => {
                    match self.parse_primary_expression() {
                        Ok(right) => {
                            left = Expression::BinaryExpression {
                                left: Box::new(left),
                                right: Box::new(right),
                                operator: c,
                            };
                        },
                        Err(e) => {
                            return Err(e);
                        },
                    }
                },
                _ => {
                    proof {
                        assert(false);
                    }
                },
            }
        }
        Ok(left)
    }

    fn parse_additive_expression(&mut self) -> (r: Result<Expression, ParseError>)
        requires
            old(self).wf(),
        ensures
            match (r, sp_additive(old(self)@)) {
                (Ok(e), Ok((em, rem))) => {
                    e@ == em && final(self)@ == rem && final(self).wf() && final(self)@.len() < old(self)@.len()
                },
                (Err(pe), Err(pem)) => pe@ == pem,
                _ => false,
            },
        decreases old(self)@.len(), 4int,
    {
        let mut left = match self.parse_multiplicative_expression() {
            Ok(e) => e,
            Err(e) => {
                return Err(e);
            },
        };
        while self.head_is_additive()
            invariant
                self.wf(),
                self@.len() < old(self)@.len(),
                sp_additive(old(self)@) == sp_additive_rest(self@, left@),
            decreases self@.len(),
        {
            let op_token = self.pop_front();
            match op_token {
                Token::BinaryOperator(BinaryOperator::Additive(c)) => {
                    match self.parse_multiplicative_expression() {
                        Ok(right) => {
                            left = Expression::BinaryExpression {
                                left: Box::new(left),
                                right: Box::new(right),
                                operator: c,
                            };
                        },
                        Err(e) => {
                            return Err(e);
                        },
                    }
                },
                _ => {
                    proof {
                        assert(false);
                    }
                },
            }
        }
        Ok(left)
    }

    fn parse_expression(&mut self) -> (r: Result<Expression, ParseError>)
        requires
            old(self).wf(),
        ensures
            match (r, sp_expression(old(self)@)) {
                (Ok(e), Ok((em, rem))) => {
                    e@ == em && final(self)@ == rem && final(self).wf() && final(self)@.len() < old(self)@.len()
                },
                (Err(pe), Err(pem)) => pe@ == pem,
                _ => false,
            },
        decreases old(self)@.len(), 5int,
    {
        self.parse_additive_expression()
    }

    fn parse_let(&mut self) -> (r: Result<Statement, ParseError>)
        requires
            old(self).wf(),
            old(self)@[0] == TokenModel::Let,
        ensures
            match (r, sp_let(old(self)@)) {
                (Ok(s), Ok((sm, rem))) => {
                    s@ == sm && final(self)@ == rem && final(self).wf() && final(self)@.len() < old(self)@.len()
                },
                (Err(pe), Err(pem)) => pe@ == pem,
                _ => false,
            },
        decreases old(self)@.len(), 6int,
    {
        proof {
            lemma_sp_let(old(self)@);
            assert(old(self)@.len() >= 2);
        }
        let _let_token = self.pop_front();
        let ident_token = self.pop_front();
        let identifier = match ident_token {
            Token::Identifier(i) => i,
            t => {
                return Err(ParseError::UnexpectedToken(t));
            },
        };
        proof {
            assert(old(self)@.len() >= 3);
            assert(self@ =~= old(self)@.skip(2));
        }
        let next = self.pop_front();
        proof {
            assert(self@ =~= old(self)@.skip(3));
        }
        match next {
            Token::Semicolon => Ok(Statement::VarDeclaration { identifier, value: None }),
            Token::Equals => {
                proof {
                    lemma_wf_suffix(old(self)@, 3);
                }
                match self.parse_expression() {
                    Ok(v) => {
                        let semi = self.pop_front();
                        match semi {
                            Token::Semicolon => {
                                Ok(Statement::VarDeclaration { identifier, value: Some(v) })
                            },
                            _ => Err(ParseError::MissingSemicolon),
                        }
                    },
                    Err(e) => Err(e),
                }
            },
            t => Err(ParseError::UnexpectedToken(t)),
        }
    }

    fn parse_const(&mut self) -> (r: Result<Statement, ParseError>)
        requires
            old(self).wf(),
            old(self)@[0] == TokenModel::Const,
        ensures
            match (r, sp_const(old(self)@)) {
                (Ok(s), Ok((sm, rem))) => {
                    s@ == sm && final(self)@ == rem && final(self).wf() && final(self)@.len() < old(self)@.len()
                },
                (Err(pe), Err(pem)) => pe@ == pem,
                _ => false,
            },
        decreases old(self)@.len(), 6int,
    {
        proof {
            lemma_sp_const(old(self)@);
            assert(old(self)@.len() >= 2);
        }
        let _const_token = self.pop_front();
        let ident_token = self.pop_front();
        let identifier = match ident_token {
            Token::Identifier(i) => i,
            t => {
                return Err(ParseError::UnexpectedToken(t));
            },
        };
        proof {
            assert(old(self)@.len() >= 3);
            assert(self@ =~= old(self)@.skip(2));
        }
        let next = self.pop_front();
        proof {
            assert(self@ =~= old(self)@.skip(3));
        }
        match next {
            Token::Semicolon => Err(ParseError::ConstWithoutInitializer),
            Token::Equals => {
                proof {
                    lemma_wf_suffix(old(self)@, 3);
                }
                match self.parse_expression() {
                    Ok(v) => {
                        let semi = self.pop_front();
                        match semi {
                            Token::Semicolon => {
                                Ok(Statement::ConstDeclaration { identifier, value: v })
                            },
                            _ => Err(ParseError::MissingSemicolon),
                        }
                    },
                    Err(e) => Err(e),
                }
            },
            t => Err(ParseError::UnexpectedToken(t)),
        }
    }

    fn parse_assignment_or_expression(&mut self) -> (r: Result<Statement, ParseError>)
        requires
            old(self).wf(),
        ensures
            match (r, sp_assignment_or_expression(old(self)@)) {
                (Ok(s), Ok((sm, rem))) => {
                    s@ == sm && final(self)@ == rem && final(self).wf() && final(self)@.len() < old(self)@.len()
                },
                (Err(pe), Err(pem)) => pe@ == pem,
                _ => false,
            },
        decreases old(self)@.len(), 6int,
    {
        proof {
            lemma_sp_assignment_or_expression(old(self)@);
        }
        let e = match self.parse_expression() {
            Ok(e) => e,
            Err(err) => {
                return Err(err);
            },
        };
        let head_is_equals = match self.at() {
            Token::Equals => true,
            _ => false,
        };
        if head_is_equals {
            proof {
                lemma_wf_drop_first(self@);
            }
            let _equals = self.pop_front();
            let v = match self.parse_expression() {
                Ok(v) => v,
                Err(err) => {
                    return Err(err);
                },
            };
            let semi = self.pop_front();
            match semi {
                Token::Semicolon => Ok(Statement::VarAssignment { assigne: e, value: v }),
                _ => Err(ParseError::MissingSemicolon),
            }
        } else {
            let head_is_semi = match self.at() {
                Token::Semicolon => true,
                _ => false,
            };
            if head_is_semi {
                let _semi = self.pop_front();
                Ok(Statement::Expression(e))
            } else {
                Ok(Statement::Expression(e))
            }
        }
    }

    fn parse_statement(&mut self) -> (r: Result<Statement, ParseError>)
        requires
            old(self).wf(),
        ensures
            match (r, sp_statement(old(self)@)) {
                (Ok(s), Ok((sm, rem))) => {
                    s@ == sm && final(self)@ == rem && final(self).wf() && final(self)@.len() < old(self)@.len()
                },
                (Err(pe), Err(pem)) => pe@ == pem,
                _ => false,
            },
        decreases old(self)@.len(), 7int,
    {
        let is_let = match self.at() {
            Token::Let => true,
            _ => false,
        };
        if is_let {
            return self.parse_let();
        }
        let is_const = match self.at() {
            Token::Const => true,
            _ => false,
        };
        if is_const {
            return self.parse_const();
        }
        self.parse_assignment_or_expression()
    }

    /// Parse the whole token sequence into a program: statements in
    /// order, up to the `EndOfInput` sentinel.
    pub fn produce_ast(&mut self) -> (r: Result<Program, ParseError>)
        requires
            old(self).wf(),
        ensures
            match (r, sp_program(old(self)@)) {
                (Ok(p), Ok(ss)) => p@ == ss,
                (Err(pe), Err(pem)) => pe@ == pem,
                _ => false,
            },
    {
        let mut program = Program::new();
        while !self.eof()
            invariant
                self.wf(),
                match sp_program(self@) {
                    Ok(ss) => sp_program(old(self)@) == Ok::<_, ParseErrorModel>(program@ + ss),
                    Err(e) => sp_program(old(self)@) == Err::<Seq<StatementModel>, _>(e),
                },
            decreases self@.len(),
        {
            let ghost prev = self@;
            let ghost prev_program = program@;
            let s = match self.parse_statement() {
                Ok(s) => s,
                Err(e) => {
                    return Err(e);
                },
            };
            program.body.push(s);
            proof {
                assert(program@ =~= prev_program.push(s@));
                match sp_program(self@) {
                    Ok(ss) => {
                        assert(prev_program + (seq![s@] + ss) =~= prev_program.push(s@) + ss);
                    },
                    Err(_) => {},
                }
            }
        }
        proof {
            match sp_program(self@) {
                Ok(ss) => {
                    assert(program@ + ss =~= program@);
                },
                Err(_) => {},
            }
        }
        Ok(program)
    }
}

proof fn lemma_sp_statement(ts: Seq<TokenModel>)
    requires
        wf_tokens(ts),
    ensures
        match sp_statement(ts) {
            Ok((s, rem)) => wf_tokens(rem) && rem.len() < ts.len() && stmt_ops_grammatical(s),
            Err(_) => true,
        },
    decreases ts.len(), 7int,
{
    match ts[0] {
        TokenModel::Let => lemma_sp_let(ts),
        TokenModel::Const => lemma_sp_const(ts),
        _ => lemma_sp_assignment_or_expression(ts),
    }
}

} // verus!
