//! A small expression-and-statement language: a lexer, a recursive-descent
//! parser, and a tree-walking evaluator over a lexically scoped environment.
//!
//! Source text is turned into tokens ([`lexer`]), tokens into an abstract
//! syntax tree ([`ast`], [`parser`]), and the tree into runtime values
//! ([`values`], [`interpreter`]) while an [`environment`] of variables and
//! constants is threaded through evaluation.

pub mod ast;
pub mod environment;
pub mod interpreter;
pub mod lexer;
pub mod parser;
pub mod values;

use vstd::prelude::*;

verus! {

} // verus!
