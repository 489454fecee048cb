//! Runtime values produced by the evaluator.

use vstd::prelude::*;

verus! {

/// The result of evaluating an expression: a null marker, a signed
/// machine integer, or a boolean. Values are plain and copyable.
#[derive(Clone, Copy, Debug, PartialEq, Eq, Structural)]
pub enum RuntimeValue {
    NullValue,
    NumberValue(i32),
    Bool(bool),
}

} // verus!
