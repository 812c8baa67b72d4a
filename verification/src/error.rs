//! The error type that operators, fields and storage share.

use vstd::prelude::*;

verus! {

/// What can go wrong while a query runs.
#[derive(Debug, PartialEq, Eq)]
pub enum CrustyError {
    /// The operand types of an arithmetic operation do not go together.
    TypeMismatch,
    /// The result of an arithmetic operation does not fit its type.
    Overflow,
    /// A division by zero.
    DivisionByZero,
    /// Reading or writing storage failed.
    IOError(String),
    /// An operator failed for a reason of its own.
    ExecutionError(String),
}

} // verus!
