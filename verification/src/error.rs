//! The ways in which an operation on an unstack, or a running program, fails.

use vstd::prelude::*;

verus! {

/// Why an operation could not be carried out.
#[derive(Debug, Clone, Copy, PartialEq, Eq, Structural)]
pub enum Fault {
    /// A value was asked of an unstack that holds none.
    EmptyUnstack,
    /// The operation needs more values than the unstack holds.
    Underflow,
    /// A value was to be divided by zero.
    DivisionByZero,
    /// A jump would take the counter below zero, or has the distance 0.
    CounterOutOfRange,
    /// The result of the arithmetic does not fit in an `i64`.
    Overflow,
}

/// A fault met while a program ran, with the place where it was met.
#[derive(Debug, Clone, Copy, PartialEq, Eq, Structural)]
pub struct ExecError {
    /// What went wrong.
    pub fault: Fault,
    /// The index, in the program, of the operation that failed.
    pub at: usize,
}

} // verus!
