//! The six operations of the language, each with its one argument.

use vstd::prelude::*;

verus! {

/// One decoded instruction.
#[derive(Debug, Clone, Copy, PartialEq, Eq, Structural)]
pub enum Operation {
    /// Pushes the value.
    Push(i64),
    /// Pops a value and pushes its quotient by the divisor, rounded toward
    /// zero.
    Pop(i64),
    /// Exchanges the bottom with the value at the depth.
    Swap(usize),
    /// Pops two values, discards the given number of values after them and
    /// pushes the product of the two.
    Combine(usize),
    /// Doubles the given number of values nearest the bottom.
    Duplicate(usize),
    /// Pops a value and, if it is not zero, jumps back: the operation
    /// executed next is the one `distance - 2` before this one. A distance
    /// of 0 is out of range, as is one that leads before the second
    /// operation of the program.
    JumpIfNonzero(usize),
}

/// What an operation does, without its argument.
#[derive(Debug, Clone, Copy, PartialEq, Eq, Structural)]
pub enum Kind {
    Push,
    Pop,
    Swap,
    Combine,
    Duplicate,
    JumpIfNonzero,
}

/// The operation of kind `kind` with `argument` taken into the kind's own
/// domain: as it is where the kind takes an `i64`, and reduced to a `usize`
/// the way an `as` cast does where it takes a depth, a count or a distance.
pub open spec fn operation_of(kind: Kind, argument: i64) -> Operation {
    match kind {
        Kind::Push => Operation::Push(argument),
        Kind::Pop => Operation::Pop(argument),
        Kind::Swap => Operation::Swap(argument as usize),
        Kind::Combine => Operation::Combine(argument as usize),
        Kind::Duplicate => Operation::Duplicate(argument as usize),
        Kind::JumpIfNonzero => Operation::JumpIfNonzero(argument as usize),
    }
}

/// The kind of `operation`.
pub open spec fn kind_of(operation: Operation) -> Kind {
    match operation {
        Operation::Push(_) => Kind::Push,
        Operation::Pop(_) => Kind::Pop,
        Operation::Swap(_) => Kind::Swap,
        Operation::Combine(_) => Kind::Combine,
        Operation::Duplicate(_) => Kind::Duplicate,
        Operation::JumpIfNonzero(_) => Kind::JumpIfNonzero,
    }
}

/// The argument of `operation`, as a number.
pub open spec fn argument_of(operation: Operation) -> int {
    match operation {
        Operation::Push(value) => value as int,
        Operation::Pop(divisor) => divisor as int,
        Operation::Swap(depth) => depth as int,
        Operation::Combine(discarded) => discarded as int,
        Operation::Duplicate(count) => count as int,
        Operation::JumpIfNonzero(distance) => distance as int,
    }
}

impl Operation {
    /// Builds the operation of kind `kind` from an argument read as an
    /// `i64`. An argument from 0 to `usize::MAX` is kept as it is.
    pub fn new(kind: Kind, argument: i64) -> (operation: Operation)
        ensures
            operation == operation_of(kind, argument),
    {
        let reduced =
            #[verifier::truncate]
            (argument as usize);
        match kind {
            Kind::Push => Operation::Push(argument),
            Kind::Pop => Operation::Pop(argument),
            Kind::Swap => Operation::Swap(reduced),
            Kind::Combine => Operation::Combine(reduced),
            Kind::Duplicate => Operation::Duplicate(reduced),
            Kind::JumpIfNonzero => Operation::JumpIfNonzero(reduced),
        }
    }
}

} // verus!
