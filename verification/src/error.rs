//! The ways in which an operation can fail.

use vstd::prelude::*;

verus! {

/// Why an arithmetic operation has no result.
#[derive(Clone, Copy, Debug, PartialEq, Eq, Structural)]
pub enum ArithmeticError {
    /// The divisor of a division or remainder, or the number to invert, is zero.
    DivideByZero,
    /// A sum, difference or product does not fit the width of its operands.
    CapacityOverflow,
}

} // verus!
