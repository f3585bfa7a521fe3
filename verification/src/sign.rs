//! The sign of a number.

use core::cmp::Ordering;
use core::ops::Mul;
use vstd::prelude::*;
use vstd::std_specs::cmp::PartialOrdSpecImpl;
use vstd::std_specs::ops::MulSpecImpl;

verus! {

/// The sign of a number: negative comes before positive.
#[derive(Clone, Copy, Debug, PartialEq, Eq, Structural, Ord)]
pub enum Sign {
    /// Below zero.
    Neg,
    /// Zero or above.
    Pos,
}

impl Sign {
    /// The sign of a product: positive for equal signs, negative for different
    /// ones.
    pub open spec fn product(self, rhs: Sign) -> Sign {
        if self == rhs {
            Sign::Pos
        } else {
            Sign::Neg
        }
    }

    /// Whether this is the negative sign.
    pub fn is_negative(self) -> (r: bool)
        ensures
            r <==> self == Sign::Neg,
    {
        match self {
            Sign::Neg => true,
            Sign::Pos => false,
        }
    }
}

impl Mul for Sign {
    type Output = Sign;

    /// The sign of a product of numbers with these signs.
    fn mul(self, rhs: Sign) -> (r: Sign) {
        match (self, rhs) {
            (Sign::Pos, Sign::Pos) => Sign::Pos,
            (Sign::Neg, Sign::Neg) => Sign::Pos,
            (Sign::Pos, Sign::Neg) => Sign::Neg,
            (Sign::Neg, Sign::Pos) => Sign::Neg,
        }
    }
}

impl MulSpecImpl for Sign {
    open spec fn obeys_mul_spec() -> bool {
        true
    }

    open spec fn mul_req(self, rhs: Sign) -> bool {
        true
    }

    open spec fn mul_spec(self, rhs: Sign) -> Sign {
        self.product(rhs)
    }
}

impl PartialOrd for Sign {
    fn partial_cmp(&self, other: &Self) -> (r: Option<Ordering>) {
        match (*self, *other) {
            (Sign::Neg, Sign::Pos) => Some(Ordering::Less),
            (Sign::Pos, Sign::Neg) => Some(Ordering::Greater),
            (Sign::Pos, Sign::Pos) => Some(Ordering::Equal),
            (Sign::Neg, Sign::Neg) => Some(Ordering::Equal),
        }
    }
}

impl PartialOrdSpecImpl for Sign {
    open spec fn obeys_partial_cmp_spec() -> bool {
        true
    }

    open spec fn partial_cmp_spec(&self, other: &Self) -> Option<Ordering> {
        if *self == *other {
            Some(Ordering::Equal)
        } else if *self == Sign::Neg {
            Some(Ordering::Less)
        } else {
            Some(Ordering::Greater)
        }
    }
}

} // verus!
