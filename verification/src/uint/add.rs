//! Addition and subtraction of fixed-width integers.

use core::ops::{Add, Sub};
use vstd::prelude::*;
use vstd::std_specs::ops::{AddSpecImpl, SubSpecImpl};
use crate::error::ArithmeticError;
use crate::limbs::add::{add_with_carry, sub_with_borrow};
use crate::limbs::lemmas::lemma_value_bound;
use crate::uint::Uint;

verus! {

impl<const SIZE: usize> Uint<SIZE> {
    /// The sum, digit by digit with carry. A carry out of the most significant
    /// digit is an overflow.
    pub fn checked_add(self, rhs: Self) -> (r: Result<Self, ArithmeticError>)
        ensures
            r is Ok <==> self.value() + rhs.value() < Self::limit(),
            r is Ok ==> r->Ok_0.value() == self.value() + rhs.value(),
            r is Err ==> r->Err_0 == ArithmeticError::CapacityOverflow,
    {
        let (sum, carry) = add_with_carry(self.digits.as_slice(), rhs.digits.as_slice());
        proof {
            lemma_value_bound(sum@);
        }
        if carry {
            Err(ArithmeticError::CapacityOverflow)
        } else {
            Ok(Self::from_digits(sum.as_slice()))
        }
    }

    /// The difference, digit by digit with borrow. A borrow out of the most
    /// significant digit is an overflow: `rhs` is the larger number.
    pub fn checked_sub(self, rhs: Self) -> (r: Result<Self, ArithmeticError>)
        ensures
            r is Ok <==> rhs.value() <= self.value(),
            r is Ok ==> r->Ok_0.value() == self.value() - rhs.value(),
            r is Err ==> r->Err_0 == ArithmeticError::CapacityOverflow,
    {
        let (difference, borrow) = sub_with_borrow(self.digits.as_slice(), rhs.digits.as_slice());
        if borrow {
            Err(ArithmeticError::CapacityOverflow)
        } else {
            Ok(Self::from_digits(difference.as_slice()))
        }
    }
}

impl<const SIZE: usize> Add for Uint<SIZE> {
    type Output = Self;

    /// The sum. The operands must be such that it fits the width.
    fn add(self, rhs: Self) -> (r: Self)
        ensures
            r.value() == self.value() + rhs.value(),
    {
        match self.checked_add(rhs) {
            Ok(sum) => {
                proof {
                    sum.lemma_value_decides(Self::with_value(sum.value()));
                }
                sum
            },
            Err(_) => vstd::pervasive::unreached(),
        }
    }
}

impl<const SIZE: usize> AddSpecImpl for Uint<SIZE> {
    open spec fn obeys_add_spec() -> bool {
        true
    }

    open spec fn add_req(self, rhs: Self) -> bool {
        self.value() + rhs.value() < Self::limit()
    }

    open spec fn add_spec(self, rhs: Self) -> Self {
        Self::with_value(self.value() + rhs.value())
    }
}

impl<const SIZE: usize> Sub for Uint<SIZE> {
    type Output = Self;

    /// The difference. `rhs` must not be the larger number.
    fn sub(self, rhs: Self) -> (r: Self)
        ensures
            r.value() == self.value() - rhs.value(),
    {
        match self.checked_sub(rhs) {
            Ok(difference) => {
                proof {
                    difference.lemma_value_decides(Self::with_value(difference.value()));
                }
                difference
            },
            Err(_) => vstd::pervasive::unreached(),
        }
    }
}

impl<const SIZE: usize> SubSpecImpl for Uint<SIZE> {
    open spec fn obeys_sub_spec() -> bool {
        true
    }

    open spec fn sub_req(self, rhs: Self) -> bool {
        rhs.value() <= self.value()
    }

    open spec fn sub_spec(self, rhs: Self) -> Self {
        Self::with_value((self.value() - rhs.value()) as nat)
    }
}

} // verus!
