//! Multiplication of fixed-width integers.

use core::ops::Mul;
use vstd::prelude::*;
use vstd::std_specs::ops::MulSpecImpl;
use crate::error::ArithmeticError;
use crate::limbs::lemmas::lemma_value_bound;
use crate::limbs::mul::mul_digit;
use crate::uint::Uint;

verus! {

impl<const SIZE: usize> Uint<SIZE> {
    /// The product with a single digit, digit by digit with carry. A carry out of
    /// the most significant digit is an overflow.
    pub fn checked_mul_digit(self, rhs: u32) -> (r: Result<Self, ArithmeticError>)
        ensures
            r is Ok <==> self.value() * rhs < Self::limit(),
            r is Ok ==> r->Ok_0.value() == self.value() * rhs,
            r is Err ==> r->Err_0 == ArithmeticError::CapacityOverflow,
    {
        let (product, carry) = mul_digit(self.digits.as_slice(), rhs);
        proof {
            lemma_value_bound(product@);
            let p = Self::limit();
            if carry != 0 {
                assert(carry * p >= p) by (nonlinear_arith)
                    requires
                        carry >= 1,
                        p >= 0,
                ;
            } else {
                assert(0 * p == 0);
            }
        }
        if carry != 0 {
            Err(ArithmeticError::CapacityOverflow)
        } else {
            Ok(Self::from_digits(product.as_slice()))
        }
    }

    /// The product, by the schoolbook method. A product that does not fit the
    /// width is an overflow: widen the operands first where that can happen.
    pub fn checked_mul(self, rhs: Self) -> (r: Result<Self, ArithmeticError>)
        ensures
            r is Ok <==> self.value() * rhs.value() < Self::limit(),
            r is Ok ==> r->Ok_0.value() == self.value() * rhs.value(),
            r is Err ==> r->Err_0 == ArithmeticError::CapacityOverflow,
    {
        match crate::limbs::mul::mul(self.digits.as_slice(), rhs.digits.as_slice()) {
            Some(product) => Ok(Self::from_digits(product.as_slice())),
            None => Err(ArithmeticError::CapacityOverflow),
        }
    }
}

impl<const SIZE: usize> Mul<u32> for Uint<SIZE> {
    type Output = Self;

    /// The product with a single digit. The operands must be such that it fits
    /// the width.
    fn mul(self, rhs: u32) -> (r: Self)
        ensures
            r.value() == self.value() * rhs,
    {
        match self.checked_mul_digit(rhs) {
            Ok(product) => {
                proof {
                    product.lemma_value_decides(Self::with_value(product.value()));
                }
                product
            },
            Err(_) => vstd::pervasive::unreached(),
        }
    }
}

impl<const SIZE: usize> MulSpecImpl<u32> for Uint<SIZE> {
    open spec fn obeys_mul_spec() -> bool {
        true
    }

    open spec fn mul_req(self, rhs: u32) -> bool {
        self.value() * rhs < Self::limit()
    }

    open spec fn mul_spec(self, rhs: u32) -> Self {
        Self::with_value(self.value() * rhs as nat)
    }
}

impl<const SIZE: usize> Mul for Uint<SIZE> {
    type Output = Self;

    /// The product. The operands must be such that it fits the width.
    fn mul(self, rhs: Self) -> (r: Self)
        ensures
            r.value() == self.value() * rhs.value(),
    {
        match self.checked_mul(rhs) {
            Ok(product) => {
                proof {
                    product.lemma_value_decides(Self::with_value(product.value()));
                }
                product
            },
            Err(_) => vstd::pervasive::unreached(),
        }
    }
}

impl<const SIZE: usize> MulSpecImpl for Uint<SIZE> {
    open spec fn obeys_mul_spec() -> bool {
        true
    }

    open spec fn mul_req(self, rhs: Self) -> bool {
        self.value() * rhs.value() < Self::limit()
    }

    open spec fn mul_spec(self, rhs: Self) -> Self {
        Self::with_value(self.value() * rhs.value())
    }
}

} // verus!
