//! Multiplication and division of rational numbers.

use core::ops::{Div, Mul};
use vstd::prelude::*;
use vstd::std_specs::ops::{DivSpecImpl, MulSpecImpl};
use crate::error::ArithmeticError;
use crate::limbs::radix_pow;
use crate::limbs::lemmas::lemma_radix_pow_adds;
use crate::rational::fraction::Fraction;
use crate::rational::Rational;

verus! {

impl<const S: usize> Mul for Rational<S> {
    type Output = Self;

    /// The product: numerators and denominators are multiplied at twice the
    /// width, where they always fit; the result is narrowed, then reduced.
    fn mul(self, rhs: Self) -> (r: Self)
        ensures
            r@ == self@.product(rhs@, S as nat),
    {
        let lhs = self.widened();
        let rhs = rhs.widened();
        proof {
            let p = radix_pow(S as nat);
            lemma_radix_pow_adds(S as nat, S as nat);
            assert(lhs@.num * rhs@.num < p * p) by (nonlinear_arith)
                requires
                    lhs@.num < p,
                    rhs@.num < p,
            ;
            assert(lhs@.den * rhs@.den < p * p) by (nonlinear_arith)
                requires
                    lhs@.den < p,
                    rhs@.den < p,
            ;
        }
        let num = crate::limbs::mul::mul(lhs.num.as_slice(), rhs.num.as_slice());
        let den = crate::limbs::mul::mul(lhs.den.as_slice(), rhs.den.as_slice());
        let product = match (num, den) {
            (Some(num), Some(den)) => Fraction { sign: lhs.sign * rhs.sign, num, den },
            _ => lhs,
        };
        let narrow = product.resized(S);
        let r = Self::from_fraction(&narrow).reduced();
        proof {
            r.lemma_view_decides(Self::with_view(r@));
        }
        r
    }
}

impl<const S: usize> MulSpecImpl for Rational<S> {
    open spec fn obeys_mul_spec() -> bool {
        true
    }

    open spec fn mul_req(self, rhs: Self) -> bool {
        true
    }

    open spec fn mul_spec(self, rhs: Self) -> Self {
        Self::with_view(self@.product(rhs@, S as nat))
    }
}

impl<const S: usize> Div for Rational<S> {
    type Output = Self;

    /// The quotient: the product with the reciprocal of `rhs`, whose numerator
    /// must not be zero.
    fn div(self, rhs: Self) -> (r: Self)
        ensures
            r@ == self@.quotient(rhs@, S as nat)->Some_0,
    {
        self * rhs.recip()
    }
}

impl<const S: usize> DivSpecImpl for Rational<S> {
    open spec fn obeys_div_spec() -> bool {
        true
    }

    open spec fn div_req(self, rhs: Self) -> bool {
        rhs@.num != 0
    }

    open spec fn div_spec(self, rhs: Self) -> Self {
        Self::with_view(self@.quotient(rhs@, S as nat)->Some_0)
    }
}

impl<const S: usize> Rational<S> {
    /// The quotient: the product with the reciprocal of `rhs`. `DivideByZero`
    /// where the numerator of `rhs` is zero.
    pub fn checked_div(self, rhs: Self) -> (r: Result<Self, ArithmeticError>)
        ensures
            r is Ok <==> self@.quotient(rhs@, S as nat) is Some,
            r is Ok ==> r->Ok_0@ == self@.quotient(rhs@, S as nat)->Some_0,
            r is Err ==> r->Err_0 == ArithmeticError::DivideByZero,
    {
        match rhs.checked_recip() {
            Ok(inverse) => Ok(self * inverse),
            Err(e) => Err(e),
        }
    }
}

} // verus!
