//! Division with remainder of fixed-width integers.

use core::ops::{Div, Rem};
use vstd::prelude::*;
use vstd::std_specs::ops::{DivSpecImpl, RemSpecImpl};
use crate::error::ArithmeticError;
use crate::limbs::div::{div_rem, lemma_quotient_bounds};
use crate::uint::Uint;

verus! {

/// `a / 1 == a` and `a % 1 == 0`; for `a` that is not zero, `a / a == 1` and
/// `a % a == 0`.
pub proof fn lemma_division_by_one_and_self(a: nat)
    ensures
        a / 1 == a,
        a % 1 == 0,
        a != 0 ==> a / a == 1 && a % a == 0,
{
    if a != 0 {
        vstd::arithmetic::div_mod::lemma_div_by_self(a as int);
        vstd::arithmetic::div_mod::lemma_mod_self_0(a as int);
    }
}

/// For a divisor `b` that is not zero, quotient and remainder make up the
/// dividend, `a == (a / b) * b + a % b`, and the remainder is below the divisor.
pub proof fn lemma_division_recomposes(a: nat, b: nat)
    requires
        b != 0,
    ensures
        a == (a / b) * b + a % b,
        a % b < b,
{
    lemma_quotient_bounds(a, b);
}

impl<const SIZE: usize> Uint<SIZE> {
    /// Divides `self` by `b`, which must not be zero: the quotient and the
    /// remainder.
    pub fn div_rem(self, b: Self) -> (r: (Self, Self))
        requires
            b.value() != 0,
        ensures
            r.0.value() == self.value() / b.value(),
            r.1.value() == self.value() % b.value(),
            self.value() == r.0.value() * b.value() + r.1.value(),
            r.1.value() < b.value(),
    {
        match self._div_rem::<true>(b) {
            Ok(pair) => pair,
            Err(_) => vstd::pervasive::unreached(),
        }
    }

    /// Divides `self` by `b`: the quotient and the remainder, or `DivideByZero`
    /// for `b == 0`.
    pub fn checked_div_rem(self, b: Self) -> (r: Result<(Self, Self), ArithmeticError>)
        ensures
            r is Err <==> b.value() == 0,
            r is Err ==> r->Err_0 == ArithmeticError::DivideByZero,
            r is Ok ==> {
                &&& r->Ok_0.0.value() == self.value() / b.value()
                &&& r->Ok_0.1.value() == self.value() % b.value()
                &&& self.value() == r->Ok_0.0.value() * b.value() + r->Ok_0.1.value()
                &&& r->Ok_0.1.value() < b.value()
            },
    {
        self._div_rem::<true>(b)
    }

    /// The quotient of `self` by `b`, or `DivideByZero` for `b == 0`.
    pub fn checked_div(self, b: Self) -> (r: Result<Self, ArithmeticError>)
        ensures
            r is Err <==> b.value() == 0,
            r is Err ==> r->Err_0 == ArithmeticError::DivideByZero,
            r is Ok ==> r->Ok_0.value() == self.value() / b.value(),
    {
        match self._div_rem::<false>(b) {
            Ok((quotient, _)) => Ok(quotient),
            Err(e) => Err(e),
        }
    }

    /// The remainder of `self` by `b`, or `DivideByZero` for `b == 0`.
    pub fn checked_rem(self, b: Self) -> (r: Result<Self, ArithmeticError>)
        ensures
            r is Err <==> b.value() == 0,
            r is Err ==> r->Err_0 == ArithmeticError::DivideByZero,
            r is Ok ==> r->Ok_0.value() == self.value() % b.value() && r->Ok_0.value() < b.value(),
    {
        match self._div_rem::<true>(b) {
            Ok((_, remainder)) => Ok(remainder),
            Err(e) => Err(e),
        }
    }

    /// `REM` says whether the remainder is wanted. Where it is not, no work is
    /// spent on it: it is zero unless the division was answered at once, for a
    /// divisor of one or a dividend that is not above the divisor.
    fn _div_rem<const REM: bool>(self, b: Self) -> (r: Result<(Self, Self), ArithmeticError>)
        ensures
            r is Err <==> b.value() == 0,
            r is Err ==> r->Err_0 == ArithmeticError::DivideByZero,
            r is Ok ==> r->Ok_0.0.value() == self.value() / b.value(),
            r is Ok && REM ==> {
                &&& r->Ok_0.1.value() == self.value() % b.value()
                &&& self.value() == r->Ok_0.0.value() * b.value() + r->Ok_0.1.value()
                &&& r->Ok_0.1.value() < b.value()
            },
            r is Ok && !REM ==> r->Ok_0.1.value() == (if b.value() == 1 || self.value()
                <= b.value() {
                self.value() % b.value()
            } else {
                0
            }),
    {
        if b.is_zero() {
            return Err(ArithmeticError::DivideByZero);
        }
        let (quotient, remainder) = div_rem(self.digits.as_slice(), b.digits.as_slice(), REM);
        proof {
            lemma_quotient_bounds(self.value(), b.value());
        }
        Ok((Self::from_digits(quotient.as_slice()), Self::from_digits(remainder.as_slice())))
    }
}

impl<const SIZE: usize> Div for Uint<SIZE> {
    type Output = Self;

    /// The quotient. The divisor must not be zero.
    fn div(self, rhs: Self) -> (r: Self)
        ensures
            r.value() == self.value() / rhs.value(),
    {
        match self._div_rem::<false>(rhs) {
            Ok((quotient, _)) => {
                proof {
                    quotient.lemma_value_decides(Self::with_value(quotient.value()));
                }
                quotient
            },
            Err(_) => vstd::pervasive::unreached(),
        }
    }
}

impl<const SIZE: usize> DivSpecImpl for Uint<SIZE> {
    open spec fn obeys_div_spec() -> bool {
        true
    }

    open spec fn div_req(self, rhs: Self) -> bool {
        rhs.value() != 0
    }

    open spec fn div_spec(self, rhs: Self) -> Self {
        Self::with_value(self.value() / rhs.value())
    }
}

impl<const SIZE: usize> Rem for Uint<SIZE> {
    type Output = Self;

    /// The remainder. The divisor must not be zero.
    fn rem(self, rhs: Self) -> (r: Self)
        ensures
            r.value() == self.value() % rhs.value(),
            r.value() < rhs.value(),
    {
        match self._div_rem::<true>(rhs) {
            Ok((_, remainder)) => {
                proof {
                    remainder.lemma_value_decides(Self::with_value(remainder.value()));
                }
                remainder
            },
            Err(_) => vstd::pervasive::unreached(),
        }
    }
}

impl<const SIZE: usize> RemSpecImpl for Uint<SIZE> {
    open spec fn obeys_rem_spec() -> bool {
        true
    }

    open spec fn rem_req(self, rhs: Self) -> bool {
        rhs.value() != 0
    }

    open spec fn rem_spec(self, rhs: Self) -> Self {
        Self::with_value(self.value() % rhs.value())
    }
}

} // verus!
