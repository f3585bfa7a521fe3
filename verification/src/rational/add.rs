//! Addition and subtraction of rational numbers.

use core::ops::{Add, Sub};
use vstd::prelude::*;
use vstd::std_specs::ops::{AddSpecImpl, SubSpecImpl};
use crate::error::ArithmeticError;
use crate::limbs::add::{add_with_carry, sub_with_borrow};
use crate::limbs::compare::{compare, Comparison};
use crate::limbs::lemmas::lemma_value_bound;
use crate::rational::fraction::{to_same_denominator, Fraction};
use crate::rational::Rational;
use crate::sign::Sign;

verus! {

impl<const S: usize> Rational<S> {
    /// The sum. The signs of the operands decide whether the magnitudes are added
    /// or the smaller is taken from the larger. `CapacityOverflow` where the sum
    /// of the numerators over the common denominator does not fit twice the
    /// width.
    pub fn checked_add(self, rhs: Self) -> (r: Result<Self, ArithmeticError>)
        ensures
            r is Ok <==> self@.sum(rhs@, S as nat) is Some,
            r is Ok ==> r->Ok_0@ == self@.sum(rhs@, S as nat)->Some_0,
            r is Err ==> r->Err_0 == ArithmeticError::CapacityOverflow,
    {
        let mut a = self;
        let mut b = rhs;
        match (self.sign, rhs.sign) {
            (Sign::Pos, Sign::Pos) => do_add_positive(a, b),
            (Sign::Neg, Sign::Neg) => {
                a.sign = Sign::Pos;
                b.sign = Sign::Pos;
                match do_add_positive(a, b) {
                    Ok(mut result) => {
                        result.sign = Sign::Neg;
                        Ok(result)
                    },
                    Err(e) => Err(e),
                }
            },
            (Sign::Pos, Sign::Neg) => {
                b.sign = Sign::Pos;
                Ok(do_sub_positive(a, b))
            },
            (Sign::Neg, Sign::Pos) => {
                a.sign = Sign::Pos;
                Ok(do_sub_positive(b, a))
            },
        }
    }

    /// The difference. The signs of the operands decide whether the magnitudes
    /// are added or the smaller is taken from the larger. `CapacityOverflow`
    /// where the sum of the numerators over the common denominator does not fit
    /// twice the width.
    pub fn checked_sub(self, rhs: Self) -> (r: Result<Self, ArithmeticError>)
        ensures
            r is Ok <==> self@.difference(rhs@, S as nat) is Some,
            r is Ok ==> r->Ok_0@ == self@.difference(rhs@, S as nat)->Some_0,
            r is Err ==> r->Err_0 == ArithmeticError::CapacityOverflow,
    {
        let mut a = self;
        let mut b = rhs;
        match (self.sign, rhs.sign) {
            (Sign::Pos, Sign::Pos) => Ok(do_sub_positive(a, b)),
            (Sign::Neg, Sign::Neg) => {
                // (-a) - (-b) = b - a
                a.sign = Sign::Pos;
                b.sign = Sign::Pos;
                Ok(do_sub_positive(b, a))
            },
            (Sign::Pos, Sign::Neg) => {
                // a - (-b) = a + b
                b.sign = Sign::Pos;
                do_add_positive(a, b)
            },
            (Sign::Neg, Sign::Pos) => {
                // (-a) - b = -(a + b)
                a.sign = Sign::Pos;
                match do_add_positive(a, b) {
                    Ok(mut result) => {
                        result.sign = Sign::Neg;
                        Ok(result)
                    },
                    Err(e) => Err(e),
                }
            },
        }
    }
}

impl<const S: usize> Add for Rational<S> {
    type Output = Self;

    /// The sum. The operands must be such that the sum of the numerators over the
    /// common denominator fits twice the width.
    fn add(self, rhs: Self) -> (r: Self)
        ensures
            r@ == self@.sum(rhs@, S as nat)->Some_0,
    {
        match self.checked_add(rhs) {
            Ok(sum) => {
                proof {
                    sum.lemma_view_decides(Self::with_view(sum@));
                }
                sum
            },
            Err(_) => vstd::pervasive::unreached(),
        }
    }
}

impl<const S: usize> AddSpecImpl for Rational<S> {
    open spec fn obeys_add_spec() -> bool {
        true
    }

    open spec fn add_req(self, rhs: Self) -> bool {
        self@.sum(rhs@, S as nat) is Some
    }

    open spec fn add_spec(self, rhs: Self) -> Self {
        Self::with_view(self@.sum(rhs@, S as nat)->Some_0)
    }
}

impl<const S: usize> Sub for Rational<S> {
    type Output = Self;

    /// The difference. The operands must be such that the sum of the numerators
    /// over the common denominator, where one is formed, fits twice the width.
    fn sub(self, rhs: Self) -> (r: Self)
        ensures
            r@ == self@.difference(rhs@, S as nat)->Some_0,
    {
        match self.checked_sub(rhs) {
            Ok(difference) => {
                proof {
                    difference.lemma_view_decides(Self::with_view(difference@));
                }
                difference
            },
            Err(_) => vstd::pervasive::unreached(),
        }
    }
}

impl<const S: usize> SubSpecImpl for Rational<S> {
    open spec fn obeys_sub_spec() -> bool {
        true
    }

    open spec fn sub_req(self, rhs: Self) -> bool {
        self@.difference(rhs@, S as nat) is Some
    }

    open spec fn sub_spec(self, rhs: Self) -> Self {
        Self::with_view(self@.difference(rhs@, S as nat)->Some_0)
    }
}

/// The sum of two positive numbers: over the common denominator at twice the
/// width, reduced, then narrowed.
pub fn do_add_positive<const S: usize>(a: Rational<S>, b: Rational<S>) -> (r: Result<
    Rational<S>,
    ArithmeticError,
>)
    requires
        a.sign == Sign::Pos,
        b.sign == Sign::Pos,
    ensures
        r is Ok <==> a@.add_positive(b@, S as nat) is Some,
        r is Ok ==> r->Ok_0@ == a@.add_positive(b@, S as nat)->Some_0,
        r is Err ==> r->Err_0 == ArithmeticError::CapacityOverflow,
{
    // in the worst case, the numerators need twice the width
    let mut wide_a = a.widened();
    let mut wide_b = b.widened();
    to_same_denominator(&mut wide_a, &mut wide_b);
    let (sum, carry) = add_with_carry(wide_a.num.as_slice(), wide_b.num.as_slice());
    proof {
        lemma_value_bound(sum@);
    }
    if carry {
        return Err(ArithmeticError::CapacityOverflow);
    }
    let total = Fraction { sign: Sign::Pos, num: sum, den: wide_a.den };
    let narrow = total.reduced().resized(S);
    Ok(Rational::from_fraction(&narrow))
}

/// The difference of two positive numbers: the smaller is taken from the larger
/// over the common denominator at twice the width, and the result is negative
/// where `b` is the larger; then reduced and narrowed.
pub fn do_sub_positive<const S: usize>(a: Rational<S>, b: Rational<S>) -> (r: Rational<S>)
    requires
        a.sign == Sign::Pos,
        b.sign == Sign::Pos,
    ensures
        r@ == a@.sub_positive(b@, S as nat),
{
    let mut wide_a = a.widened();
    let mut wide_b = b.widened();
    to_same_denominator(&mut wide_a, &mut wide_b);
    let swap = compare(wide_b.num.as_slice(), wide_a.num.as_slice()) == Comparison::Greater;
    let (difference, sign) = if swap {
        (sub_with_borrow(wide_b.num.as_slice(), wide_a.num.as_slice()).0, Sign::Neg)
    } else {
        (sub_with_borrow(wide_a.num.as_slice(), wide_b.num.as_slice()).0, Sign::Pos)
    };
    let total = Fraction { sign, num: difference, den: wide_a.den };
    let narrow = total.reduced().resized(S);
    Rational::from_fraction(&narrow)
}

} // verus!
