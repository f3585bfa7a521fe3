//! Rational numbers: a sign, a numerator and a denominator of one fixed width.

use vstd::prelude::*;
use crate::error::ArithmeticError;
use crate::limbs::widen;
use crate::limbs::compare::{compare, equal, Comparison};
use crate::limbs::lemmas::lemma_value_bound;
use crate::rational::fraction::{to_same_denominator, Fraction};
use crate::rational::model::Ratio;
use crate::sign::Sign;
use crate::uint::Uint;

pub mod add;
pub mod compare;
pub mod convert;
pub mod fraction;
pub mod laws;
pub mod model;
pub mod mul;

verus! {

/// A rational number: `num / den` with the given sign, numerator and denominator
/// of `S` digits each.
///
/// The denominator is meant not to be zero; nothing checks that. A value need not
/// be in lowest terms, but what the arithmetic returns has been reduced.
#[derive(Clone, Copy, Debug)]
pub struct Rational<const S: usize> {
    /// The numerator.
    pub num: Uint<S>,
    /// The denominator.
    pub den: Uint<S>,
    /// The sign.
    pub sign: Sign,
}

impl<const S: usize> View for Rational<S> {
    type V = Ratio;

    open spec fn view(&self) -> Ratio {
        Ratio { sign: self.sign, num: self.num.value(), den: self.den.value() }
    }
}

impl<const S: usize> Rational<S> {
    /// Numerator and denominator of every value fit in `S` digits.
    pub proof fn lemma_fits(self)
        ensures
            self@.fits(S as nat),
    {
        lemma_value_bound(self.num.digits@);
        lemma_value_bound(self.den.digits@);
    }

    /// Numbers with one sign, one numerator and one denominator are the same.
    pub proof fn lemma_view_decides(self, other: Self)
        ensures
            self@ == other@ <==> self == other,
    {
        self.num.lemma_value_decides(other.num);
        self.den.lemma_value_decides(other.den);
    }

    /// The number of this width with the given sign, numerator and denominator,
    /// which must fit the width.
    pub open spec fn with_view(r: Ratio) -> Self {
        choose|x: Self| x@ == r
    }

    /// Every ratio that fits the width is a number of this width.
    pub proof fn lemma_with_view(r: Ratio)
        requires
            r.fits(S as nat),
        ensures
            Self::with_view(r)@ == r,
    {
        Uint::<S>::lemma_with_value(r.num);
        Uint::<S>::lemma_with_value(r.den);
        let x = Rational {
            sign: r.sign,
            num: Uint::<S>::with_value(r.num),
            den: Uint::<S>::with_value(r.den),
        };
        assert(x@ == r);
    }

    /// The number `num / den` with the given sign.
    pub fn new(sign: Sign, num: Uint<S>, den: Uint<S>) -> (r: Self)
        ensures
            r.sign == sign,
            r.num == num,
            r.den == den,
    {
        Rational { sign, num, den }
    }

    /// Zero: `0 / 1`, positive.
    pub fn zero() -> (r: Self)
        requires
            S >= 1,
        ensures
            r@ == (Ratio { sign: Sign::Pos, num: 0, den: 1 }),
    {
        Rational { sign: Sign::Pos, num: Uint::from_u32(0), den: Uint::from_u32(1) }
    }

    /// One: `1 / 1`, positive.
    pub fn one() -> (r: Self)
        requires
            S >= 1,
        ensures
            r@ == (Ratio { sign: Sign::Pos, num: 1, den: 1 }),
    {
        Rational { sign: Sign::Pos, num: Uint::from_u32(1), den: Uint::from_u32(1) }
    }

    /// The fraction with the same sign, numerator and denominator, at the same
    /// width.
    pub fn to_fraction(&self) -> (r: Fraction)
        ensures
            r.wf(),
            r.width() == S,
            r@ == self@,
    {
        Fraction {
            sign: self.sign,
            num: widen(self.num.digits.as_slice(), 0),
            den: widen(self.den.digits.as_slice(), 0),
        }
    }

    /// The fraction with the same sign, numerator and denominator, at twice the
    /// width.
    pub fn widened(&self) -> (r: Fraction)
        ensures
            r.wf(),
            r.width() == 2 * S,
            r@ == self@,
            r@.fits(r.width() / 2),
    {
        proof {
            self.lemma_fits();
        }
        Fraction {
            sign: self.sign,
            num: widen(self.num.digits.as_slice(), S),
            den: widen(self.den.digits.as_slice(), S),
        }
    }

    /// The rational number with the sign, numerator and denominator of a fraction
    /// of `S` digits.
    pub fn from_fraction(f: &Fraction) -> (r: Self)
        requires
            f.wf(),
            f.width() == S,
        ensures
            r@ == f@,
    {
        Rational {
            sign: f.sign,
            num: Uint::from_digits(f.num.as_slice()),
            den: Uint::from_digits(f.den.as_slice()),
        }
    }

    /// The number in lowest terms.
    pub fn reduced(self) -> (r: Self)
        ensures
            r@ == self@.reduced(),
    {
        let lowest = self.to_fraction().reduced();
        Self::from_fraction(&lowest)
    }

    /// The reciprocal: numerator and denominator exchanged, the sign kept. The
    /// numerator must not be zero.
    pub fn recip(self) -> (r: Self)
        requires
            self@.num != 0,
        ensures
            r@ == self@.reciprocal(),
            r.num == self.den,
            r.den == self.num,
            r.sign == self.sign,
    {
        match self.checked_recip() {
            Ok(inverse) => inverse,
            Err(_) => vstd::pervasive::unreached(),
        }
    }

    /// The reciprocal: numerator and denominator exchanged, the sign kept.
    /// `DivideByZero` where the numerator is zero.
    pub fn checked_recip(self) -> (r: Result<Self, ArithmeticError>)
        ensures
            r is Err <==> self@.num == 0,
            r is Err ==> r->Err_0 == ArithmeticError::DivideByZero,
            r is Ok ==> r->Ok_0@ == self@.reciprocal(),
            r is Ok ==> r->Ok_0.num == self.den && r->Ok_0.den == self.num && r->Ok_0.sign
                == self.sign,
    {
        if self.num.is_zero() {
            return Err(ArithmeticError::DivideByZero);
        }
        Ok(Rational { num: self.den, den: self.num, sign: self.sign })
    }

    /// The number at another width. Where numerator or denominator has more
    /// significant digits than the new width, both lose as many low digits as
    /// the longer has too many: the value is rounded, to the precision of whole
    /// digits.
    pub fn resized<const NEW_S: usize>(self) -> (r: Rational<NEW_S>)
        ensures
            r@ == self@.resized(NEW_S as nat),
    {
        let narrow = self.to_fraction().resized(NEW_S);
        Rational::<NEW_S>::from_fraction(&narrow)
    }

    /// How the number stands to another: the sign decides first; for equal signs
    /// both are brought to one denominator at twice the width and the numerators
    /// decide, the other way round for negative numbers.
    pub fn compare(&self, other: &Self) -> (r: Comparison)
        ensures
            r == self@.compare(other@),
    {
        match (self.sign, other.sign) {
            (Sign::Neg, Sign::Pos) => {
                return Comparison::Less;
            },
            (Sign::Pos, Sign::Neg) => {
                return Comparison::Greater;
            },
            _ => {},
        }
        let mut a = self.widened();
        let mut b = other.widened();
        to_same_denominator(&mut a, &mut b);
        if self.sign.is_negative() {
            compare(b.num.as_slice(), a.num.as_slice())
        } else {
            compare(a.num.as_slice(), b.num.as_slice())
        }
    }

    /// Whether the number equals another: the signs are the same, and so are the
    /// numerators once both are brought to one denominator at twice the width.
    pub fn equals(&self, other: &Self) -> (r: bool)
        ensures
            r == self@.equals(other@),
    {
        if self.sign != other.sign {
            return false;
        }
        let mut a = self.widened();
        let mut b = other.widened();
        to_same_denominator(&mut a, &mut b);
        equal(a.num.as_slice(), b.num.as_slice())
    }
}

} // verus!
