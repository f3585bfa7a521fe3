//! Greatest common divisor and least common multiple of fixed-width integers.

use vstd::prelude::*;
use crate::error::ArithmeticError;
use crate::limbs::gcd::{
    divides,
    gcd,
    gcd_binary,
    gcd_euclidean,
    lemma_divides_bound,
    lemma_divides_iff_mod,
    lemma_gcd_divides,
    lemma_gcd_greatest,
};
use crate::uint::Uint;

verus! {

/// What makes `gcd(a, b)` the greatest common divisor: it divides `a` and `b`,
/// every common divisor of `a` and `b` divides it, and, unless both are zero, none
/// is larger.
pub proof fn lemma_gcd_is_greatest_common_divisor(a: nat, b: nat)
    ensures
        divides(gcd(a, b), a),
        divides(gcd(a, b), b),
        forall|d: nat| divides(d, a) && divides(d, b) ==> #[trigger] divides(d, gcd(a, b)),
        a != 0 || b != 0 ==> gcd(a, b) != 0 && forall|d: nat|
            divides(d, a) && #[trigger] divides(d, b) ==> d <= gcd(a, b),
        a != 0 || b != 0 ==> a % gcd(a, b) == 0 && b % gcd(a, b) == 0,
        a == 0 && b == 0 ==> gcd(a, b) == 0,
{
    lemma_gcd_divides(a, b);
    assert forall|d: nat| divides(d, a) && divides(d, b) implies #[trigger] divides(
        d,
        gcd(a, b),
    ) by {
        lemma_gcd_greatest(a, b, d);
    }
    if a != 0 || b != 0 {
        if a != 0 {
            lemma_divides_bound(gcd(a, b), a);
        } else {
            lemma_divides_bound(gcd(a, b), b);
        }
        lemma_divides_iff_mod(gcd(a, b), a);
        lemma_divides_iff_mod(gcd(a, b), b);
        assert forall|d: nat| divides(d, a) && #[trigger] divides(d, b) implies d <= gcd(a, b) by {
            lemma_gcd_greatest(a, b, d);
            lemma_divides_bound(d, gcd(a, b));
        }
    }
}

impl<const S: usize> Uint<S> {
    /// The greatest common divisor by Euclid's method of repeated division.
    pub fn gcd_euclidean(self, other: Self) -> (r: Self)
        ensures
            r.value() == gcd(self.value(), other.value()),
    {
        let digits = gcd_euclidean(self.digits.as_slice(), other.digits.as_slice());
        Self::from_digits(digits.as_slice())
    }

    /// The greatest common divisor by the binary method, which shifts and
    /// subtracts and never divides.
    pub fn gcd_binary(self, other: Self) -> (r: Self)
        ensures
            r.value() == gcd(self.value(), other.value()),
    {
        let digits = gcd_binary(self.digits.as_slice(), other.digits.as_slice());
        Self::from_digits(digits.as_slice())
    }

    /// The least common multiple, as the product divided by the greatest common
    /// divisor. The product is formed at this width and must fit it, and the two
    /// numbers must not both be zero.
    pub fn lcm(self, other: Self) -> (r: Self)
        requires
            self.value() * other.value() < Self::limit(),
            self.value() != 0 || other.value() != 0,
        ensures
            r.value() == (self.value() * other.value()) / gcd(self.value(), other.value()),
    {
        proof {
            lemma_gcd_is_greatest_common_divisor(self.value(), other.value());
        }
        (self * other) / self.gcd_euclidean(other)
    }

    /// The least common multiple, as the product divided by the greatest common
    /// divisor. The product is formed at this width: where it does not fit, the
    /// result is `CapacityOverflow`; for two zeros it is `DivideByZero`.
    pub fn checked_lcm(self, other: Self) -> (r: Result<Self, ArithmeticError>)
        ensures
            r is Ok <==> self.value() * other.value() < Self::limit() && (self.value() != 0
                || other.value() != 0),
            r is Ok ==> r->Ok_0.value() == (self.value() * other.value()) / gcd(
                self.value(),
                other.value(),
            ),
            r is Err ==> r->Err_0 == (if self.value() * other.value() >= Self::limit() {
                ArithmeticError::CapacityOverflow
            } else {
                ArithmeticError::DivideByZero
            }),
    {
        proof {
            lemma_gcd_is_greatest_common_divisor(self.value(), other.value());
        }
        match self.checked_mul(other) {
            Ok(product) => product.checked_div(self.gcd_euclidean(other)),
            Err(e) => Err(e),
        }
    }
}

} // verus!
