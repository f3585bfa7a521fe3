//! Shifts of fixed-width integers by a count of bits.

use core::ops::{Shl, Shr};
use vstd::prelude::*;
use vstd::arithmetic::power2::pow2;
use vstd::std_specs::ops::{ShlSpecImpl, ShrSpecImpl};
use crate::limbs::shift::{shift_left, shift_right};
use crate::uint::Uint;

verus! {

impl<const SIZE: usize> Shl<u64> for Uint<SIZE> {
    type Output = Self;

    /// Shifts to the left by `rhs` bits: a multiplication by `2^rhs` that keeps
    /// the low `SIZE` digits.
    fn shl(self, rhs: u64) -> (r: Self)
        ensures
            r.value() == (self.value() * pow2(rhs as nat)) % Self::limit(),
    {
        let moved = shift_left(self.digits.as_slice(), rhs);
        let r = Self::from_digits(moved.as_slice());
        proof {
            r.lemma_value_decides(Self::with_value(r.value()));
        }
        r
    }
}

impl<const SIZE: usize> ShlSpecImpl<u64> for Uint<SIZE> {
    open spec fn obeys_shl_spec() -> bool {
        true
    }

    open spec fn shl_req(self, rhs: u64) -> bool {
        true
    }

    open spec fn shl_spec(self, rhs: u64) -> Self {
        Self::with_value(((self.value() * pow2(rhs as nat)) % Self::limit()) as nat)
    }
}

impl<const SIZE: usize> Shr<u64> for Uint<SIZE> {
    type Output = Self;

    /// Shifts to the right by `rhs` bits: a division by `2^rhs`.
    fn shr(self, rhs: u64) -> (r: Self)
        ensures
            r.value() == self.value() / pow2(rhs as nat),
    {
        let moved = shift_right(self.digits.as_slice(), rhs);
        let r = Self::from_digits(moved.as_slice());
        proof {
            r.lemma_value_decides(Self::with_value(r.value()));
        }
        r
    }
}

impl<const SIZE: usize> ShrSpecImpl<u64> for Uint<SIZE> {
    open spec fn obeys_shr_spec() -> bool {
        true
    }

    open spec fn shr_req(self, rhs: u64) -> bool {
        true
    }

    open spec fn shr_spec(self, rhs: u64) -> Self {
        Self::with_value(self.value() / pow2(rhs as nat))
    }
}

} // verus!
