//! Equality and order of fixed-width integers: by value.

use core::cmp::Ordering;
use vstd::prelude::*;
use vstd::std_specs::cmp::{PartialEqSpecImpl, PartialOrdSpecImpl};
use crate::limbs::compare::{compare, equal, is_zero, Comparison};
use crate::uint::Uint;

verus! {

impl<const SIZE: usize> PartialEq for Uint<SIZE> {
    fn eq(&self, other: &Self) -> (r: bool) {
        equal(self.digits.as_slice(), other.digits.as_slice())
    }
}

impl<const SIZE: usize> PartialEqSpecImpl for Uint<SIZE> {
    open spec fn obeys_eq_spec() -> bool {
        true
    }

    open spec fn eq_spec(&self, other: &Self) -> bool {
        self.value() == other.value()
    }
}

impl<const SIZE: usize> PartialOrd for Uint<SIZE> {
    fn partial_cmp(&self, other: &Self) -> (r: Option<Ordering>) {
        match compare(self.digits.as_slice(), other.digits.as_slice()) {
            Comparison::Less => Some(Ordering::Less),
            Comparison::Equal => Some(Ordering::Equal),
            Comparison::Greater => Some(Ordering::Greater),
        }
    }
}

impl<const SIZE: usize> PartialOrdSpecImpl for Uint<SIZE> {
    open spec fn obeys_partial_cmp_spec() -> bool {
        true
    }

    open spec fn partial_cmp_spec(&self, other: &Self) -> Option<Ordering> {
        if self.value() < other.value() {
            Some(Ordering::Less)
        } else if self.value() == other.value() {
            Some(Ordering::Equal)
        } else {
            Some(Ordering::Greater)
        }
    }
}

impl<const SIZE: usize> Uint<SIZE> {
    /// Whether the number is zero.
    pub fn is_zero(&self) -> (r: bool)
        ensures
            r <==> self.value() == 0,
    {
        is_zero(self.digits.as_slice())
    }

    /// How the number stands to another.
    pub fn compare(&self, other: &Self) -> (r: Comparison)
        ensures
            r == crate::limbs::compare::compare_values(self.value(), other.value()),
    {
        compare(self.digits.as_slice(), other.digits.as_slice())
    }
}

} // verus!
