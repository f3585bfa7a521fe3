//! Comparison of digit strings by value.

use vstd::prelude::*;
use crate::limbs::value_of;
use crate::limbs::lemmas::{lemma_value_injective, lemma_value_order, lemma_value_zero_iff};

verus! {

/// How one number stands to another.
#[derive(Clone, Copy, Debug, PartialEq, Eq, Structural)]
pub enum Comparison {
    Less,
    Equal,
    Greater,
}

/// How the number `x` stands to the number `y`.
pub open spec fn compare_values(x: nat, y: nat) -> Comparison {
    if x < y {
        Comparison::Less
    } else if x == y {
        Comparison::Equal
    } else {
        Comparison::Greater
    }
}

/// Compares two strings of one length by value: the first digit in which they
/// differ decides.
pub fn compare(a: &[u32], b: &[u32]) -> (r: Comparison)
    requires
        a@.len() == b@.len(),
    ensures
        r == compare_values(value_of(a@), value_of(b@)),
{
    let n = a.len();
    let mut i: usize = 0;
    while i < n
        invariant
            i <= n,
            n == a@.len(),
            n == b@.len(),
            forall|j: int| 0 <= j < i ==> a@[j] == b@[j],
        decreases n - i,
    {
        if a[i] < b[i] {
            proof {
                lemma_value_order(a@, b@, i as int);
            }
            return Comparison::Less;
        }
        if a[i] > b[i] {
            proof {
                lemma_value_order(b@, a@, i as int);
            }
            return Comparison::Greater;
        }
        i += 1;
    }
    proof {
        assert(a@ =~= b@);
    }
    Comparison::Equal
}

/// Whether two strings of one length denote one number.
pub fn equal(a: &[u32], b: &[u32]) -> (r: bool)
    requires
        a@.len() == b@.len(),
    ensures
        r <==> value_of(a@) == value_of(b@),
        r <==> a@ == b@,
{
    proof {
        if value_of(a@) == value_of(b@) {
            lemma_value_injective(a@, b@);
        }
    }
    compare(a, b) == Comparison::Equal
}

/// Whether a string denotes zero.
pub fn is_zero(a: &[u32]) -> (r: bool)
    ensures
        r <==> value_of(a@) == 0,
{
    let n = a.len();
    let mut i: usize = 0;
    while i < n
        invariant
            i <= n,
            n == a@.len(),
            forall|j: int| 0 <= j < i ==> a@[j] == 0,
        decreases n - i,
    {
        if a[i] != 0 {
            proof {
                lemma_value_zero_iff(a@);
            }
            return false;
        }
        i += 1;
    }
    proof {
        lemma_value_zero_iff(a@);
    }
    true
}

} // verus!
