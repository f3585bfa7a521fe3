//! Unsigned integers of a fixed number of 32-bit digits.

use vstd::prelude::*;
use crate::limbs::{
    leading_index,
    leading_index_of,
    radix,
    radix_pow,
    resize,
    significant_len,
    value_of,
};
use crate::limbs::lemmas::{lemma_value_bound, lemma_value_injective, lemma_value_zero_iff};
use crate::limbs::shift::{
    shift_left_digits,
    shift_right_digits,
    trailing_zero_bits,
    trailing_zeros_of,
};

pub mod add;
pub mod base;
pub mod compare;
pub mod convert;
pub mod div;
pub mod gcd;
pub mod mul;
pub mod shift;

verus! {

/// An unsigned integer of `SIZE` digits of 32 bits, most significant first.
///
/// Every array of digits is a number: there is no normal form to keep.
#[derive(Clone, Copy, Debug, Eq, Ord)]
pub struct Uint<const SIZE: usize> {
    /// The digits, `digits[0]` the most significant.
    pub digits: [u32; SIZE],
}

impl<const SIZE: usize> View for Uint<SIZE> {
    type V = Seq<u32>;

    open spec fn view(&self) -> Seq<u32> {
        self.digits@
    }
}

impl<const SIZE: usize> Uint<SIZE> {
    /// The number that the digits denote.
    pub open spec fn value(&self) -> nat {
        value_of(self.digits@)
    }

    /// The first number that `SIZE` digits cannot hold, `2^(32*SIZE)`.
    pub open spec fn limit() -> nat {
        radix_pow(SIZE as nat)
    }

    /// Every number of this width is below `limit()`.
    pub proof fn lemma_value_below_limit(self)
        ensures
            self.value() < Self::limit(),
            self@.len() == SIZE,
    {
        lemma_value_bound(self.digits@);
    }

    /// Numbers of one width with one value have the same digits.
    pub proof fn lemma_value_decides(self, other: Self)
        ensures
            self.value() == other.value() <==> self == other,
    {
        if self.value() == other.value() {
            lemma_value_injective(self.digits@, other.digits@);
            assert(self.digits =~= other.digits);
        }
    }

    /// The number of this width with the value `v`, for `v` below `limit()`.
    pub open spec fn with_value(v: nat) -> Self {
        choose|u: Self| u.value() == v
    }

    /// Every value below `limit()` is the value of a number of this width.
    pub proof fn lemma_with_value(v: nat)
        requires
            v < Self::limit(),
        ensures
            Self::with_value(v).value() == v,
    {
        let width = SIZE as nat;
        let digits = digits_of(v, width);
        lemma_digits_of(v, width);
        lemma_array_exists::<SIZE>(digits, width);
        let array = choose|a: [u32; SIZE]| prefix_matches(a, digits, width);
        assert(array@ =~= digits);
        let u = Uint { digits: array };
        vstd::arithmetic::div_mod::lemma_small_mod(v, radix_pow(SIZE as nat));
        assert(u.value() == v);
    }

    /// The number with the given digits.
    pub fn new(digits: [u32; SIZE]) -> (r: Self)
        ensures
            r.digits == digits,
    {
        Uint { digits }
    }

    /// The number whose digits are those of a digit string of `SIZE` digits.
    pub fn from_digits(digits: &[u32]) -> (r: Self)
        requires
            digits@.len() == SIZE,
        ensures
            r@ == digits@,
    {
        let mut data = [0u32; SIZE];
        let mut i: usize = 0;
        while i < SIZE
            invariant
                i <= SIZE,
                digits@.len() == SIZE,
                forall|j: int| 0 <= j < i ==> data@[j] == digits@[j],
            decreases SIZE - i,
        {
            data[i] = digits[i];
            i += 1;
        }
        proof {
            assert(data@ =~= digits@);
        }
        Uint { digits: data }
    }

    /// Zero.
    pub fn zero() -> (r: Self)
        ensures
            r.value() == 0,
    {
        let r = Uint { digits: [0u32; SIZE] };
        proof {
            lemma_value_zero_iff(r.digits@);
        }
        r
    }

    /// One.
    pub fn one() -> (r: Self)
        requires
            SIZE >= 1,
        ensures
            r.value() == 1,
    {
        Self::from_u32(1)
    }

    /// Two.
    pub fn two() -> (r: Self)
        requires
            SIZE >= 1,
        ensures
            r.value() == 2,
    {
        Self::from_u32(2)
    }

    /// The largest number of this width: every digit at its maximum.
    pub fn max_value() -> (r: Self)
        ensures
            r.value() == Self::limit() - 1,
            forall|i: int| 0 <= i < SIZE ==> r@[i] == u32::MAX,
    {
        let r = Uint { digits: [u32::MAX; SIZE] };
        proof {
            lemma_value_all_max(r.digits@);
        }
        r
    }

    /// Converts to another width as a cast between integer types does: a wider
    /// number gets zeros in front, a narrower one loses its most significant
    /// digits.
    pub fn resized<const NEW_SIZE: usize>(self) -> (r: Uint<NEW_SIZE>)
        ensures
            r.value() == self.value() % Uint::<NEW_SIZE>::limit(),
            NEW_SIZE >= SIZE ==> r.value() == self.value(),
    {
        let digits = resize(self.digits.as_slice(), NEW_SIZE);
        proof {
            if NEW_SIZE >= SIZE {
                lemma_value_bound(self.digits@);
                crate::limbs::lemmas::lemma_radix_pow_monotonic(SIZE as nat, NEW_SIZE as nat);
                vstd::arithmetic::div_mod::lemma_small_mod(self.value(), radix_pow(NEW_SIZE as nat));
            }
        }
        Uint::<NEW_SIZE>::from_digits(digits.as_slice())
    }

    /// The index of the most significant digit that is not zero; `SIZE - 1` for
    /// zero.
    pub fn msd_idx(&self) -> (r: usize)
        requires
            SIZE >= 1,
        ensures
            r == leading_index(self@),
            r < SIZE,
            forall|i: int| 0 <= i < r ==> self@[i] == 0,
            self.value() != 0 ==> self@[r as int] != 0,
    {
        proof {
            crate::limbs::lemmas::lemma_leading_index(self.digits@);
        }
        leading_index_of(self.digits.as_slice())
    }

    /// The most significant digit that is not zero; 0 for zero.
    pub fn msd(&self) -> (r: u32)
        requires
            SIZE >= 1,
        ensures
            r == self@[leading_index(self@) as int],
            r == 0 <==> self.value() == 0,
    {
        proof {
            crate::limbs::lemmas::lemma_leading_index(self.digits@);
        }
        let at = self.msd_idx();
        self.digits[at]
    }

    /// The digits from the most significant one that is not zero to the end; the
    /// single digit 0 for zero.
    pub fn digits_be(&self) -> (r: &[u32])
        requires
            SIZE >= 1,
        ensures
            r@ == self@.subrange(leading_index(self@) as int, SIZE as int),
            r@.len() == significant_len(self@),
            value_of(r@) == self.value(),
    {
        proof {
            crate::limbs::lemmas::lemma_significant_len_bounds(self.digits@);
        }
        let at = self.msd_idx();
        vstd::slice::slice_subrange(self.digits.as_slice(), at, SIZE)
    }

    /// The count of digits from the most significant one that is not zero to the
    /// end; 1 for zero.
    pub fn significant_digits(&self) -> (r: usize)
        requires
            SIZE >= 1,
        ensures
            r == significant_len(self@),
            1 <= r <= SIZE,
            self.value() < radix_pow(r as nat),
            self.value() != 0 ==> self.value() >= radix_pow((r - 1) as nat),
    {
        proof {
            crate::limbs::lemmas::lemma_significant_len_bounds(self.digits@);
        }
        SIZE - self.msd_idx()
    }

    /// Moves the digits `n` places towards the most significant end and fills the
    /// low end with zeros: a multiplication by `2^(32*n)` that keeps the low
    /// `SIZE` digits.
    pub fn shl_digits(&mut self, n: usize)
        ensures
            final(self).value() == (old(self).value() * radix_pow(n as nat)) % Self::limit(),
    {
        let moved = shift_left_digits(self.digits.as_slice(), n);
        *self = Self::from_digits(moved.as_slice());
    }

    /// Moves the digits `n` places towards the least significant end and fills
    /// the high end with zeros: a division by `2^(32*n)`.
    pub fn shr_digits(&mut self, n: usize)
        ensures
            final(self).value() == old(self).value() / radix_pow(n as nat),
    {
        let moved = shift_right_digits(self.digits.as_slice(), n);
        *self = Self::from_digits(moved.as_slice());
    }

    /// Puts a digit behind the others, which move up by one place; the most
    /// significant digit is lost.
    pub fn push_lsd(&mut self, lsd: u32)
        requires
            SIZE >= 1,
        ensures
            final(self).value() == (old(self).value() * radix()) % Self::limit() + lsd,
            final(self)@ == old(self)@.subrange(1, SIZE as int).push(lsd),
    {
        let ghost before = self.digits@;
        self.shl_digits(1);
        proof {
            crate::limbs::lemmas::lemma_radix_pow_one();
            // the digits are fixed by the value
            let moved = before.subrange(1, SIZE as int) + crate::limbs::zero_digits(1);
            lemma_shifted_value(before);
            lemma_value_injective(self.digits@, moved);
        }
        let ghost moved = self.digits@;
        self.digits[SIZE - 1] = lsd;
        proof {
            assert(self.digits@ =~= before.subrange(1, SIZE as int).push(lsd));
            assert(self.digits@.drop_last() =~= moved.drop_last());
            assert(moved.last() == 0);
        }
    }

    /// The count of trailing zero bits; `32*SIZE` for zero.
    pub fn trailing_zeros(&self) -> (r: u32)
        requires
            SIZE * 32 <= u32::MAX,
        ensures
            r == (if self.value() == 0 {
                (SIZE * 32) as nat
            } else {
                trailing_zeros_of(self.value())
            }),
    {
        trailing_zero_bits(self.digits.as_slice())
    }
}

/// The `n` low digits of `v`, most significant first.
pub open spec fn digits_of(v: nat, n: nat) -> Seq<u32>
    decreases n,
{
    if n == 0 {
        Seq::empty()
    } else {
        digits_of(v / radix(), (n - 1) as nat).push((v % radix()) as u32)
    }
}

/// The `n` low digits of `v` denote `v` without what lies above them.
pub proof fn lemma_digits_of(v: nat, n: nat)
    ensures
        digits_of(v, n).len() == n,
        value_of(digits_of(v, n)) == v % radix_pow(n),
    decreases n,
{
    if n == 0 {
        assert(v % 1 == 0);
    } else {
        let high = digits_of(v / radix(), (n - 1) as nat);
        lemma_digits_of(v / radix(), (n - 1) as nat);
        assert(digits_of(v, n).drop_last() =~= high);
        crate::limbs::lemmas::lemma_radix_pow_positive((n - 1) as nat);
        vstd::arithmetic::div_mod::lemma_mod_breakdown(
            v as int,
            radix() as int,
            radix_pow((n - 1) as nat) as int,
        );
        let p = radix_pow((n - 1) as nat);
        let x = (v / radix()) % p;
        assert(x * radix() == radix() * x) by (nonlinear_arith);
    }
}

/// The first `k` digits of the array are those of the string.
spec fn prefix_matches<const N: usize>(a: [u32; N], digits: Seq<u32>, k: nat) -> bool {
    forall|i: int| 0 <= i < k ==> a@[i] == digits[i]
}

/// For every string of `N` digits there is an array with these digits.
proof fn lemma_array_exists<const N: usize>(digits: Seq<u32>, k: nat)
    requires
        digits.len() == N,
        k <= N,
    ensures
        exists|a: [u32; N]| prefix_matches(a, digits, k),
    decreases k,
{
    if k == 0 {
        let a = vstd::array::spec_array_fill_for_copy_type::<u32, N>(0u32);
        assert(prefix_matches(a, digits, 0));
    } else {
        let shorter = (k - 1) as nat;
        lemma_array_exists::<N>(digits, shorter);
        let before = choose|a: [u32; N]| prefix_matches(a, digits, shorter);
        let a = vstd::array::spec_array_update(before, k - 1, digits[k - 1]);
        assert(prefix_matches(a, digits, k));
    }
}

/// A string of digits that are all at their maximum denotes `radix()^len - 1`.
pub proof fn lemma_value_all_max(s: Seq<u32>)
    requires
        forall|i: int| 0 <= i < s.len() ==> s[i] == u32::MAX,
    ensures
        value_of(s) == radix_pow(s.len()) - 1,
    decreases s.len(),
{
    if s.len() > 0 {
        lemma_value_all_max(s.drop_last());
        let p = radix_pow((s.len() - 1) as nat);
        assert((p - 1) * radix() + (radix() - 1) == radix() * p - 1) by (nonlinear_arith);
    }
}

/// The value of a string moved up by one digit, with a zero behind it.
proof fn lemma_shifted_value(s: Seq<u32>)
    requires
        s.len() >= 1,
    ensures
        value_of(s.subrange(1, s.len() as int) + crate::limbs::zero_digits(1)) == (value_of(s)
            * radix_pow(1)) % radix_pow(s.len()),
{
    let n = s.len();
    let low = s.subrange(1, n as int);
    let moved = low + crate::limbs::zero_digits(1);
    crate::limbs::lemmas::lemma_value_concat(low, crate::limbs::zero_digits(1));
    crate::limbs::lemmas::lemma_value_zero_digits(1);
    crate::limbs::lemmas::lemma_value_head(s);
    crate::limbs::lemmas::lemma_radix_pow_one();
    lemma_value_bound(moved);
    let p = radix_pow((n - 1) as nat);
    let h = s[0] as nat;
    assert((h * p + value_of(low)) * radix() == h * (radix() * p) + value_of(low) * radix())
        by (nonlinear_arith);
    vstd::arithmetic::div_mod::lemma_fundamental_div_mod_converse(
        (value_of(s) * radix()) as int,
        radix_pow(n) as int,
        h as int,
        value_of(moved) as int,
    );
}

} // verus!
