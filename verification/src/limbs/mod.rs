//! Digit strings: sequences of 32-bit digits, most significant first, and the
//! natural number each one denotes. Every algorithm of the crate is stated
//! over this model.

use vstd::prelude::*;
use vstd::arithmetic::div_mod::{lemma_fundamental_div_mod_converse, lemma_small_mod};
use crate::limbs::lemmas::{
    lemma_leading_index_unique,
    lemma_radix_pow_positive,
    lemma_value_bound,
    lemma_value_concat,
    lemma_value_split,
    lemma_value_zero_digits,
};

pub mod add;
pub mod compare;
pub mod div;
pub mod gcd;
pub mod mul;
pub mod shift;
pub mod lemmas;

verus! {

/// The radix of one digit, 2^32.
pub open spec fn radix() -> nat {
    0x1_0000_0000
}

/// `radix()` to the power `n`.
pub open spec fn radix_pow(n: nat) -> nat
    decreases n,
{
    if n == 0 {
        1
    } else {
        radix() * radix_pow((n - 1) as nat)
    }
}

/// The number that a digit string denotes: the sum of `s[i] * radix()^(len - 1 - i)`.
pub open spec fn value_of(s: Seq<u32>) -> nat
    decreases s.len(),
{
    if s.len() == 0 {
        0
    } else {
        value_of(s.drop_last()) * radix() + s.last() as nat
    }
}

/// The index of the first digit that is not zero, or `len - 1` where there is none
/// (0 for the empty string).
pub open spec fn leading_index(s: Seq<u32>) -> nat
    decreases s.len(),
{
    if s.len() <= 1 {
        0
    } else if s[0] != 0 {
        0
    } else {
        1 + leading_index(s.subrange(1, s.len() as int))
    }
}

/// How many digits a string has from its first non-zero digit on; 1 for a string
/// of zeros.
pub open spec fn significant_len(s: Seq<u32>) -> nat {
    (s.len() - leading_index(s)) as nat
}

/// A string of `n` zero digits.
pub open spec fn zero_digits(n: nat) -> Seq<u32> {
    Seq::new(n, |i: int| 0u32)
}

/// A fresh string of `n` zero digits.
pub fn zeros(n: usize) -> (r: Vec<u32>)
    ensures
        r@ == zero_digits(n as nat),
{
    let mut out: Vec<u32> = Vec::new();
    let mut i: usize = 0;
    while i < n
        invariant
            i <= n,
            out@ == zero_digits(i as nat),
        decreases n - i,
    {
        out.push(0u32);
        proof {
            assert(out@ =~= zero_digits((i + 1) as nat));
        }
        i += 1;
    }
    out
}

/// A copy of a digit string.
pub fn copy_digits(a: &[u32]) -> (r: Vec<u32>)
    ensures
        r@ == a@,
{
    let mut out: Vec<u32> = Vec::new();
    let mut i: usize = 0;
    while i < a.len()
        invariant
            i <= a.len(),
            out@ == a@.subrange(0, i as int),
        decreases a.len() - i,
    {
        out.push(a[i]);
        proof {
            assert(out@ =~= a@.subrange(0, i + 1));
        }
        i += 1;
    }
    proof {
        assert(a@.subrange(0, a.len() as int) =~= a@);
    }
    out
}

/// The index of the most significant digit that is not zero, or of the last digit
/// where the string denotes zero.
pub fn leading_index_of(a: &[u32]) -> (r: usize)
    requires
        a@.len() >= 1,
    ensures
        r == leading_index(a@),
        r < a@.len(),
{
    let n = a.len();
    let mut i: usize = 0;
    while i < n - 1
        invariant
            i <= n - 1,
            n == a@.len(),
            forall|j: int| 0 <= j < i ==> a@[j] == 0,
        decreases n - i,
    {
        if a[i] != 0 {
            proof {
                lemma_leading_index_unique(a@, i as int);
            }
            return i;
        }
        i += 1;
    }
    proof {
        lemma_leading_index_unique(a@, i as int);
    }
    i
}

/// The count of digits from the most significant one that is not zero to the end;
/// 1 for zero.
pub fn significant_digits(a: &[u32]) -> (r: usize)
    requires
        a@.len() >= 1,
    ensures
        r == significant_len(a@),
        1 <= r <= a@.len(),
{
    a.len() - leading_index_of(a)
}

/// A string of `m` digits with the low digits of `a`: zeros are put in front of
/// `a` where `m` is larger, and the top digits of `a` are dropped where it is
/// smaller.
pub fn resize(a: &[u32], m: usize) -> (r: Vec<u32>)
    ensures
        r@.len() == m,
        m >= a@.len() ==> r@ == zero_digits((m - a@.len()) as nat) + a@,
        m < a@.len() ==> r@ == a@.subrange(a@.len() - m, a@.len() as int),
        value_of(r@) == value_of(a@) % radix_pow(m as nat),
{
    let n = a.len();
    let mut out = zeros(m);
    let count: usize = if m < n {
        m
    } else {
        n
    };
    let mut i: usize = 0;
    while i < count
        invariant
            i <= count,
            count <= n,
            count <= m,
            n == a@.len(),
            out@.len() == m,
            forall|j: int| 0 <= j < m - i ==> out@[j] == 0,
            forall|j: int| m - i <= j < m ==> out@[j] == a@[j - m + n],
        decreases count - i,
    {
        out.set(m - 1 - i, a[n - 1 - i]);
        i += 1;
    }
    proof {
        lemma_radix_pow_positive(m as nat);
        if m >= n {
            assert(out@ =~= zero_digits((m - n) as nat) + a@);
            lemma_value_concat(zero_digits((m - n) as nat), a@);
            lemma_value_zero_digits((m - n) as nat);
            assert(0 * radix_pow(n as nat) == 0);
            lemma_value_bound(out@);
            lemma_small_mod(value_of(a@), radix_pow(m as nat));
        } else {
            assert(out@ =~= a@.subrange(n - m, n as int));
            lemma_value_split(a@, n - m);
            lemma_value_bound(out@);
            let h = value_of(a@.subrange(0, n - m));
            let p = radix_pow(m as nat);
            assert(h * p == p * h) by (nonlinear_arith);
            lemma_fundamental_div_mod_converse(
                value_of(a@) as int,
                p as int,
                h as int,
                value_of(out@) as int,
            );
        }
    }
    out
}

/// The string with `extra` zero digits in front of it.
pub fn widen(a: &[u32], extra: usize) -> (r: Vec<u32>)
    ensures
        r@ == zero_digits(extra as nat) + a@,
        value_of(r@) == value_of(a@),
{
    let mut out = zeros(extra);
    let mut i: usize = 0;
    while i < a.len()
        invariant
            i <= a.len(),
            out@ == zero_digits(extra as nat) + a@.subrange(0, i as int),
        decreases a.len() - i,
    {
        out.push(a[i]);
        proof {
            assert(out@ =~= zero_digits(extra as nat) + a@.subrange(0, i + 1));
        }
        i += 1;
    }
    proof {
        assert(a@.subrange(0, a.len() as int) =~= a@);
        lemma_value_concat(zero_digits(extra as nat), a@);
        lemma_value_zero_digits(extra as nat);
        assert(0 * radix_pow(a@.len()) == 0);
    }
    out
}

/// A string of `n` digits that denotes the digit `d`.
pub fn from_digit(n: usize, d: u32) -> (r: Vec<u32>)
    requires
        n >= 1,
    ensures
        r@.len() == n,
        r@ == zero_digits((n - 1) as nat).push(d),
        value_of(r@) == d,
{
    let mut out = zeros(n);
    out.set(n - 1, d);
    proof {
        assert(out@ =~= zero_digits((n - 1) as nat).push(d));
        assert(out@.drop_last() =~= zero_digits((n - 1) as nat));
        lemma_value_zero_digits((n - 1) as nat);
    }
    out
}

} // verus!
