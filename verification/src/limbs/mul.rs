//! Multiplication of digit strings.

use vstd::prelude::*;
use vstd::arithmetic::div_mod::lemma_small_mod;
use crate::limbs::{radix, radix_pow, value_of, zeros};
use crate::limbs::add::add_with_carry;
use crate::limbs::lemmas::{
    lemma_radix_pow_adds,
    lemma_radix_pow_positive,
    lemma_value_bound,
    lemma_value_head,
    lemma_value_skip_zeros,
    lemma_value_split,
    lemma_value_lower_bound,
    lemma_value_zero_digits,
};
use crate::limbs::shift::shift_left_digits;

verus! {

/// Multiplies a string by one digit, from the least significant digit up, each
/// step handing its high half on as the carry. Returns the product's low digits
/// and the carry out of the top digit.
pub fn mul_digit(a: &[u32], d: u32) -> (r: (Vec<u32>, u32))
    ensures
        r.0@.len() == a@.len(),
        value_of(r.0@) + r.1 * radix_pow(a@.len()) == value_of(a@) * d,
{
    let n = a.len();
    let mut out = zeros(n);
    let mut carry: u64 = 0;
    let mut i: usize = n;
    proof {
        assert(out@.subrange(n as int, n as int) =~= Seq::<u32>::empty());
        assert(a@.subrange(n as int, n as int) =~= Seq::<u32>::empty());
        assert(0nat * (d as nat) == 0);
    }
    while i > 0
        invariant
            i <= n,
            n == a@.len(),
            out@.len() == n,
            carry < 0x1_0000_0000,
            value_of(out@.subrange(i as int, n as int)) + carry * radix_pow((n - i) as nat)
                == value_of(a@.subrange(i as int, n as int)) * d,
        decreases i,
    {
        i -= 1;
        let x: u64 = a[i] as u64;
        let y: u64 = d as u64;
        proof {
            assert(x * y <= 0xffff_ffff * 0xffff_ffff) by (nonlinear_arith)
                requires
                    x <= 0xffff_ffff,
                    y <= 0xffff_ffff,
            ;
        }
        let prod: u64 = x * y + carry;
        proof {
            assert((prod >> 32) < 0x1_0000_0000) by (bit_vector);
            assert((prod & 0xffff_ffff) < 0x1_0000_0000) by (bit_vector);
        }
        let digit: u32 = (prod & 0xffff_ffff) as u32;
        let ghost old_out = out@;
        let ghost old_carry = carry;
        out.set(i, digit);
        carry = prod >> 32;
        proof {
            assert(prod == (prod >> 32) * 0x1_0000_0000 + (prod & 0xffff_ffff)) by (bit_vector);
            let oi = out@.subrange(i as int, n as int);
            let ai = a@.subrange(i as int, n as int);
            lemma_value_head(oi);
            lemma_value_head(ai);
            assert(oi.subrange(1, oi.len() as int) =~= old_out.subrange(i + 1, n as int));
            assert(ai.subrange(1, ai.len() as int) =~= a@.subrange(i + 1, n as int));
            let p = radix_pow((n - i - 1) as nat);
            let rest_o = value_of(old_out.subrange(i + 1, n as int));
            let rest_a = value_of(a@.subrange(i + 1, n as int));
            assert(radix_pow((n - i) as nat) == radix() * p);
            assert((digit as nat) * p + rest_o + carry * (radix() * p) == ((a[i as int] as nat) * p
                + rest_a) * d) by (nonlinear_arith)
                requires
                    digit as nat + carry * radix() == (a[i as int] as nat) * d + old_carry,
                    rest_o + old_carry * p == rest_a * d,
            ;
        }
    }
    proof {
        assert(out@.subrange(0, n as int) =~= out@);
        assert(a@.subrange(0, n as int) =~= a@);
    }
    (out, carry as u32)
}

/// Whether the value of a string fits in its last `m` digits.
pub fn fits(a: &[u32], m: usize) -> (r: bool)
    requires
        m <= a@.len(),
    ensures
        r <==> value_of(a@) < radix_pow(m as nat),
{
    let n = a.len();
    let mut i: usize = 0;
    while i < n - m
        invariant
            i <= n - m,
            m <= n,
            n == a@.len(),
            forall|j: int| 0 <= j < i ==> a@[j] == 0,
        decreases n - m - i,
    {
        if a[i] != 0 {
            proof {
                lemma_value_lower_bound(a@, i as int);
                crate::limbs::lemmas::lemma_radix_pow_monotonic(m as nat, (n - 1 - i) as nat);
            }
            return false;
        }
        i += 1;
    }
    proof {
        lemma_value_skip_zeros(a@, n - m);
        lemma_value_bound(a@.subrange(n - m, n as int));
    }
    true
}

/// Multiplies two strings of one length by the schoolbook method: for each digit
/// of `b`, least significant first, `a` times that digit is moved to the digit's
/// position and added up. Returns `None` where the product does not fit in the
/// length of the operands.
pub fn mul(a: &[u32], b: &[u32]) -> (r: Option<Vec<u32>>)
    requires
        a@.len() == b@.len(),
    ensures
        r is Some <==> value_of(a@) * value_of(b@) < radix_pow(a@.len()),
        r is Some ==> r->Some_0@.len() == a@.len() && value_of(r->Some_0@) == value_of(a@)
            * value_of(b@),
{
    let n = a.len();
    let ghost va = value_of(a@);
    let ghost vb = value_of(b@);
    let ghost pn = radix_pow(n as nat);
    let mut out = zeros(n);
    let mut j: usize = n;
    proof {
        lemma_value_zero_digits(n as nat);
        assert(b@.subrange(n as int, n as int) =~= Seq::<u32>::empty());
        assert(va * 0 == 0);
    }
    while j > 0
        invariant
            j <= n,
            n == a@.len(),
            n == b@.len(),
            out@.len() == n,
            va == value_of(a@),
            vb == value_of(b@),
            pn == radix_pow(n as nat),
            value_of(out@) == va * value_of(b@.subrange(j as int, n as int)),
        decreases j,
    {
        j -= 1;
        let digit = b[j];
        let k: usize = n - 1 - j;
        let ghost pk = radix_pow(k as nat);
        let ghost low = value_of(b@.subrange(j + 1, n as int));
        let ghost part = value_of(b@.subrange(j as int, n as int));
        proof {
            // the partial product is a lower bound of the whole product
            let bj = b@.subrange(j as int, n as int);
            lemma_value_head(bj);
            assert(bj.subrange(1, bj.len() as int) =~= b@.subrange(j + 1, n as int));
            assert(part == digit * pk + low);
            lemma_value_split(b@, j as int);
            let high = value_of(b@.subrange(0, j as int));
            let pj = radix_pow((n - j) as nat);
            assert(va * vb >= va * part) by (nonlinear_arith)
                requires
                    vb == high * pj + part,
                    high >= 0,
                    pj >= 0,
                    va >= 0,
                    part >= 0,
            ;
            assert(va * part == (va * digit) * pk + va * low) by (nonlinear_arith)
                requires
                    part == digit * pk + low,
            ;
            lemma_radix_pow_positive(k as nat);
            lemma_radix_pow_adds((n - k) as nat, k as nat);
            assert((n - k) as nat + k as nat == n as nat);
        }
        let (row, carry) = mul_digit(a, digit);
        if carry != 0 {
            proof {
                assert((va * digit) * pk >= pn) by (nonlinear_arith)
                    requires
                        value_of(row@) + carry * pn == va * digit,
                        carry >= 1,
                        pk >= 1,
                        pn >= 0,
                ;
            }
            return None;
        }
        proof {
            assert(0 * pn == 0);
        }
        if !fits(row.as_slice(), n - k) {
            proof {
                let pnk = radix_pow((n - k) as nat);
                assert((va * digit) * pk >= pn) by (nonlinear_arith)
                    requires
                        va * digit >= pnk,
                        pn == pnk * pk,
                        pk >= 1,
                ;
            }
            return None;
        }
        let shifted = shift_left_digits(row.as_slice(), k);
        proof {
            let pnk = radix_pow((n - k) as nat);
            assert((va * digit) * pk < pn) by (nonlinear_arith)
                requires
                    va * digit < pnk,
                    pn == pnk * pk,
                    pk >= 1,
            ;
            lemma_small_mod(((va * digit) * pk) as nat, pn);
        }
        let (sum, overflow) = add_with_carry(out.as_slice(), shifted.as_slice());
        if overflow {
            return None;
        }
        out = sum;
    }
    proof {
        assert(b@.subrange(0, n as int) =~= b@);
        lemma_value_bound(out@);
    }
    Some(out)
}

} // verus!
