//! Addition and subtraction of digit strings with carry and borrow.

use vstd::prelude::*;
use crate::limbs::{radix, radix_pow, value_of, zeros};
use crate::limbs::lemmas::{lemma_value_bound, lemma_value_head};

verus! {

/// Adds two strings of one length digit by digit, from the least significant
/// digit up. Returns the sum's low digits and the carry out of the top digit.
pub fn add_with_carry(a: &[u32], b: &[u32]) -> (r: (Vec<u32>, bool))
    requires
        a@.len() == b@.len(),
    ensures
        r.0@.len() == a@.len(),
        value_of(r.0@) + (if r.1 { radix_pow(a@.len()) } else { 0 }) == value_of(a@) + value_of(b@),
{
    let n = a.len();
    let mut out = zeros(n);
    let mut carry: u64 = 0;
    let mut i: usize = n;
    proof {
        assert(out@.subrange(n as int, n as int) =~= Seq::<u32>::empty());
        assert(a@.subrange(n as int, n as int) =~= Seq::<u32>::empty());
        assert(b@.subrange(n as int, n as int) =~= Seq::<u32>::empty());
    }
    while i > 0
        invariant
            i <= n,
            n == a@.len(),
            n == b@.len(),
            out@.len() == n,
            carry <= 1,
            value_of(out@.subrange(i as int, n as int)) + carry * radix_pow((n - i) as nat)
                == value_of(a@.subrange(i as int, n as int)) + value_of(
                b@.subrange(i as int, n as int),
            ),
        decreases i,
    {
        i -= 1;
        let sum: u64 = a[i] as u64 + b[i] as u64 + carry;
        proof {
            assert(sum < 0x2_0000_0000 ==> (sum >> 32) <= 1) by (bit_vector);
            assert((sum & 0xffff_ffff) < 0x1_0000_0000) by (bit_vector);
        }
        let digit: u32 = (sum & 0xffff_ffff) as u32;
        let ghost old_out = out@;
        let ghost old_carry = carry;
        out.set(i, digit);
        carry = sum >> 32;
        proof {
            assert(sum == (sum >> 32) * 0x1_0000_0000 + (sum & 0xffff_ffff)) by (bit_vector);
            let oi = out@.subrange(i as int, n as int);
            let ai = a@.subrange(i as int, n as int);
            let bi = b@.subrange(i as int, n as int);
            lemma_value_head(oi);
            lemma_value_head(ai);
            lemma_value_head(bi);
            assert(oi.subrange(1, oi.len() as int) =~= old_out.subrange(i + 1, n as int));
            assert(ai.subrange(1, ai.len() as int) =~= a@.subrange(i + 1, n as int));
            assert(bi.subrange(1, bi.len() as int) =~= b@.subrange(i + 1, n as int));
            let p = radix_pow((n - i - 1) as nat);
            assert(radix_pow((n - i) as nat) == radix() * p);
            assert((digit as nat) * p + carry * (radix() * p) == (a[i as int] as nat) * p + (
            b[i as int] as nat) * p + old_carry * p) by (nonlinear_arith)
                requires
                    digit as nat + carry * radix() == a[i as int] as nat + b[i as int] as nat
                        + old_carry,
            ;
        }
    }
    proof {
        assert(out@.subrange(0, n as int) =~= out@);
        assert(a@.subrange(0, n as int) =~= a@);
        assert(b@.subrange(0, n as int) =~= b@);
    }
    (out, carry != 0)
}

/// Subtracts `b` from `a`, two strings of one length, digit by digit from the
/// least significant digit up. Returns the difference's low digits and the borrow
/// out of the top digit.
pub fn sub_with_borrow(a: &[u32], b: &[u32]) -> (r: (Vec<u32>, bool))
    requires
        a@.len() == b@.len(),
    ensures
        r.0@.len() == a@.len(),
        value_of(r.0@) + value_of(b@) == value_of(a@) + (if r.1 { radix_pow(a@.len()) } else { 0 }),
        r.1 <==> value_of(a@) < value_of(b@),
{
    let n = a.len();
    let mut out = zeros(n);
    let mut borrow: u64 = 0;
    let mut i: usize = n;
    proof {
        assert(out@.subrange(n as int, n as int) =~= Seq::<u32>::empty());
        assert(a@.subrange(n as int, n as int) =~= Seq::<u32>::empty());
        assert(b@.subrange(n as int, n as int) =~= Seq::<u32>::empty());
    }
    while i > 0
        invariant
            i <= n,
            n == a@.len(),
            n == b@.len(),
            out@.len() == n,
            borrow <= 1,
            value_of(out@.subrange(i as int, n as int)) + value_of(b@.subrange(i as int, n as int))
                == value_of(a@.subrange(i as int, n as int)) + borrow * radix_pow((n - i) as nat),
        decreases i,
    {
        i -= 1;
        let diff: u64 = 0x1_0000_0000u64 + a[i] as u64 - b[i] as u64 - borrow;
        proof {
            assert(diff < 0x2_0000_0000 ==> (diff >> 32) <= 1) by (bit_vector);
            assert((diff & 0xffff_ffff) < 0x1_0000_0000) by (bit_vector);
        }
        let digit: u32 = (diff & 0xffff_ffff) as u32;
        let ghost old_out = out@;
        let ghost old_borrow = borrow;
        out.set(i, digit);
        borrow = 1 - (diff >> 32);
        proof {
            assert(diff == (diff >> 32) * 0x1_0000_0000 + (diff & 0xffff_ffff)) by (bit_vector);
            let oi = out@.subrange(i as int, n as int);
            let ai = a@.subrange(i as int, n as int);
            let bi = b@.subrange(i as int, n as int);
            lemma_value_head(oi);
            lemma_value_head(ai);
            lemma_value_head(bi);
            assert(oi.subrange(1, oi.len() as int) =~= old_out.subrange(i + 1, n as int));
            assert(ai.subrange(1, ai.len() as int) =~= a@.subrange(i + 1, n as int));
            assert(bi.subrange(1, bi.len() as int) =~= b@.subrange(i + 1, n as int));
            let p = radix_pow((n - i - 1) as nat);
            assert(radix_pow((n - i) as nat) == radix() * p);
            assert((digit as nat) * p + (b[i as int] as nat) * p + old_borrow * p == (
            a[i as int] as nat) * p + borrow * (radix() * p)) by (nonlinear_arith)
                requires
                    digit as nat + b[i as int] as nat + old_borrow == a[i as int] as nat + borrow
                        * radix(),
            ;
        }
    }
    proof {
        assert(out@.subrange(0, n as int) =~= out@);
        assert(a@.subrange(0, n as int) =~= a@);
        assert(b@.subrange(0, n as int) =~= b@);
        lemma_value_bound(out@);
        lemma_value_bound(a@);
    }
    (out, borrow != 0)
}

} // verus!
