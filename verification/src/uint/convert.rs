//! Conversions between fixed-width integers and the machine's integers.

use vstd::prelude::*;
use crate::limbs::{radix, radix_pow, significant_len, value_of};
use crate::limbs::lemmas::{
    lemma_radix_pow_monotonic,
    lemma_significant_len_bounds,
    lemma_value_skip_zeros,
    lemma_value_zero_iff,
};
use crate::uint::Uint;

verus! {

/// The value of a string of four digits.
proof fn lemma_value_of_four(s: Seq<u32>)
    requires
        s.len() == 4,
    ensures
        value_of(s) == s[0] * 0x1_0000_0000_0000_0000_0000_0000 + s[1] * 0x1_0000_0000_0000_0000
            + s[2] * 0x1_0000_0000 + s[3],
{
    reveal_with_fuel(value_of, 5);
    let a = s.drop_last();
    let b = a.drop_last();
    let c = b.drop_last();
    assert(a.last() == s[2] && b.last() == s[1] && c.last() == s[0]);
    assert(c.drop_last().len() == 0);
}

/// The value of a string whose digits before the last four are zero.
proof fn lemma_value_of_low_four(s: Seq<u32>)
    requires
        s.len() >= 4,
        forall|i: int| 0 <= i < s.len() - 4 ==> s[i] == 0,
    ensures
        value_of(s) == s[s.len() - 4] * 0x1_0000_0000_0000_0000_0000_0000 + s[s.len() - 3]
            * 0x1_0000_0000_0000_0000 + s[s.len() - 2] * 0x1_0000_0000 + s[s.len() - 1],
{
    lemma_value_skip_zeros(s, s.len() - 4);
    lemma_value_of_four(s.subrange(s.len() - 4, s.len() as int));
}

/// `radix()^4` is `2^128`.
proof fn lemma_radix_pow_four()
    ensures
        radix_pow(4) == 0x1_0000_0000_0000_0000_0000_0000_0000_0000,
{
    reveal_with_fuel(radix_pow, 5);
}

impl<const SIZE: usize> Uint<SIZE> {
    /// The number `v`, in the least significant digit.
    pub fn from_u32(v: u32) -> (r: Self)
        requires
            SIZE >= 1,
        ensures
            r.value() == v,
    {
        let mut data = [0u32; SIZE];
        data[SIZE - 1] = v;
        proof {
            lemma_value_zero_iff(data@.drop_last());
        }
        Uint { digits: data }
    }

    /// The number `v`, in the least significant digit.
    pub fn from_u8(v: u8) -> (r: Self)
        requires
            SIZE >= 1,
        ensures
            r.value() == v,
    {
        Self::from_u32(v as u32)
    }

    /// The number `v`, in the least significant digit.
    pub fn from_u16(v: u16) -> (r: Self)
        requires
            SIZE >= 1,
        ensures
            r.value() == v,
    {
        Self::from_u32(v as u32)
    }

    /// The number `v`, in the two least significant digits.
    pub fn from_u64(v: u64) -> (r: Self)
        requires
            SIZE >= 2,
        ensures
            r.value() == v,
    {
        let mut data = [0u32; SIZE];
        proof {
            assert((v & 0xffff_ffff) < 0x1_0000_0000 && (v >> 32) < 0x1_0000_0000 && v == (v >> 32)
                * 0x1_0000_0000 + (v & 0xffff_ffff)) by (bit_vector);
        }
        data[SIZE - 1] = (v & 0xffff_ffff) as u32;
        data[SIZE - 2] = (v >> 32) as u32;
        proof {
            let s = data@;
            let a = s.drop_last();
            lemma_value_zero_iff(a.drop_last());
            assert(a.last() == s[SIZE - 2]);
            assert(value_of(a) == value_of(a.drop_last()) * radix() + a.last());
            assert(value_of(s) == value_of(a) * radix() + s.last());
        }
        Uint { digits: data }
    }

    /// The number `v`, in the four least significant digits.
    pub fn from_u128(v: u128) -> (r: Self)
        requires
            SIZE >= 4,
        ensures
            r.value() == v,
    {
        let mut data = [0u32; SIZE];
        proof {
            assert((v & 0xffff_ffff) < 0x1_0000_0000 && ((v >> 32) & 0xffff_ffff) < 0x1_0000_0000
                && ((v >> 64) & 0xffff_ffff) < 0x1_0000_0000 && (v >> 96) < 0x1_0000_0000)
                by (bit_vector);
            assert(v == (v >> 96) * 0x1_0000_0000_0000_0000_0000_0000 + ((v >> 64) & 0xffff_ffff)
                * 0x1_0000_0000_0000_0000 + ((v >> 32) & 0xffff_ffff) * 0x1_0000_0000 + (v
                & 0xffff_ffff)) by (bit_vector);
        }
        data[SIZE - 1] = (v & 0xffff_ffff) as u32;
        data[SIZE - 2] = ((v >> 32) & 0xffff_ffff) as u32;
        data[SIZE - 3] = ((v >> 64) & 0xffff_ffff) as u32;
        data[SIZE - 4] = (v >> 96) as u32;
        proof {
            lemma_value_of_low_four(data@);
        }
        Uint { digits: data }
    }

    /// The number as a `u128`, or `None` where it has more than four significant
    /// digits and so does not fit.
    pub fn to_u128(self) -> (r: Option<u128>)
        requires
            SIZE >= 1,
        ensures
            r is Some <==> significant_len(self@) <= 4,
            r is Some <==> self.value() <= u128::MAX,
            r is Some ==> r->Some_0 == self.value(),
    {
        let digits = self.digits_be();
        let count = digits.len();
        proof {
            lemma_radix_pow_four();
            lemma_significant_len_bounds(self.digits@);
            crate::limbs::lemmas::lemma_leading_index(self.digits@);
            lemma_value_zero_iff(self.digits@);
            if count > 4 {
                lemma_radix_pow_monotonic(4, (count - 1) as nat);
            } else {
                lemma_radix_pow_monotonic(count as nat, 4);
            }
        }
        if count > 4 {
            return None;
        }
        let mut out: u128 = 0;
        let mut i: usize = 0;
        proof {
            assert(digits@.subrange(0, 0) =~= Seq::<u32>::empty());
            reveal_with_fuel(radix_pow, 5);
        }
        while i < count
            invariant
                i <= count,
                count <= 4,
                count == digits@.len(),
                out == value_of(digits@.subrange(0, i as int)),
                out < radix_pow(i as nat),
            decreases count - i,
        {
            proof {
                reveal_with_fuel(radix_pow, 5);
                let next = digits@.subrange(0, i + 1);
                assert(next.drop_last() =~= digits@.subrange(0, i as int));
                assert(next.last() == digits@[i as int]);
                crate::limbs::lemmas::lemma_value_bound(next);
                assert(out < 0x1_0000_0000_0000_0000_0000_0000);
                assert(out << 32 == out * 0x1_0000_0000) by (bit_vector)
                    requires
                        out < 0x1_0000_0000_0000_0000_0000_0000,
                ;
                let d = digits@[i as int] as u128;
                assert(((out << 32) | d) == (out << 32) + d) by (bit_vector)
                    requires
                        out < 0x1_0000_0000_0000_0000_0000_0000,
                        d < 0x1_0000_0000,
                ;
            }
            out = (out << 32) | (digits[i] as u128);
            i += 1;
        }
        proof {
            assert(digits@.subrange(0, count as int) =~= digits@);
        }
        Some(out)
    }
}

} // verus!
