//! Shifts of digit strings by whole digits and by bits, and the count of
//! trailing zero bits.

use vstd::prelude::*;
use vstd::arithmetic::power2::{
    pow2,
    lemma_pow2_pos,
    lemma_pow2_adds,
    lemma_pow2_unfold,
    lemma2_to64,
};
use vstd::arithmetic::div_mod::{
    lemma_fundamental_div_mod_converse,
    lemma_div_denominator,
    lemma_mul_mod_noop_left,
    lemma_small_mod,
    lemma_basic_div,
    lemma_fundamental_div_mod,
};
use vstd::bits::{lemma_u64_shl_is_mul, lemma_u32_shl_is_mul, lemma_u32_shr_is_div};
use vstd::std_specs::bits::{u32_trailing_zeros, axiom_u32_trailing_zeros};
use crate::limbs::{radix, radix_pow, value_of, zeros, zero_digits};
use crate::limbs::lemmas::{
    lemma_value_bound,
    lemma_value_concat,
    lemma_value_head,
    lemma_value_split,
    lemma_value_zero_digits,
    lemma_value_zero_iff,
    lemma_radix_pow_adds,
    lemma_radix_pow_positive,
    lemma_radix_pow_monotonic,
};

verus! {

/// `radix()^k` is `2^(32*k)`.
pub proof fn lemma_radix_pow_is_pow2(k: nat)
    ensures
        radix_pow(k) == pow2(32 * k),
    decreases k,
{
    lemma2_to64();
    if k > 0 {
        lemma_radix_pow_is_pow2((k - 1) as nat);
        lemma_pow2_adds(32, (32 * (k - 1)) as nat);
        assert(32 + (32 * (k - 1)) as nat == 32 * k);
    }
}

/// The number of times that 2 divides `v`; 0 for `v == 0`.
pub open spec fn trailing_zeros_of(v: nat) -> nat
    decreases v,
{
    if v == 0 || v % 2 != 0 {
        0
    } else {
        1 + trailing_zeros_of(v / 2)
    }
}

/// An odd number times `2^t` has `t` trailing zero bits.
pub proof fn lemma_trailing_zeros_of_shifted_odd(m: nat, t: nat)
    requires
        m % 2 == 1,
    ensures
        trailing_zeros_of(m * pow2(t)) == t,
    decreases t,
{
    lemma2_to64();
    if t == 0 {
        assert(m * 1 == m);
    } else {
        lemma_pow2_unfold(t);
        lemma_trailing_zeros_of_shifted_odd(m, (t - 1) as nat);
        let h = m * pow2((t - 1) as nat);
        assert(m * (2 * pow2((t - 1) as nat)) == 2 * h) by (nonlinear_arith)
            requires
                h == m * pow2((t - 1) as nat),
        ;
        lemma_pow2_pos((t - 1) as nat);
        assert(h > 0) by (nonlinear_arith)
            requires
                h == m * pow2((t - 1) as nat),
                m >= 1,
                pow2((t - 1) as nat) > 0,
        ;
    }
}

/// A number that is not zero is an odd number times 2 to the count of its
/// trailing zero bits.
pub proof fn lemma_trailing_zeros_of_factors(v: nat)
    requires
        v != 0,
    ensures
        v % pow2(trailing_zeros_of(v)) == 0,
        (v / pow2(trailing_zeros_of(v))) % 2 == 1,
        v == (v / pow2(trailing_zeros_of(v))) * pow2(trailing_zeros_of(v)),
    decreases v,
{
    lemma2_to64();
    if v % 2 != 0 {
        assert(v / 1 == v);
        assert(v % 1 == 0);
    } else {
        let h = v / 2;
        lemma_trailing_zeros_of_factors(h);
        let t = trailing_zeros_of(h);
        let p = pow2(t);
        lemma_pow2_pos(t);
        lemma_pow2_unfold(t + 1);
        let m = h / p;
        lemma_fundamental_div_mod(h as int, p as int);
        assert(h == m * p) by (nonlinear_arith)
            requires
                h == p * m + h % p,
                h % p == 0,
        ;
        assert(v == m * (2 * p)) by (nonlinear_arith)
            requires
                v == 2 * h,
                h == m * p,
        ;
        assert(v == (2 * p) * m + 0) by (nonlinear_arith)
            requires
                v == m * (2 * p),
        ;
        lemma_fundamental_div_mod_converse(v as int, (2 * p) as int, m as int, 0);
    }
}

/// A digit that is not zero is an odd number times 2 to the count of its trailing
/// zero bits.
proof fn lemma_digit_trailing_zeros(d: u32)
    requires
        d != 0,
    ensures
        u32_trailing_zeros(d) < 32,
        d as nat == ((d >> u32_trailing_zeros(d)) as nat) * pow2(u32_trailing_zeros(d) as nat),
        (d >> u32_trailing_zeros(d)) % 2 == 1,
{
    axiom_u32_trailing_zeros(d);
    let t = u32_trailing_zeros(d);
    let m = d >> t;
    assert(d == m << t) by (bit_vector)
        requires
            t < 32,
            m == d >> t,
            d << ((32 - t) as u32) == 0,
    ;
    assert(m % 2 == 1) by (bit_vector)
        requires
            m & 1 == 1,
    ;
    lemma_u32_shr_is_div(d, t);
    lemma_pow2_pos(t as nat);
    lemma_fundamental_div_mod(d as int, pow2(t as nat) as int);
    assert(m * pow2(t as nat) <= d) by (nonlinear_arith)
        requires
            d == pow2(t as nat) * m + (d as int) % (pow2(t as nat) as int),
            (d as int) % (pow2(t as nat) as int) >= 0,
    ;
    lemma_u32_shl_is_mul(m, t);
}

/// Counts the trailing zero bits of a string as whole zero digits at the low end
/// and zero bits at the low end of the digit above them. For a string of zeros
/// all its digits count, and no further bits.
pub fn trailing_zero_count(a: &[u32]) -> (r: (usize, u32))
    ensures
        r.0 <= a@.len(),
        r.1 < 32,
        value_of(a@) == 0 ==> r.0 == a@.len() && r.1 == 0,
        value_of(a@) != 0 ==> r.0 < a@.len() && 32 * r.0 + r.1 == trailing_zeros_of(value_of(a@)),
{
    let n = a.len();
    let mut i: usize = n;
    while i > 0
        invariant
            i <= n,
            n == a@.len(),
            forall|j: int| i <= j < n ==> a@[j] == 0,
        decreases i,
    {
        i -= 1;
        let digit = a[i];
        if digit != 0 {
            let count = digit.trailing_zeros();
            proof {
                axiom_u32_trailing_zeros(digit);
                lemma_digit_trailing_zeros(digit);
                let t = count as nat;
                let j = (n - 1 - i) as nat;
                let m = (digit >> count) as nat;
                lemma_value_split(a@, i + 1);
                let low = a@.subrange(i + 1, n as int);
                lemma_value_zero_iff(low);
                assert(value_of(low) == 0);
                let high = a@.subrange(0, i + 1);
                assert(high.drop_last() =~= a@.subrange(0, i as int));
                assert(high.last() == digit);
                let h = value_of(a@.subrange(0, i as int));
                assert(value_of(high) == h * radix() + digit);
                lemma_radix_pow_is_pow2(j);
                lemma2_to64();
                lemma_pow2_adds(t, (32 - t) as nat);
                assert(t + (32 - t) as nat == 32);
                lemma_pow2_adds(t, 32 * j);
                let p = pow2(t);
                let q = pow2((32 - t) as nat);
                let w = pow2(32 * j);
                lemma_pow2_unfold((32 - t) as nat);
                let odd = h * q + m;
                let half = h * pow2((32 - t - 1) as nat);
                assert(h * q == 2 * half) by (nonlinear_arith)
                    requires
                        q == 2 * pow2((32 - t - 1) as nat),
                        half == h * pow2((32 - t - 1) as nat),
                ;
                assert(odd % 2 == 1);
                assert(value_of(a@) == odd * (p * w)) by (nonlinear_arith)
                    requires
                        value_of(a@) == (h * radix() + digit) * w,
                        radix() == p * q,
                        digit == m * p,
                        odd == h * q + m,
                ;
                lemma_trailing_zeros_of_shifted_odd(odd, t + 32 * j);
                lemma_pow2_pos(t + 32 * j);
                assert(odd * (p * w) != 0) by (nonlinear_arith)
                    requires
                        odd >= 1,
                        p * w > 0,
                ;
            }
            return (n - 1 - i, count);
        }
    }
    proof {
        lemma_value_zero_iff(a@);
    }
    (n, 0)
}

/// Counts the trailing zero bits of a string, crossing digit boundaries; all the
/// bits of a string of zeros count.
pub fn trailing_zero_bits(a: &[u32]) -> (r: u32)
    requires
        a@.len() * 32 <= u32::MAX,
    ensures
        r == (if value_of(a@) == 0 {
            a@.len() * 32
        } else {
            trailing_zeros_of(value_of(a@))
        }),
{
    let (digits, bits) = trailing_zero_count(a);
    (digits as u32) * 32 + bits
}

/// Moves every digit `k` places towards the most significant end and fills the
/// low end with zeros. The `k` top digits are lost.
pub fn shift_left_digits(a: &[u32], k: usize) -> (r: Vec<u32>)
    ensures
        r@.len() == a@.len(),
        k <= a@.len() ==> r@ == a@.subrange(k as int, a@.len() as int) + zero_digits(k as nat),
        k > a@.len() ==> r@ == zero_digits(a@.len()),
        value_of(r@) == (value_of(a@) * radix_pow(k as nat)) % radix_pow(a@.len()),
{
    let n = a.len();
    let mut out = zeros(n);
    if k >= n {
        proof {
            lemma_value_zero_digits(n as nat);
            lemma_radix_pow_adds(n as nat, (k - n) as nat);
            assert(n as nat + (k - n) as nat == k as nat);
            let x = value_of(a@) * radix_pow((k - n) as nat);
            assert(value_of(a@) * (radix_pow(n as nat) * radix_pow((k - n) as nat)) == radix_pow(
                n as nat,
            ) * x + 0) by (nonlinear_arith)
                requires
                    x == value_of(a@) * radix_pow((k - n) as nat),
            ;
            lemma_radix_pow_positive(n as nat);
            lemma_fundamental_div_mod_converse(
                (value_of(a@) * radix_pow(k as nat)) as int,
                radix_pow(n as nat) as int,
                x as int,
                0,
            );
            if k == n {
                assert(a@.subrange(k as int, n as int) + zero_digits(k as nat) =~= zero_digits(
                    n as nat,
                ));
            }
        }
        return out;
    }
    let mut i: usize = 0;
    while i < n - k
        invariant
            k < n,
            i <= n - k,
            n == a@.len(),
            out@.len() == n,
            forall|j: int| 0 <= j < i ==> out@[j] == a@[j + k],
            forall|j: int| i <= j < n ==> out@[j] == 0,
        decreases n - k - i,
    {
        out.set(i, a[i + k]);
        i += 1;
    }
    proof {
        let hi = a@.subrange(0, k as int);
        let lo = a@.subrange(k as int, n as int);
        assert(out@ =~= lo + zero_digits(k as nat));
        lemma_value_concat(lo, zero_digits(k as nat));
        lemma_value_zero_digits(k as nat);
        lemma_value_split(a@, k as int);
        lemma_value_bound(out@);
        lemma_radix_pow_adds((n - k) as nat, k as nat);
        assert((n - k) as nat + k as nat == n as nat);
        let pk = radix_pow(k as nat);
        let pn = radix_pow(n as nat);
        let pnk = radix_pow((n - k) as nat);
        assert((value_of(hi) * pnk + value_of(lo)) * pk == pn * value_of(hi) + value_of(lo) * pk)
            by (nonlinear_arith)
            requires
                pn == pnk * pk,
        ;
        lemma_fundamental_div_mod_converse(
            (value_of(a@) * pk) as int,
            pn as int,
            value_of(hi) as int,
            value_of(out@) as int,
        );
    }
    out
}

/// Moves every digit `k` places towards the least significant end and fills the
/// high end with zeros. The `k` low digits are lost.
pub fn shift_right_digits(a: &[u32], k: usize) -> (r: Vec<u32>)
    ensures
        r@.len() == a@.len(),
        k <= a@.len() ==> r@ == zero_digits(k as nat) + a@.subrange(0, a@.len() - k),
        k > a@.len() ==> r@ == zero_digits(a@.len()),
        value_of(r@) == value_of(a@) / radix_pow(k as nat),
{
    let n = a.len();
    let mut out = zeros(n);
    if k >= n {
        proof {
            lemma_value_zero_digits(n as nat);
            lemma_value_bound(a@);
            lemma_radix_pow_monotonic(n as nat, k as nat);
            lemma_basic_div(value_of(a@) as int, radix_pow(k as nat) as int);
            if k == n {
                assert(zero_digits(k as nat) + a@.subrange(0, n - k) =~= zero_digits(n as nat));
            }
        }
        return out;
    }
    let mut i: usize = k;
    while i < n
        invariant
            k < n,
            k <= i <= n,
            n == a@.len(),
            out@.len() == n,
            forall|j: int| k <= j < i ==> out@[j] == a@[j - k],
            forall|j: int| 0 <= j < k ==> out@[j] == 0,
        decreases n - i,
    {
        out.set(i, a[i - k]);
        i += 1;
    }
    proof {
        let hi = a@.subrange(0, n - k);
        let lo = a@.subrange(n - k, n as int);
        assert(out@ =~= zero_digits(k as nat) + hi);
        lemma_value_concat(zero_digits(k as nat), hi);
        lemma_value_zero_digits(k as nat);
        assert(0 * radix_pow(hi.len()) == 0);
        lemma_value_split(a@, n - k);
        lemma_value_bound(lo);
        lemma_radix_pow_positive(k as nat);
        let pk = radix_pow(k as nat);
        assert(value_of(hi) * pk == pk * value_of(hi)) by (nonlinear_arith);
        lemma_fundamental_div_mod_converse(
            value_of(a@) as int,
            pk as int,
            value_of(hi) as int,
            value_of(lo) as int,
        );
    }
    out
}

/// One digit's step of a shift to the left by `s` bits: what stays in the digit,
/// with the bits carried in, and what is carried out.
proof fn lemma_shift_left_step(d: u32, c: u32, s: u32, kept: u32, out: u32)
    requires
        0 < s < 32,
        c < pow2(s as nat),
        kept == (d << s) | c,
        out == d >> ((32 - s) as u32),
    ensures
        kept + out * radix() == d * pow2(s as nat) + c,
        out < pow2(s as nat),
{
    lemma_pow2_pos(s as nat);
    lemma_u32_shr_is_div(c, s);
    lemma_basic_div(c as int, pow2(s as nat) as int);
    assert(c >> s == 0);
    let m: u64 = 1u64 << (s as u64);
    assert((kept as u64) + (out as u64) * 0x1_0000_0000 == (d as u64) * m + (c as u64) && (out as u64) < m)
        by (bit_vector)
        requires
            0 < s < 32,
            c >> s == 0,
            kept == (d << s) | c,
            out == d >> ((32 - s) as u32),
            m == 1u64 << (s as u64),
    ;
    lemma2_to64();
    lemma_pow2_adds(s as nat, (63 - s) as nat);
    assert(pow2(s as nat) <= u64::MAX) by {
        vstd::arithmetic::power2::lemma_pow2_strictly_increases(s as nat, 63);
        vstd::arithmetic::power2::lemma2_to64_rest();
    }
    lemma_u64_shl_is_mul(1, s as u64);
    assert(m == pow2(s as nat));
}

/// One digit's step of a shift to the right by `s` bits: what stays in the digit,
/// with the bits carried in from above, and the low bits that fall out.
proof fn lemma_shift_right_step(d: u32, c: u32, s: u32, kept: u32, out: u32)
    requires
        0 < s < 32,
        c < pow2(s as nat),
        kept == (d >> s) | (c << ((32 - s) as u32)),
        out == d & (((1u32 << s) - 1) as u32),
    ensures
        kept * pow2(s as nat) + out == c * radix() + d,
        out < pow2(s as nat),
{
    lemma_pow2_pos(s as nat);
    lemma_u32_shr_is_div(c, s);
    lemma_basic_div(c as int, pow2(s as nat) as int);
    assert(c >> s == 0);
    let m: u64 = 1u64 << (s as u64);
    assert((kept as u64) * m + (out as u64) == (c as u64) * 0x1_0000_0000 + (d as u64) && (out as u64) < m)
        by (bit_vector)
        requires
            0 < s < 32,
            c >> s == 0,
            kept == (d >> s) | (c << ((32 - s) as u32)),
            out == d & (((1u32 << s) - 1) as u32),
            m == 1u64 << (s as u64),
    ;
    lemma2_to64();
    assert(pow2(s as nat) <= u64::MAX) by {
        vstd::arithmetic::power2::lemma_pow2_strictly_increases(s as nat, 63);
        vstd::arithmetic::power2::lemma2_to64_rest();
    }
    lemma_u64_shl_is_mul(1, s as u64);
    assert(m == pow2(s as nat));
}

/// Shifts a string to the left by `s` bits, less than a digit, carrying the bits
/// that leave each digit into the next. The bits that leave the top digit are lost.
fn shift_left_bits(a: &[u32], s: u32) -> (r: Vec<u32>)
    requires
        0 < s < 32,
    ensures
        r@.len() == a@.len(),
        value_of(r@) == (value_of(a@) * pow2(s as nat)) % radix_pow(a@.len()),
{
    let n = a.len();
    let mut out = zeros(n);
    proof {
        assert((1u32 << s) >= 1 && (((1u32 << s) - 1) as u32) << ((32 - s) as u32) >= 0) by (bit_vector)
            requires
                0 < s < 32,
        ;
    }
    let mask: u32 = ((1u32 << s) - 1) << (32 - s);
    let mut carry: u32 = 0;
    let mut i: usize = n;
    proof {
        assert(out@.subrange(n as int, n as int) =~= Seq::<u32>::empty());
        assert(a@.subrange(n as int, n as int) =~= Seq::<u32>::empty());
        assert(0nat * pow2(s as nat) == 0);
        lemma_pow2_pos(s as nat);
        assert(0 * radix_pow(0) == 0);
    }
    while i > 0
        invariant
            i <= n,
            n == a@.len(),
            out@.len() == n,
            0 < s < 32,
            mask == (((1u32 << s) - 1) as u32) << ((32 - s) as u32),
            carry < pow2(s as nat),
            value_of(out@.subrange(i as int, n as int)) + carry * radix_pow((n - i) as nat)
                == value_of(a@.subrange(i as int, n as int)) * pow2(s as nat),
        decreases i,
    {
        i -= 1;
        let digit = a[i];
        let last_carry = carry;
        carry = (digit & mask) >> (32 - s);
        let kept: u32 = (digit << s) | last_carry;
        let ghost old_out = out@;
        out.set(i, kept);
        proof {
            assert((digit & mask) >> ((32 - s) as u32) == digit >> ((32 - s) as u32)) by (bit_vector)
                requires
                    0 < s < 32,
                    mask == (((1u32 << s) - 1) as u32) << ((32 - s) as u32),
            ;
            lemma_shift_left_step(digit, last_carry, s, kept, carry);
            let oi = out@.subrange(i as int, n as int);
            let ai = a@.subrange(i as int, n as int);
            lemma_value_head(oi);
            lemma_value_head(ai);
            assert(oi.subrange(1, oi.len() as int) =~= old_out.subrange(i + 1, n as int));
            assert(ai.subrange(1, ai.len() as int) =~= a@.subrange(i + 1, n as int));
            let p = radix_pow((n - i - 1) as nat);
            let rest_o = value_of(old_out.subrange(i + 1, n as int));
            let rest_a = value_of(a@.subrange(i + 1, n as int));
            let f = pow2(s as nat);
            assert(radix_pow((n - i) as nat) == radix() * p);
            assert((kept as nat) * p + rest_o + carry * (radix() * p) == ((digit as nat) * p
                + rest_a) * f) by (nonlinear_arith)
                requires
                    kept + carry * radix() == digit * f + last_carry,
                    rest_o + last_carry * p == rest_a * f,
            ;
        }
    }
    proof {
        assert(out@.subrange(0, n as int) =~= out@);
        assert(a@.subrange(0, n as int) =~= a@);
        lemma_value_bound(out@);
        lemma_radix_pow_positive(n as nat);
        let pn = radix_pow(n as nat);
        assert(carry * pn == pn * carry) by (nonlinear_arith);
        lemma_fundamental_div_mod_converse(
            (value_of(a@) * pow2(s as nat)) as int,
            pn as int,
            carry as int,
            value_of(out@) as int,
        );
    }
    out
}

/// Shifts a string to the right by `s` bits, less than a digit, carrying the bits
/// that leave each digit into the next lower one. The bits that leave the lowest
/// digit are lost.
fn shift_right_bits(a: &[u32], s: u32) -> (r: Vec<u32>)
    requires
        0 < s < 32,
    ensures
        r@.len() == a@.len(),
        value_of(r@) == value_of(a@) / pow2(s as nat),
{
    let n = a.len();
    let mut out = zeros(n);
    proof {
        assert((1u32 << s) >= 1) by (bit_vector)
            requires
                0 < s < 32,
        ;
    }
    let mask: u32 = (1u32 << s) - 1;
    let mut carry: u32 = 0;
    let ghost mut low: u32 = 0;
    let mut i: usize = 0;
    proof {
        assert(out@.subrange(0, 0) =~= Seq::<u32>::empty());
        assert(a@.subrange(0, 0) =~= Seq::<u32>::empty());
        assert(0nat * pow2(s as nat) == 0);
        lemma_pow2_pos(s as nat);
        assert(0u32 << ((32 - s) as u32) == 0) by (bit_vector);
    }
    while i < n
        invariant
            i <= n,
            n == a@.len(),
            out@.len() == n,
            0 < s < 32,
            mask == (((1u32 << s) - 1) as u32),
            low < pow2(s as nat),
            carry == low << ((32 - s) as u32),
            value_of(out@.subrange(0, i as int)) * pow2(s as nat) + low == value_of(
                a@.subrange(0, i as int),
            ),
        decreases n - i,
    {
        let digit = a[i];
        let last_carry = carry;
        let ghost last_low = low;
        carry = (digit & mask) << (32 - s);
        let kept: u32 = (digit >> s) | last_carry;
        proof {
            low = digit & mask;
        }
        let ghost old_out = out@;
        out.set(i, kept);
        proof {
            lemma_shift_right_step(digit, last_low, s, kept, low);
            let oi = out@.subrange(0, i + 1);
            let ai = a@.subrange(0, i + 1);
            assert(oi.drop_last() =~= old_out.subrange(0, i as int));
            assert(ai.drop_last() =~= a@.subrange(0, i as int));
            let f = pow2(s as nat);
            let ho = value_of(old_out.subrange(0, i as int));
            let ha = value_of(a@.subrange(0, i as int));
            assert((ho * radix() + kept) * f + low == ha * radix() + digit) by (nonlinear_arith)
                requires
                    kept * f + low == last_low * radix() + digit,
                    ho * f + last_low == ha,
            ;
        }
        i += 1;
    }
    proof {
        assert(out@.subrange(0, n as int) =~= out@);
        assert(a@.subrange(0, n as int) =~= a@);
        let f = pow2(s as nat);
        assert(value_of(out@) * f == f * value_of(out@)) by (nonlinear_arith);
        lemma_fundamental_div_mod_converse(
            value_of(a@) as int,
            f as int,
            value_of(out@) as int,
            low as int,
        );
    }
    out
}

/// Shifts a string to the left by `digits` whole digits and then by `bits` bits,
/// fewer than a digit has. What leaves the top is lost.
pub fn shift_left_by(a: &[u32], digits: usize, bits: u32) -> (r: Vec<u32>)
    requires
        bits < 32,
    ensures
        r@.len() == a@.len(),
        value_of(r@) == (value_of(a@) * pow2((32 * digits + bits) as nat)) % radix_pow(a@.len()),
{
    let n = a.len();
    let moved = shift_left_digits(a, digits);
    proof {
        lemma_radix_pow_is_pow2(digits as nat);
        lemma_radix_pow_positive(n as nat);
        lemma_pow2_adds(32 * (digits as nat), bits as nat);
        let v = value_of(a@);
        let pn = radix_pow(n as nat);
        let pk = radix_pow(digits as nat);
        let e = pow2(bits as nat);
        lemma_mul_mod_noop_left((v * pk) as int, e as int, pn as int);
        assert(v * pk * e == v * (pk * e)) by (nonlinear_arith);
        assert((value_of(moved@) * e) % pn == (v * pow2((32 * digits + bits) as nat)) % pn);
    }
    if bits == 0 {
        proof {
            lemma2_to64();
            assert(value_of(moved@) * 1 == value_of(moved@));
            lemma_value_bound(moved@);
            lemma_small_mod(value_of(moved@), radix_pow(n as nat));
        }
        return moved;
    }
    shift_left_bits(moved.as_slice(), bits)
}

/// Shifts a string to the right by `digits` whole digits and then by `bits` bits,
/// fewer than a digit has. What leaves the low end is lost.
pub fn shift_right_by(a: &[u32], digits: usize, bits: u32) -> (r: Vec<u32>)
    requires
        bits < 32,
    ensures
        r@.len() == a@.len(),
        value_of(r@) == value_of(a@) / pow2((32 * digits + bits) as nat),
{
    let moved = shift_right_digits(a, digits);
    proof {
        lemma_radix_pow_is_pow2(digits as nat);
        lemma_radix_pow_positive(digits as nat);
        lemma_pow2_adds(32 * (digits as nat), bits as nat);
        let v = value_of(a@);
        let pk = radix_pow(digits as nat);
        let e = pow2(bits as nat);
        lemma_pow2_pos(bits as nat);
        lemma_div_denominator(v as int, pk as int, e as int);
        assert(value_of(moved@) / e == v / pow2((32 * digits + bits) as nat));
    }
    if bits == 0 {
        proof {
            lemma2_to64();
            assert(value_of(moved@) / 1 == value_of(moved@));
        }
        return moved;
    }
    shift_right_bits(moved.as_slice(), bits)
}

/// Shifts a string to the left by `bits` bits: first by whole digits, then by the
/// bits that remain. What leaves the top is lost.
pub fn shift_left(a: &[u32], bits: u64) -> (r: Vec<u32>)
    ensures
        r@.len() == a@.len(),
        value_of(r@) == (value_of(a@) * pow2(bits as nat)) % radix_pow(a@.len()),
{
    let n = a.len();
    let whole: u64 = bits / 32;
    if whole >= n as u64 {
        proof {
            // every digit leaves the top
            let v = value_of(a@);
            let pn = radix_pow(n as nat);
            lemma_radix_pow_is_pow2(n as nat);
            lemma_radix_pow_positive(n as nat);
            lemma_pow2_adds(32 * (n as nat), (bits - 32 * n) as nat);
            assert(32 * (n as nat) + (bits - 32 * n) as nat == bits as nat);
            let e = pow2((bits - 32 * n) as nat);
            let x = v * e;
            assert(pow2(bits as nat) == pn * e);
            assert(v * pow2(bits as nat) == x * pn + 0) by (nonlinear_arith)
                requires
                    x == v * e,
                    pow2(bits as nat) == pn * e,
            ;
            lemma_fundamental_div_mod_converse(
                (v * pow2(bits as nat)) as int,
                pn as int,
                x as int,
                0,
            );
            lemma_value_zero_digits(n as nat);
        }
        return zeros(n);
    }
    shift_left_by(a, whole as usize, (bits % 32) as u32)
}

/// Shifts a string to the right by `bits` bits: first by whole digits, then by
/// the bits that remain. What leaves the low end is lost.
pub fn shift_right(a: &[u32], bits: u64) -> (r: Vec<u32>)
    ensures
        r@.len() == a@.len(),
        value_of(r@) == value_of(a@) / pow2(bits as nat),
{
    let n = a.len();
    let whole: u64 = bits / 32;
    if whole >= n as u64 {
        proof {
            let v = value_of(a@);
            lemma_value_bound(a@);
            lemma_radix_pow_is_pow2(n as nat);
            if 32 * n < bits {
                vstd::arithmetic::power2::lemma_pow2_strictly_increases(32 * (n as nat), bits as nat);
            }
            lemma_basic_div(v as int, pow2(bits as nat) as int);
            lemma_value_zero_digits(n as nat);
        }
        return zeros(n);
    }
    shift_right_by(a, whole as usize, (bits % 32) as u32)
}

} // verus!
