//! Long division of digit strings: each quotient digit is estimated from the
//! leading digits of a sliding window over the dividend and of the divisor, and
//! then corrected against the whole divisor.

use vstd::prelude::*;
use vstd::arithmetic::div_mod::{
    lemma_div_multiples_vanish_quotient,
    lemma_fundamental_div_mod,
    lemma_fundamental_div_mod_converse,
    lemma_small_mod,
    lemma_truncate_middle,
};
use crate::limbs::{
    copy_digits,
    from_digit,
    leading_index,
    leading_index_of,
    radix,
    radix_pow,
    resize,
    widen,
    significant_digits,
    significant_len,
    value_of,
    zero_digits,
    zeros,
};
use crate::limbs::add::sub_with_borrow;
use crate::limbs::compare::{compare, equal, Comparison};
use crate::limbs::lemmas::{
    lemma_leading_index,
    lemma_radix_pow_monotonic,
    lemma_radix_pow_positive,
    lemma_significant_len_bounds,
    lemma_small_value_leading_zeros,
    lemma_value_bound,
    lemma_value_concat,
    lemma_value_head,
    lemma_value_single,
    lemma_value_skip_zeros,
    lemma_value_split,
    lemma_value_zero_digits,
};
use crate::limbs::mul::mul_digit;
use crate::limbs::shift::{shift_left_digits, shift_right_digits};

verus! {

/// The quotient `u / v` lies between two products of `v`.
pub proof fn lemma_quotient_bounds(u: nat, v: nat)
    requires
        v > 0,
    ensures
        (u / v) * v <= u < (u / v + 1) * v,
        u == (u / v) * v + u % v,
        u % v < v,
{
    lemma_fundamental_div_mod(u as int, v as int);
    let q = u / v;
    assert(v * q == q * v) by (nonlinear_arith);
    assert((q + 1) * v == q * v + v) by (nonlinear_arith);
}

/// A number `d` with `d * v <= u < (d + 1) * v` is the quotient `u / v`.
pub proof fn lemma_quotient_unique(u: nat, v: nat, d: nat)
    requires
        v > 0,
        d * v <= u < (d + 1) * v,
    ensures
        d == u / v,
        u - d * v == u % v,
{
    assert(u == v * d + (u - d * v)) by (nonlinear_arith);
    assert(u - d * v < v) by (nonlinear_arith)
        requires
            u < (d + 1) * v,
    ;
    lemma_fundamental_div_mod_converse(u as int, v as int, d as int, (u - d * v) as int);
}

/// The digit estimated from the leading digits is never too small and at most two
/// too large, provided the divisor's leading digit is at least half the radix or
/// the divisor has one digit.
///
/// `w` is the weight of the divisor's leading digit `v1`; `utop` is what the
/// window `u` holds above that weight.
pub proof fn lemma_estimate_bounds(u: nat, v: nat, w: nat, v1: nat, utop: nat, qhat: nat)
    requires
        w >= 1,
        v1 >= 1,
        v1 * w <= v < (v1 + 1) * w,
        utop * w <= u < (utop + 1) * w,
        u < v * radix(),
        qhat == (if utop / v1 < radix() - 1 {
            utop / v1
        } else {
            (radix() - 1) as nat
        }),
        2 * v1 >= radix() || w == 1,
    ensures
        u / v <= qhat <= u / v + 2,
{
    let q = u / v;
    let e = utop / v1;
    assert(v > 0) by (nonlinear_arith)
        requires
            v1 * w <= v,
            v1 >= 1,
            w >= 1,
    ;
    lemma_quotient_bounds(u, v);
    lemma_quotient_bounds(utop, v1);
    // the true digit is a digit
    assert(q < radix()) by (nonlinear_arith)
        requires
            q * v <= u,
            u < v * radix(),
            v > 0,
    ;
    // never too small
    if qhat == e {
        assert(u < (e + 1) * v) by (nonlinear_arith)
            requires
                u < (utop + 1) * w,
                utop < (e + 1) * v1,
                v1 * w <= v,
                w >= 1,
        ;
        assert(q < e + 1) by (nonlinear_arith)
            requires
                q * v <= u,
                u < (e + 1) * v,
                v > 0,
        ;
    }
    // at most two too large
    if w == 1 {
        assert(v1 * 1 == v1);
        assert((v1 + 1) * 1 == v1 + 1);
        assert(utop * 1 == utop);
        assert((utop + 1) * 1 == utop + 1);
        assert(v == v1 && u == utop);
    } else if qhat >= q + 3 {
        assert(qhat <= e);
        assert(qhat * v1 <= utop) by (nonlinear_arith)
            requires
                qhat <= e,
                e * v1 <= utop,
        ;
        assert(qhat * v1 * w < (q + 1) * (v1 + 1) * w) by (nonlinear_arith)
            requires
                qhat * v1 <= utop,
                utop * w <= u,
                u < (q + 1) * v,
                v < (v1 + 1) * w,
                w >= 1,
        ;
        assert(qhat * v1 < (q + 1) * (v1 + 1)) by (nonlinear_arith)
            requires
                qhat * v1 * w < (q + 1) * (v1 + 1) * w,
                w >= 1,
        ;
        assert(2 * v1 <= q) by (nonlinear_arith)
            requires
                qhat * v1 < (q + 1) * (v1 + 1),
                qhat >= q + 3,
                v1 >= 1,
        ;
        assert(false);
    }
}

/// Scaling by `f = radix() / (v1 + 1)` brings a leading digit `v1` below half the
/// radix to at least half the radix without adding a digit.
pub proof fn lemma_normalization_factor(v1: nat, f: nat)
    requires
        1 <= v1,
        2 * v1 < radix(),
        f == radix() / (v1 + 1),
    ensures
        2 <= f < radix(),
        2 * (v1 * f) >= radix(),
        (v1 + 1) * f <= radix(),
{
    lemma_quotient_bounds(radix(), v1 + 1);
    assert(f >= 2) by (nonlinear_arith)
        requires
            radix() < (f + 1) * (v1 + 1),
            2 * (v1 + 1) <= radix(),
    ;
    assert(f < radix()) by (nonlinear_arith)
        requires
            f * (v1 + 1) <= radix(),
            v1 >= 1,
            radix() > 0,
    ;
    assert((v1 + 1) * f == f * (v1 + 1)) by (nonlinear_arith);
    if v1 == 1 {
        assert(f == radix() / 2);
    } else {
        assert(2 * (v1 * f) >= radix()) by (nonlinear_arith)
            requires
                radix() < (f + 1) * (v1 + 1),
                v1 >= 2,
                f >= 2,
        ;
    }
}

/// A value between `radix()^(k - 1)` and `radix()^k` has `k` significant digits.
pub proof fn lemma_significant_len_from_bounds(s: Seq<u32>, k: nat)
    requires
        1 <= k <= s.len(),
        radix_pow((k - 1) as nat) <= value_of(s) < radix_pow(k),
    ensures
        significant_len(s) == k,
{
    lemma_significant_len_bounds(s);
    lemma_radix_pow_positive((k - 1) as nat);
    let sl = significant_len(s);
    if sl < k {
        lemma_radix_pow_monotonic(sl, (k - 1) as nat);
    } else if sl > k {
        lemma_radix_pow_monotonic(k, (sl - 1) as nat);
    }
}

/// The leading digit of a value that is not zero, times its weight, bounds the
/// value from below, and the next digit up bounds it from above.
pub proof fn lemma_leading_digit_bounds(s: Seq<u32>)
    requires
        s.len() >= 1,
        value_of(s) != 0,
    ensures
        s[leading_index(s) as int] >= 1,
        (s[leading_index(s) as int] as nat) * radix_pow((significant_len(s) - 1) as nat)
            <= value_of(s),
        value_of(s) < (s[leading_index(s) as int] as nat + 1) * radix_pow(
            (significant_len(s) - 1) as nat,
        ),
{
    lemma_leading_index(s);
    let k = leading_index(s) as int;
    lemma_value_skip_zeros(s, k);
    let t = s.subrange(k, s.len() as int);
    lemma_value_head(t);
    lemma_value_bound(t.subrange(1, t.len() as int));
    let w = radix_pow((significant_len(s) - 1) as nat);
    let d = s[k] as nat;
    assert(t[0] == s[k]);
    assert((d + 1) * w == d * w + w) by (nonlinear_arith);
}

/// What a window of `sig + 1` digits holds above the weight `radix()^(sig - 1)`:
/// its two leading digits.
pub proof fn lemma_window_top(idd: Seq<u32>, wt: int, sig: nat)
    requires
        sig >= 1,
        wt >= 0,
        idd.len() == wt + sig + 1,
        value_of(idd) < radix_pow(sig + 1),
    ensures
        ((idd[wt] as nat) * radix() + idd[wt + 1] as nat) * radix_pow((sig - 1) as nat) <= value_of(
            idd,
        ),
        value_of(idd) < ((idd[wt] as nat) * radix() + idd[wt + 1] as nat + 1) * radix_pow(
            (sig - 1) as nat,
        ),
{
    lemma_small_value_leading_zeros(idd, sig + 1);
    lemma_value_skip_zeros(idd, wt);
    let win = idd.subrange(wt, idd.len() as int);
    lemma_value_split(win, 2);
    let two = win.subrange(0, 2);
    let rest = win.subrange(2, win.len() as int);
    lemma_value_bound(rest);
    assert(two.drop_last() =~= seq![idd[wt]]);
    lemma_value_single(two.drop_last());
    assert(two.last() == idd[wt + 1]);
    assert(value_of(two) == (idd[wt] as nat) * radix() + idd[wt + 1] as nat);
    let w = radix_pow((sig - 1) as nat);
    assert((win.len() - 2) as nat == (sig - 1) as nat);
    let t = value_of(two);
    assert((t + 1) * w == t * w + w) by (nonlinear_arith);
}

/// Joins two digits into one number, `hi` above `lo`.
pub fn join_u32(hi: u32, lo: u32) -> (r: u64)
    ensures
        r == hi * radix() + lo,
{
    proof {
        assert(((lo as u64) | ((hi as u64) << 32)) == (hi as u64) * 0x1_0000_0000 + (lo as u64))
            by (bit_vector);
    }
    (lo as u64) | ((hi as u64) << 32)
}

/// Corrects an estimated quotient digit `d` downwards until `d` times the divisor
/// no longer exceeds the window `idd`. Returns the digit and that product. Two
/// steps down are enough for an estimate that is at most two too large.
pub fn correct_d(d: u32, divisor: &[u32], idd: &[u32]) -> (r: (u32, Vec<u32>))
    requires
        divisor@.len() == idd@.len(),
        divisor@.len() >= 1,
        value_of(divisor@) > 0,
        value_of(divisor@) < radix_pow((divisor@.len() - 1) as nat),
        value_of(idd@) / value_of(divisor@) <= d <= value_of(idd@) / value_of(divisor@) + 2,
    ensures
        r.0 == value_of(idd@) / value_of(divisor@),
        r.1@.len() == idd@.len(),
        value_of(r.1@) == r.0 * value_of(divisor@),
{
    let ghost u = value_of(idd@);
    let ghost v = value_of(divisor@);
    let ghost q = u / v;
    let ghost len = divisor@.len();
    let mut d = d;
    let (product, carry) = mul_digit(divisor, d);
    let mut t = product;
    proof {
        lemma_quotient_bounds(u, v);
        lemma_value_bound(t@);
        let p = radix_pow((len - 1) as nat);
        assert(radix_pow(len) == radix() * p);
        assert(carry == 0) by (nonlinear_arith)
            requires
                value_of(t@) + carry * (radix() * p) == v * d,
                v < p,
                d < radix(),
                value_of(t@) >= 0,
                carry >= 0,
        ;
        assert(0 * radix_pow(len) == 0);
        assert(v * d == d * v) by (nonlinear_arith);
    }
    if compare(t.as_slice(), idd) == Comparison::Greater {
        proof {
            assert(d > q) by (nonlinear_arith)
                requires
                    d * v > u,
                    q * v <= u,
                    v > 0,
            ;
            assert((d - 1) * v == d * v - v) by (nonlinear_arith);
        }
        d -= 1;
        let (less, borrow) = sub_with_borrow(t.as_slice(), divisor);
        t = less;
        if compare(t.as_slice(), idd) == Comparison::Greater {
            proof {
                assert(d > q) by (nonlinear_arith)
                    requires
                        d * v > u,
                        q * v <= u,
                        v > 0,
                ;
                assert((d - 1) * v == d * v - v) by (nonlinear_arith);
            }
            d -= 1;
            let (less, borrow) = sub_with_borrow(t.as_slice(), divisor);
            t = less;
        }
    }
    proof {
        assert(d * v <= u);
        if d < q {
            assert(false);
        }
        assert(d == q) by (nonlinear_arith)
            requires
                d * v <= u,
                u < (q + 1) * v,
                d >= q,
                v > 0,
        ;
    }
    (d, t)
}

/// Puts `digit` behind the digits of `idd`: the window times the radix, plus the
/// digit. The top digit of `idd` must be zero.
pub fn push_digit(idd: &[u32], digit: u32) -> (r: Vec<u32>)
    requires
        idd@.len() >= 1,
        idd@[0] == 0,
    ensures
        r@.len() == idd@.len(),
        r@ == idd@.subrange(1, idd@.len() as int).push(digit),
        value_of(r@) == value_of(idd@) * radix() + digit,
{
    let n = idd.len();
    let mut out = shift_left_digits(idd, 1);
    out.set(n - 1, digit);
    proof {
        assert(out@ =~= idd@.subrange(1, n as int).push(digit));
        assert(out@.drop_last() =~= idd@.subrange(1, n as int));
        lemma_value_skip_zeros(idd@, 1);
    }
    out
}

/// The first window over the dividend: a zero digit, then the `sig` leading digits
/// of `num` from `first` on, at the low end of a string as long as `num`.
fn first_window(num: &[u32], first: usize, sig: usize) -> (r: Vec<u32>)
    requires
        sig >= 1,
        first + sig <= num@.len(),
    ensures
        r@.len() == num@.len(),
        r@ == zero_digits((num@.len() - sig) as nat) + num@.subrange(first as int, first + sig),
{
    let len = num.len();
    let start: usize = len - sig;
    let mut idd = zeros(len);
    let mut i: usize = 0;
    while i < sig
        invariant
            i <= sig,
            start == len - sig,
            first + sig <= len,
            num@.len() == len,
            idd@.len() == len,
            forall|j: int| 0 <= j < start ==> idd@[j] == 0,
            forall|j: int| start <= j < start + i ==> idd@[j] == num@[j - start + first],
        decreases sig - i,
    {
        idd.set(start + i, num[first + i]);
        i += 1;
    }
    proof {
        assert(idd@ =~= zero_digits((len - sig) as nat) + num@.subrange(first as int, first + sig));
    }
    idd
}

/// Scales dividend and divisor so that the divisor's leading digit is at least
/// half the radix, where the divisor has more than one significant digit.
/// Returns the scaled dividend, the scaled divisor and the factor.
fn normalize(num: Vec<u32>, den: Vec<u32>) -> (r: (Vec<u32>, Vec<u32>, u32))
    requires
        num@.len() == den@.len(),
        den@.len() >= 2,
        value_of(den@) > 0,
        value_of(num@) < radix_pow((num@.len() - 1) as nat),
        value_of(den@) < radix_pow((den@.len() - 1) as nat),
    ensures
        r.0@.len() == num@.len(),
        r.1@.len() == den@.len(),
        r.2 >= 1,
        value_of(r.0@) == value_of(num@) * r.2,
        value_of(r.1@) == value_of(den@) * r.2,
        significant_len(r.1@) == significant_len(den@),
        r.2 != 1 ==> significant_len(den@) > 1,
        r.2 == 1 ==> r.0@ == num@ && r.1@ == den@,
        significant_len(r.1@) == 1 ==> r.2 == 1,
        2 * r.1@[leading_index(r.1@) as int] >= radix() || significant_len(r.1@) == 1,
{
    let ghost len = den@.len();
    let lead_at = leading_index_of(den.as_slice());
    let lead = den[lead_at];
    let sig = den.len() - lead_at;
    proof {
        lemma_leading_digit_bounds(den@);
        lemma_significant_len_bounds(den@);
    }
    if sig > 1 && lead < 0x8000_0000 {
        let divisor: u64 = lead as u64 + 1;
        proof {
            assert(divisor >= 2 ==> 0x1_0000_0000u64 / divisor <= 0x8000_0000) by (bit_vector);
        }
        let factor: u32 = (0x1_0000_0000u64 / divisor) as u32;
        let (scaled_num, carry_num) = mul_digit(num.as_slice(), factor);
        let (scaled_den, carry_den) = mul_digit(den.as_slice(), factor);
        proof {
            let f = factor as nat;
            let v1 = lead as nat;
            let v = value_of(den@);
            let w = radix_pow((sig - 1) as nat);
            let p = radix_pow((len - 1) as nat);
            lemma_normalization_factor(v1, f);
            lemma_value_bound(scaled_num@);
            lemma_value_bound(scaled_den@);
            assert(radix_pow(len) == radix() * p);
            assert(carry_num == 0) by (nonlinear_arith)
                requires
                    value_of(scaled_num@) + carry_num * (radix() * p) == value_of(num@) * f,
                    value_of(num@) < p,
                    f < radix(),
                    carry_num >= 0,
                    value_of(scaled_num@) >= 0,
            ;
            assert(carry_den == 0) by (nonlinear_arith)
                requires
                    value_of(scaled_den@) + carry_den * (radix() * p) == v * f,
                    v < p,
                    f < radix(),
                    carry_den >= 0,
                    value_of(scaled_den@) >= 0,
            ;
            assert(0 * radix_pow(len) == 0);
            // the scaled divisor keeps its count of digits
            assert(radix_pow(sig as nat) == radix() * w);
            assert(2 * (v * f) >= radix() * w) by (nonlinear_arith)
                requires
                    v1 * w <= v,
                    2 * (v1 * f) >= radix(),
                    w >= 0,
                    f >= 0,
            ;
            assert(v * f < radix() * w) by (nonlinear_arith)
                requires
                    v < (v1 + 1) * w,
                    (v1 + 1) * f <= radix(),
                    f >= 1,
                    w >= 0,
            ;
            lemma_radix_pow_positive((sig - 1) as nat);
            assert(v * f >= w) by (nonlinear_arith)
                requires
                    2 * (v * f) >= radix() * w,
                    radix() >= 2,
                    w >= 1,
            ;
            lemma_significant_len_from_bounds(scaled_den@, sig as nat);
            lemma_leading_digit_bounds(scaled_den@);
            let top = scaled_den@[leading_index(scaled_den@) as int] as nat;
            assert(2 * top >= radix()) by (nonlinear_arith)
                requires
                    2 * (v * f) >= radix() * w,
                    v * f < (top + 1) * w,
                    w >= 1,
                    radix() == 0x1_0000_0000,
            ;
        }
        (scaled_num, scaled_den, factor)
    } else {
        proof {
            assert(value_of(num@) * 1 == value_of(num@));
            assert(value_of(den@) * 1 == value_of(den@));
        }
        (num, den, 1)
    }
}

/// Divides `a` by `b`, two strings of one length. Returns the quotient and, where
/// `want_rem` is set, the remainder. Where it is not set, the remainder is still
/// given if it costs nothing, and zero is given otherwise.
///
/// A divisor of one, and a dividend that is not above the divisor, are answered
/// at once. Otherwise both are widened by one digit and scaled, and the quotient
/// is built digit by digit, most significant first, from a window over the
/// dividend's leading digits.
pub fn div_rem(a: &[u32], b: &[u32], want_rem: bool) -> (r: (Vec<u32>, Vec<u32>))
    requires
        a@.len() == b@.len(),
        value_of(b@) != 0,
    ensures
        r.0@.len() == a@.len(),
        r.1@.len() == a@.len(),
        value_of(r.0@) == value_of(a@) / value_of(b@),
        want_rem ==> value_of(r.1@) == value_of(a@) % value_of(b@),
        !want_rem ==> value_of(r.1@) == (if value_of(b@) == 1 || value_of(a@) <= value_of(b@) {
            value_of(a@) % value_of(b@)
        } else {
            0
        }),
    decreases significant_len(b@),
{
    let n = a.len();
    let ghost av = value_of(a@);
    let ghost bv = value_of(b@);
    proof {
        lemma_value_zero_digits(n as nat);
        if n == 0 {
            assert(value_of(b@) == 0);
        }
    }
    let one = from_digit(n, 1);
    if equal(b, one.as_slice()) {
        proof {
            assert(av / 1 == av);
            assert(av % 1 == 0);
        }
        return (copy_digits(a), zeros(n));
    }
    match compare(a, b) {
        Comparison::Less => {
            proof {
                lemma_small_mod(av, bv);
                vstd::arithmetic::div_mod::lemma_basic_div(av as int, bv as int);
            }
            return (zeros(n), copy_digits(a));
        },
        Comparison::Equal => {
            proof {
                vstd::arithmetic::div_mod::lemma_div_by_self(bv as int);
                vstd::arithmetic::div_mod::lemma_mod_self_0(bv as int);
            }
            return (one, zeros(n));
        },
        Comparison::Greater => {},
    }
    // widen by one digit, then scale
    let wide_a = widen(a, 1);
    let wide_b = widen(b, 1);
    let m = wide_a.len();
    proof {
        lemma_value_bound(a@);
        lemma_value_bound(b@);
        lemma_leading_index(b@);
        lemma_leading_index(wide_b@);
        lemma_significant_len_bounds(b@);
        lemma_significant_len_bounds(wide_b@);
        lemma_significant_len_from_bounds(wide_b@, significant_len(b@));
    }
    let (num, den, factor) = normalize(wide_a, wide_b);
    let ghost f = factor as nat;
    let ghost nv = value_of(num@);
    let ghost dv = value_of(den@);
    let sig = significant_digits(den.as_slice());
    let top = den[m - sig];
    let first = leading_index_of(num.as_slice());
    let ghost w = radix_pow((sig - 1) as nat);
    proof {
        assert(dv > 0 && nv > dv) by (nonlinear_arith)
            requires
                nv == av * f,
                dv == bv * f,
                av > bv,
                bv > 0,
                f >= 1,
        ;
        lemma_leading_index(den@);
        lemma_leading_digit_bounds(den@);
        lemma_significant_len_bounds(den@);
        lemma_significant_len_bounds(num@);
        lemma_leading_index(num@);
        lemma_radix_pow_positive((sig - 1) as nat);
        assert(top == den@[leading_index(den@) as int]);
        assert(w <= dv) by (nonlinear_arith)
            requires
                (top as nat) * w <= dv,
                top >= 1,
                w >= 0,
        ;
        // the divisor still leaves its top digit free
        assert(sig <= n);
        lemma_radix_pow_monotonic(sig as nat, n as nat);
        // the dividend has at least as many digits as the divisor
        if significant_len(num@) < sig {
            lemma_radix_pow_monotonic(significant_len(num@), (sig - 1) as nat);
            assert(false);
        }
        assert(first + sig <= n + 1);
        if sig == 1 {
            assert(factor == 1);
            assert(av * 1 == av);
            assert(num@ == zero_digits(1) + a@);
            assert(num@[0] == 0);
            assert(first >= 1);
        }
        assert(first + sig >= 2);
    }
    let window_top: usize = n - sig;
    let mut idd = first_window(num.as_slice(), first, sig);
    let mut quotient = zeros(n);
    let mut count: usize = 0;
    let mut pos: usize = first + sig;
    proof {
        let head = num@.subrange(0, pos as int);
        let taken = num@.subrange(first as int, pos as int);
        lemma_value_concat(zero_digits((window_top + 1) as nat), taken);
        lemma_value_zero_digits((window_top + 1) as nat);
        assert(0 * radix_pow(taken.len()) == 0);
        assert forall|j: int| 0 <= j < first implies head[j] == 0 by {
            assert(head[j] == num@[j]);
        }
        lemma_value_skip_zeros(head, first as int);
        assert(head.subrange(first as int, pos as int) =~= taken);
        lemma_value_bound(taken);
        assert(radix_pow(sig as nat) == radix() * w);
        assert(value_of(idd@) < dv * radix()) by (nonlinear_arith)
            requires
                value_of(idd@) < radix() * w,
                w <= dv,
        ;
        assert(quotient@.subrange(0, 0) =~= Seq::<u32>::empty());
        assert(0 * (radix() * dv) == 0);
    }
    loop
        invariant_except_break
            value_of(num@.subrange(0, pos as int)) == value_of(quotient@.subrange(0, count as int))
                * (radix() * dv) + value_of(idd@),
            value_of(idd@) < dv * radix(),
            count == pos - (first + sig),
        invariant
            m == n + 1,
            num@.len() == n + 1,
            den@.len() == n + 1,
            idd@.len() == n + 1,
            quotient@.len() == n,
            1 <= sig <= n,
            window_top == n - sig,
            dv == value_of(den@),
            nv == value_of(num@),
            dv > 0,
            dv < radix_pow(n as nat),
            top >= 1,
            w == radix_pow((sig - 1) as nat),
            (top as nat) * w <= dv < (top as nat + 1) * w,
            2 * top >= radix() || sig == 1,
            first + sig >= 2,
            first + sig <= pos <= n + 1,
            count <= n,
            forall|j: int| count <= j < n ==> quotient@[j] == 0,
        ensures
            pos == n + 1,
            count >= 1,
            nv == value_of(quotient@.subrange(0, count as int)) * dv + value_of(idd@),
            value_of(idd@) < dv,
        decreases n + 1 - pos,
    {
        let ghost u = value_of(idd@);
        let ghost q_before = value_of(quotient@.subrange(0, count as int));
        proof {
            assert(radix_pow((sig + 1) as nat) == radix() * radix_pow(sig as nat));
            assert(radix_pow(sig as nat) == radix() * w);
            assert(u < radix() * (radix() * w)) by (nonlinear_arith)
                requires
                    u < dv * radix(),
                    dv < (top as nat + 1) * w,
                    top as nat + 1 <= radix(),
                    w >= 0,
            ;
            lemma_window_top(idd@, window_top as int, sig as nat);
        }
        // first estimate of the digit, from the two leading digits of the window
        let joined = join_u32(idd[window_top], idd[window_top + 1]);
        let ratio: u64 = joined / (top as u64);
        let estimate: u32 = if ratio < 0xffff_ffff {
            ratio as u32
        } else {
            0xffff_ffff
        };
        proof {
            lemma_estimate_bounds(u, dv, w, top as nat, joined as nat, estimate as nat);
        }
        let (digit, product) = correct_d(estimate, den.as_slice(), idd.as_slice());
        let ghost quotient_before = quotient@;
        quotient.set(count, digit);
        count += 1;
        let (rest, borrow) = sub_with_borrow(idd.as_slice(), product.as_slice());
        idd = rest;
        proof {
            lemma_quotient_bounds(u, dv);
            assert(!borrow);
            let r = value_of(idd@);
            assert(r == u - digit * dv);
            assert(r < dv) by (nonlinear_arith)
                requires
                    r == u - digit * dv,
                    u < (digit + 1) * dv,
            ;
            let qs = quotient@.subrange(0, count as int);
            assert(qs.drop_last() =~= quotient_before.subrange(0, count - 1));
            assert(qs.last() == digit);
            let q_now = value_of(qs);
            assert(q_now == q_before * radix() + digit);
            assert(q_before * (radix() * dv) + u == q_now * dv + r) by (nonlinear_arith)
                requires
                    q_now == q_before * radix() + digit,
                    r == u - digit * dv,
            ;
        }
        if pos == m {
            proof {
                assert(num@.subrange(0, pos as int) =~= num@);
            }
            break ;
        }
        proof {
            // the remainder is below the divisor, so its top digit is zero
            lemma_small_value_leading_zeros(idd@, n as nat);
            let r = value_of(idd@);
            let q_now = value_of(quotient@.subrange(0, count as int));
            let next = num@[pos as int] as nat;
            let longer = num@.subrange(0, pos + 1);
            assert(longer.drop_last() =~= num@.subrange(0, pos as int));
            assert(longer.last() == num@[pos as int]);
            assert((q_now * dv + r) * radix() + next == q_now * (radix() * dv) + (r * radix() + next))
                by (nonlinear_arith);
            assert(r * radix() + next < dv * radix()) by (nonlinear_arith)
                requires
                    r < dv,
                    next < radix(),
            ;
        }
        idd = push_digit(idd.as_slice(), num[pos]);
        pos += 1;
    }
    // the digits were written from the front: move them to the low end
    let aligned = shift_right_digits(quotient.as_slice(), n - count);
    let rest = resize(idd.as_slice(), n);
    proof {
        let qs = quotient@.subrange(0, count as int);
        let qv = value_of(qs);
        let r = value_of(idd@);
        assert(aligned@ == zero_digits((n - count) as nat) + qs);
        lemma_value_concat(zero_digits((n - count) as nat), qs);
        lemma_value_zero_digits((n - count) as nat);
        assert(0 * radix_pow(qs.len()) == 0);
        assert((qv + 1) * dv == qv * dv + dv) by (nonlinear_arith);
        lemma_quotient_unique(nv, dv, qv);
        assert(f > 0);
        lemma_div_multiples_vanish_quotient(f as int, av as int, bv as int);
        assert(f * av == av * f && f * bv == bv * f) by (nonlinear_arith);
        lemma_truncate_middle(av as int, f as int, bv as int);
        assert(r == f * (av % bv));
        lemma_small_mod(r, radix_pow(n as nat));
        assert(value_of(rest@) == r);
    }
    if !want_rem {
        return (aligned, zeros(n));
    }
    if factor == 1 {
        proof {
            assert(1 * (av % bv) == av % bv);
        }
        return (aligned, rest);
    }
    let scale = from_digit(n, factor);
    proof {
        assert(significant_len(b@) > 1);
        lemma_significant_len_from_scale(scale@);
    }
    let (remainder, _) = div_rem(rest.as_slice(), scale.as_slice(), false);
    proof {
        let m = av % bv;
        assert(f * m == m * f) by (nonlinear_arith);
        vstd::arithmetic::div_mod::lemma_div_multiples_vanish(m as int, f as int);
    }
    (aligned, remainder)
}

/// A string whose digits before the last are zero has one significant digit.
proof fn lemma_significant_len_from_scale(s: Seq<u32>)
    requires
        s.len() >= 1,
        forall|i: int| 0 <= i < s.len() - 1 ==> s[i] == 0,
    ensures
        significant_len(s) == 1,
{
    crate::limbs::lemmas::lemma_leading_index_unique(s, s.len() - 1);
}

} // verus!
