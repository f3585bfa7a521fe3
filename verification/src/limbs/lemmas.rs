//! Facts about the value of a digit string.

use vstd::prelude::*;
use crate::limbs::{radix, radix_pow, value_of, zero_digits, leading_index, significant_len};

verus! {

/// A power of the radix is at least one.
pub proof fn lemma_radix_pow_positive(n: nat)
    ensures
        radix_pow(n) >= 1,
    decreases n,
{
    if n > 0 {
        lemma_radix_pow_positive((n - 1) as nat);
        assert(radix() * radix_pow((n - 1) as nat) >= 1) by (nonlinear_arith)
            requires
                radix() >= 1,
                radix_pow((n - 1) as nat) >= 1,
        ;
    }
}

/// The power to a sum of exponents is the product of the powers.
pub proof fn lemma_radix_pow_adds(m: nat, n: nat)
    ensures
        radix_pow(m + n) == radix_pow(m) * radix_pow(n),
    decreases m,
{
    if m == 0 {
        assert(radix_pow(0) == 1);
        assert(1 * radix_pow(n) == radix_pow(n));
    } else {
        lemma_radix_pow_adds((m - 1) as nat, n);
        let x = radix_pow((m - 1) as nat);
        let y = radix_pow(n);
        assert(radix_pow(m + n) == radix() * radix_pow((m + n - 1) as nat));
        assert((m - 1) as nat + n == (m + n - 1) as nat);
        assert(radix() * (x * y) == (radix() * x) * y) by (nonlinear_arith);
    }
}

/// A larger exponent gives a power that is not smaller.
pub proof fn lemma_radix_pow_monotonic(m: nat, n: nat)
    requires
        m <= n,
    ensures
        radix_pow(m) <= radix_pow(n),
{
    lemma_radix_pow_adds(m, (n - m) as nat);
    lemma_radix_pow_positive((n - m) as nat);
    lemma_radix_pow_positive(m);
    let x = radix_pow(m);
    let y = radix_pow((n - m) as nat);
    assert(m + (n - m) as nat == n);
    assert(x <= x * y) by (nonlinear_arith)
        requires
            x >= 1,
            y >= 1,
    ;
}

/// The powers of the radix to the exponents 0 and 1.
pub proof fn lemma_radix_pow_one()
    ensures
        radix_pow(1) == radix(),
        radix_pow(0) == 1,
{
    assert(radix_pow(1) == radix() * radix_pow(0));
}

/// A string of `n` digits denotes a number below `radix()^n`.
pub proof fn lemma_value_bound(s: Seq<u32>)
    ensures
        value_of(s) < radix_pow(s.len()),
    decreases s.len(),
{
    if s.len() > 0 {
        lemma_value_bound(s.drop_last());
        let h = value_of(s.drop_last());
        let p = radix_pow((s.len() - 1) as nat);
        assert(h * radix() + (s.last() as nat) < radix() * p) by (nonlinear_arith)
            requires
                h < p,
                (s.last() as nat) < radix(),
        ;
    }
}

/// The value of two strings joined end to end.
pub proof fn lemma_value_concat(s: Seq<u32>, t: Seq<u32>)
    ensures
        value_of(s + t) == value_of(s) * radix_pow(t.len()) + value_of(t),
    decreases t.len(),
{
    if t.len() == 0 {
        assert(s + t =~= s);
        assert(value_of(s) * 1 == value_of(s));
    } else {
        lemma_value_concat(s, t.drop_last());
        assert((s + t).drop_last() =~= s + t.drop_last());
        assert((s + t).last() == t.last());
        let a = value_of(s);
        let p = radix_pow((t.len() - 1) as nat);
        let b = value_of(t.drop_last());
        assert((a * p + b) * radix() == a * (radix() * p) + b * radix()) by (nonlinear_arith);
    }
}

/// The value of a string, split at `k` into a high and a low part.
pub proof fn lemma_value_split(s: Seq<u32>, k: int)
    requires
        0 <= k <= s.len(),
    ensures
        value_of(s) == value_of(s.subrange(0, k)) * radix_pow((s.len() - k) as nat) + value_of(
            s.subrange(k, s.len() as int),
        ),
{
    assert(s =~= s.subrange(0, k) + s.subrange(k, s.len() as int));
    lemma_value_concat(s.subrange(0, k), s.subrange(k, s.len() as int));
}

/// The value of a string of one digit.
pub proof fn lemma_value_single(s: Seq<u32>)
    requires
        s.len() == 1,
    ensures
        value_of(s) == s[0] as nat,
{
    assert(s.drop_last().len() == 0);
    assert(value_of(s.drop_last()) == 0);
}

/// The value of a string in terms of its first digit and the rest.
pub proof fn lemma_value_head(s: Seq<u32>)
    requires
        s.len() >= 1,
    ensures
        value_of(s) == (s[0] as nat) * radix_pow((s.len() - 1) as nat) + value_of(
            s.subrange(1, s.len() as int),
        ),
{
    lemma_value_split(s, 1);
    lemma_value_single(s.subrange(0, 1));
}

/// A string of zeros denotes zero.
pub proof fn lemma_value_zero_digits(n: nat)
    ensures
        value_of(zero_digits(n)) == 0,
    decreases n,
{
    if n > 0 {
        lemma_value_zero_digits((n - 1) as nat);
        assert(zero_digits(n).drop_last() =~= zero_digits((n - 1) as nat));
    }
}

/// A string denotes zero exactly when all its digits are zero.
pub proof fn lemma_value_zero_iff(s: Seq<u32>)
    ensures
        value_of(s) == 0 <==> (forall|i: int| 0 <= i < s.len() ==> s[i] == 0),
    decreases s.len(),
{
    if s.len() > 0 {
        lemma_value_zero_iff(s.drop_last());
        let h = value_of(s.drop_last());
        assert(h * radix() >= h) by (nonlinear_arith)
            requires
                radix() >= 1,
                h >= 0,
        ;
        if value_of(s) == 0 {
            assert(h == 0);
            assert forall|i: int| 0 <= i < s.len() implies s[i] == 0 by {
                if i < s.len() - 1 {
                    assert(s.drop_last()[i] == s[i]);
                }
            }
        }
        if forall|i: int| 0 <= i < s.len() ==> s[i] == 0 {
            assert forall|i: int| 0 <= i < s.drop_last().len() implies s.drop_last()[i] == 0 by {
                assert(s.drop_last()[i] == s[i]);
            }
            assert(h == 0);
        }
    }
}

/// Zeros at the front of a string do not change its value.
pub proof fn lemma_value_skip_zeros(s: Seq<u32>, k: int)
    requires
        0 <= k <= s.len(),
        forall|i: int| 0 <= i < k ==> s[i] == 0,
    ensures
        value_of(s) == value_of(s.subrange(k, s.len() as int)),
{
    lemma_value_split(s, k);
    lemma_value_zero_iff(s.subrange(0, k));
    assert(value_of(s.subrange(0, k)) == 0);
    assert(0 * radix_pow((s.len() - k) as nat) == 0);
}

/// A string whose value is below `radix()^k` has only zeros before its last `k` digits.
pub proof fn lemma_small_value_leading_zeros(s: Seq<u32>, k: nat)
    requires
        k <= s.len(),
        value_of(s) < radix_pow(k),
    ensures
        forall|i: int| 0 <= i < s.len() - k ==> s[i] == 0,
{
    let m = s.len() - k;
    lemma_value_split(s, m);
    let h = value_of(s.subrange(0, m));
    let p = radix_pow(k);
    assert((s.len() - m) as nat == k);
    lemma_radix_pow_positive(k);
    assert(h == 0) by (nonlinear_arith)
        requires
            h * p < p,
            p >= 1,
            h >= 0,
    ;
    lemma_value_zero_iff(s.subrange(0, m));
    assert forall|i: int| 0 <= i < s.len() - k implies s[i] == 0 by {
        assert(s.subrange(0, m)[i] == s[i]);
    }
}

/// A string whose digit at `k` is not zero denotes at least `radix()^(len - 1 - k)`.
pub proof fn lemma_value_lower_bound(s: Seq<u32>, k: int)
    requires
        0 <= k < s.len(),
        s[k] != 0,
    ensures
        value_of(s) >= radix_pow((s.len() - 1 - k) as nat),
{
    lemma_value_split(s, k);
    let low = s.subrange(k, s.len() as int);
    lemma_value_head(low);
    let p = radix_pow((s.len() - 1 - k) as nat);
    let q = radix_pow((s.len() - k) as nat);
    let h = value_of(s.subrange(0, k));
    assert(low[0] == s[k]);
    assert((low.len() - 1) as nat == (s.len() - 1 - k) as nat);
    assert((low[0] as nat) * p >= p) by (nonlinear_arith)
        requires
            (low[0] as nat) >= 1,
            p >= 0,
    ;
    assert(h * q >= 0) by (nonlinear_arith)
        requires
            h >= 0,
            q >= 0,
    ;
}

/// Two strings of one length with one value are the same string.
pub proof fn lemma_value_injective(s: Seq<u32>, t: Seq<u32>)
    requires
        s.len() == t.len(),
        value_of(s) == value_of(t),
    ensures
        s == t,
    decreases s.len(),
{
    if s.len() == 0 {
        assert(s =~= t);
    } else {
        let a = value_of(s.drop_last());
        let b = value_of(t.drop_last());
        let x = s.last() as nat;
        let y = t.last() as nat;
        assert(a == b && x == y) by (nonlinear_arith)
            requires
                a * radix() + x == b * radix() + y,
                x < radix(),
                y < radix(),
                radix() > 0,
        ;
        lemma_value_injective(s.drop_last(), t.drop_last());
        assert(s =~= s.drop_last().push(s.last()));
        assert(t =~= t.drop_last().push(t.last()));
    }
}

/// Strings of one length are ordered by the first digit in which they differ.
pub proof fn lemma_value_order(s: Seq<u32>, t: Seq<u32>, k: int)
    requires
        s.len() == t.len(),
        0 <= k < s.len(),
        forall|i: int| 0 <= i < k ==> s[i] == t[i],
        s[k] < t[k],
    ensures
        value_of(s) < value_of(t),
{
    let n = s.len() as int;
    lemma_value_split(s, k);
    lemma_value_split(t, k);
    assert(s.subrange(0, k) =~= t.subrange(0, k));
    let ls = s.subrange(k, n);
    let lt = t.subrange(k, n);
    lemma_value_head(ls);
    lemma_value_head(lt);
    lemma_value_bound(ls.subrange(1, ls.len() as int));
    let p = radix_pow((n - k - 1) as nat);
    let rs = value_of(ls.subrange(1, ls.len() as int));
    let rt = value_of(lt.subrange(1, lt.len() as int));
    assert(ls[0] == s[k] && lt[0] == t[k]);
    assert((ls[0] as nat) * p + rs < (lt[0] as nat) * p + rt) by (nonlinear_arith)
        requires
            rs < p,
            rt >= 0,
            (ls[0] as nat) + 1 <= lt[0] as nat,
    ;
}

/// What `leading_index` finds: zeros before it, and a digit that is not zero at it
/// unless the whole string is zeros.
pub proof fn lemma_leading_index(s: Seq<u32>)
    requires
        s.len() >= 1,
    ensures
        leading_index(s) < s.len(),
        forall|i: int| 0 <= i < leading_index(s) ==> s[i] == 0,
        s[leading_index(s) as int] != 0 || (leading_index(s) == s.len() - 1 && value_of(s) == 0),
        s[leading_index(s) as int] != 0 ==> value_of(s) != 0,
    decreases s.len(),
{
    if s.len() == 1 {
        lemma_value_single(s);
    } else if s[0] != 0 {
        lemma_value_lower_bound(s, 0);
        lemma_radix_pow_positive((s.len() - 1) as nat);
    } else {
        let t = s.subrange(1, s.len() as int);
        lemma_leading_index(t);
        lemma_value_skip_zeros(s, 1);
        assert forall|i: int| 0 <= i < leading_index(s) implies s[i] == 0 by {
            if i > 0 {
                assert(t[i - 1] == s[i]);
            }
        }
        assert(t[leading_index(t) as int] == s[leading_index(s) as int]);
    }
}

/// `leading_index` is the only index with zeros before it and a digit that is not
/// zero at it.
pub proof fn lemma_leading_index_unique(s: Seq<u32>, k: int)
    requires
        0 <= k < s.len(),
        forall|i: int| 0 <= i < k ==> s[i] == 0,
        s[k] != 0 || k == s.len() - 1,
    ensures
        leading_index(s) == k,
{
    lemma_leading_index(s);
    let m = leading_index(s) as int;
    if m < k {
        assert(s[m] == 0);
    } else if k < m {
        assert(s[k] == 0);
    }
}

/// The bounds that the count of significant digits puts on a value that is not zero.
pub proof fn lemma_significant_len_bounds(s: Seq<u32>)
    requires
        s.len() >= 1,
    ensures
        1 <= significant_len(s) <= s.len(),
        value_of(s) < radix_pow(significant_len(s)),
        value_of(s) != 0 ==> value_of(s) >= radix_pow((significant_len(s) - 1) as nat),
        value_of(s) == value_of(s.subrange(leading_index(s) as int, s.len() as int)),
{
    lemma_leading_index(s);
    let k = leading_index(s) as int;
    lemma_value_skip_zeros(s, k);
    lemma_value_bound(s.subrange(k, s.len() as int));
    if value_of(s) != 0 {
        lemma_value_lower_bound(s, k);
    }
}

} // verus!
