//! The digits of a fixed-width integer to another base, and its rendering as
//! text.

use vstd::prelude::*;
use vstd::arithmetic::div_mod::{
    lemma_div_decreases,
    lemma_div_denominator,
    lemma_fundamental_div_mod,
    lemma_fundamental_div_mod_converse,
    lemma_small_mod,
    lemma_basic_div,
};
use crate::limbs::radix;
use crate::limbs::lemmas::{
    lemma_small_value_leading_zeros,
    lemma_value_skip_zeros,
    lemma_value_single,
    lemma_radix_pow_one,
};
use crate::uint::Uint;

verus! {

/// The digits of `v` to the base `base`, least significant first: one digit for
/// a number below the base, zero too, and no zero at the high end otherwise.
pub open spec fn digits_le(v: nat, base: nat) -> Seq<u32>
    decreases v,
    when base >= 2
    via digits_le_decreases
{
    if v < base {
        seq![v as u32]
    } else {
        seq![(v % base) as u32] + digits_le(v / base, base)
    }
}

#[via_fn]
proof fn digits_le_decreases(v: nat, base: nat) {
    if v >= base {
        lemma_div_decreases(v as int, base as int);
    }
}

/// The `count` low digits of `v` to the base `base`, least significant first,
/// zeros included.
pub open spec fn fixed_digits_le(v: nat, base: nat, count: nat) -> Seq<u32>
    decreases count,
{
    if count == 0 {
        Seq::empty()
    } else {
        seq![(v % base) as u32] + fixed_digits_le(v / base, base, (count - 1) as nat)
    }
}

/// The number that digits to the base `base` denote, least significant first.
pub open spec fn eval_le(digits: Seq<u32>, base: nat) -> nat
    decreases digits.len(),
{
    if digits.len() == 0 {
        0
    } else {
        digits[0] as nat + base * eval_le(digits.skip(1), base)
    }
}

/// `base` to the power `k`.
pub open spec fn base_pow(base: nat, k: nat) -> nat
    decreases k,
{
    if k == 0 {
        1
    } else {
        base * base_pow(base, (k - 1) as nat)
    }
}

/// The character for a digit below 36: `0` to `9`, then `a` to `z`.
pub open spec fn digit_char(d: u32) -> char {
    if d < 10 {
        ((48 + d) as u8) as char
    } else {
        ((87 + d) as u8) as char
    }
}

/// The upper-case form of a lower-case letter of ASCII; any other character
/// itself.
pub open spec fn upper_char(c: char) -> char {
    if 'a' <= c && c <= 'z' {
        ((c as u8 - 32) as u8) as char
    } else {
        c
    }
}

/// Digits given least significant first, as text: most significant first, one
/// character each.
pub open spec fn rendered(digits: Seq<u32>) -> Seq<char> {
    Seq::new(digits.len(), |i: int| digit_char(digits[digits.len() - 1 - i]))
}

/// Text with each lower-case letter of ASCII replaced by its upper-case form.
pub open spec fn upper_cased(text: Seq<char>) -> Seq<char> {
    Seq::new(text.len(), |i: int| upper_char(text[i]))
}

/// What `digits_le` yields: at least one digit, each below the base, the last
/// not zero unless the number is zero, and together they denote the number.
pub proof fn lemma_digits_le(v: nat, base: nat)
    requires
        2 <= base <= u32::MAX,
    ensures
        digits_le(v, base).len() >= 1,
        forall|i: int| 0 <= i < digits_le(v, base).len() ==> (#[trigger] digits_le(v, base)[i]) < base,
        v != 0 ==> digits_le(v, base).last() != 0,
        v == 0 ==> digits_le(v, base) == seq![0u32],
        eval_le(digits_le(v, base), base) == v,
    decreases v,
{
    let d = digits_le(v, base);
    assert(d.len() >= 1);
    assert(eval_le(d, base) == d[0] as nat + base * eval_le(d.skip(1), base));
    if v < base {
        assert(d.skip(1).len() == 0);
        assert(base * 0 == 0);
    } else {
        lemma_div_decreases(v as int, base as int);
        lemma_fundamental_div_mod(v as int, base as int);
        let rest = digits_le(v / base, base);
        lemma_digits_le(v / base, base);
        assert(d.skip(1) =~= rest);
        assert(d[0] == (v % base) as u32);
        assert(v / base != 0) by {
            if v / base == 0 {
                assert(base * 0 == 0);
            }
        }
        assert(d.last() == rest.last());
        assert forall|i: int| 0 <= i < d.len() implies (#[trigger] d[i]) < base by {
            if i > 0 {
                assert(d[i] == rest[i - 1]);
            }
        }
    }
}

/// Above `base^k`, the digits of a number are its `k` low digits followed by the
/// digits of the number without them.
pub proof fn lemma_digits_le_split(v: nat, base: nat, k: nat)
    requires
        base >= 2,
        v >= base_pow(base, k),
    ensures
        digits_le(v, base) == fixed_digits_le(v % base_pow(base, k), base, k) + digits_le(
            v / base_pow(base, k),
            base,
        ),
    decreases k,
{
    if k == 0 {
        assert(v % 1 == 0 && v / 1 == v);
        assert(fixed_digits_le(0, base, 0) + digits_le(v, base) =~= digits_le(v, base));
    } else {
        let p = base_pow(base, (k - 1) as nat);
        lemma_base_pow_positive(base, (k - 1) as nat);
        assert(base * p >= base) by (nonlinear_arith)
            requires
                p >= 1,
                base >= 0,
        ;
        let h = v / base;
        lemma_fundamental_div_mod(v as int, base as int);
        assert(h >= p) by (nonlinear_arith)
            requires
                v == base * h + v % base,
                v % base < base,
                v >= base * p,
                base >= 2,
        ;
        lemma_digits_le_split(h, base, (k - 1) as nat);
        // the low digits and the rest, one digit further up
        lemma_div_denominator(v as int, base as int, p as int);
        let low = v % (base * p);
        vstd::arithmetic::div_mod::lemma_mod_breakdown(v as int, base as int, p as int);
        assert(low == base * (h % p) + v % base);
        vstd::arithmetic::div_mod::lemma_mod_bound(h as int, p as int);
        assert(base * (h % p) == (h % p) * base) by (nonlinear_arith);
        lemma_fundamental_div_mod_converse(
            low as int,
            base as int,
            (h % p) as int,
            (v % base) as int,
        );
        assert(fixed_digits_le(low, base, k) == seq![(low % base) as u32] + fixed_digits_le(
            low / base,
            base,
            (k - 1) as nat,
        ));
        assert(digits_le(v, base) =~= fixed_digits_le(low, base, k) + digits_le(
            v / (base * p),
            base,
        ));
    }
}

/// A power of a base that is not zero is at least one.
pub proof fn lemma_base_pow_positive(base: nat, k: nat)
    requires
        base >= 1,
    ensures
        base_pow(base, k) >= 1,
    decreases k,
{
    if k > 0 {
        lemma_base_pow_positive(base, (k - 1) as nat);
        assert(base * base_pow(base, (k - 1) as nat) >= 1) by (nonlinear_arith)
            requires
                base >= 1,
                base_pow(base, (k - 1) as nat) >= 1,
        ;
    }
}

/// Text of digits joined end to end: the later digits, which are the more
/// significant, come first.
pub proof fn lemma_rendered_concat(low: Seq<u32>, high: Seq<u32>)
    ensures
        rendered(low + high) == rendered(high) + rendered(low),
{
    assert(rendered(low + high) =~= rendered(high) + rendered(low));
}

/// The digits of a fixed-width integer to some base, handed out one at a time,
/// least significant first.
pub struct BaseDigits<const SIZE: usize> {
    rest: Uint<SIZE>,
    base: u32,
    started: bool,
}

impl<const SIZE: usize> BaseDigits<SIZE> {
    /// The base is at least two, and there is a digit to hold it.
    pub closed spec fn wf(&self) -> bool {
        self.base >= 2 && SIZE >= 1
    }

    /// The base of the digits.
    pub closed spec fn base(&self) -> nat {
        self.base as nat
    }

    /// The digits that have not been handed out yet.
    pub closed spec fn remaining(&self) -> Seq<u32> {
        if self.started && self.rest.value() == 0 {
            Seq::empty()
        } else {
            digits_le(self.rest.value(), self.base as nat)
        }
    }

    /// Hands out the next digit, or `None` when all have been handed out.
    pub fn next(&mut self) -> (r: Option<u32>)
        requires
            old(self).wf(),
        ensures
            final(self).wf(),
            final(self).base() == old(self).base(),
            old(self).remaining().len() == 0 ==> r is None && final(self).remaining().len() == 0,
            old(self).remaining().len() > 0 ==> r == Some(old(self).remaining()[0])
                && final(self).remaining() == old(self).remaining().skip(1),
    {
        proof {
            lemma_digits_le(self.rest.value(), self.base as nat);
        }
        if self.started && self.rest.is_zero() {
            return None;
        }
        let ghost v = self.rest.value();
        let ghost b = self.base as nat;
        let divisor = Uint::<SIZE>::from_u32(self.base);
        let (quotient, remainder) = self.rest.div_rem(divisor);
        proof {
            // the remainder is below the base, so it is its last digit
            lemma_radix_pow_one();
            lemma_small_value_leading_zeros(remainder.digits@, 1);
            lemma_value_skip_zeros(remainder.digits@, SIZE - 1);
            lemma_value_single(remainder.digits@.subrange(SIZE - 1, SIZE as int));
            if v < b {
                lemma_basic_div(v as int, b as int);
                lemma_small_mod(v, b);
                assert(digits_le(v, b).skip(1) =~= Seq::<u32>::empty());
            } else {
                assert(quotient.value() != 0) by {
                    lemma_fundamental_div_mod(v as int, b as int);
                    if v / b == 0 {
                        assert(b * 0 == 0);
                    }
                }
                assert(digits_le(v, b).skip(1) =~= digits_le(v / b, b));
            }
        }
        self.rest = quotient;
        self.started = true;
        Some(remainder.digits[SIZE - 1])
    }

    /// All the digits that have not been handed out yet, least significant
    /// first.
    pub fn collect(self) -> (r: Vec<u32>)
        requires
            self.wf(),
        ensures
            r@ == self.remaining(),
    {
        let mut digits = self;
        let mut out: Vec<u32> = Vec::new();
        let ghost all = self.remaining();
        proof {
            assert(all.skip(0) =~= all);
        }
        loop
            invariant
                digits.wf(),
                all == self.remaining(),
                out@.len() <= all.len(),
                out@ == all.subrange(0, out@.len() as int),
                digits.remaining() == all.skip(out@.len() as int),
            decreases all.len() - out@.len(),
        {
            let ghost pending = digits.remaining();
            match digits.next() {
                Some(digit) => {
                    let ghost before = out@;
                    out.push(digit);
                    proof {
                        assert(all.skip(before.len() as int)[0] == all[before.len() as int]);
                        assert(out@ =~= all.subrange(0, out@.len() as int));
                        assert(all.skip(before.len() as int).skip(1) =~= all.skip(
                            out@.len() as int,
                        ));
                    }
                },
                None => {
                    proof {
                        assert(pending.len() == 0);
                        assert(all.skip(out@.len() as int).len() == all.len() - out@.len());
                        assert(all.subrange(0, out@.len() as int) =~= all);
                    }
                    return out;
                },
            }
        }
    }
}

/// The character for a digit below 36.
fn char_of_digit(d: u32) -> (r: char)
    requires
        d < 36,
    ensures
        r == digit_char(d),
{
    if d < 10 {
        (48u8 + d as u8) as char
    } else {
        (87u8 + d as u8) as char
    }
}

/// The upper-case form of a lower-case letter of ASCII; any other character
/// itself.
fn to_upper(c: char) -> (r: char)
    ensures
        r == upper_char(c),
{
    if 'a' <= c && c <= 'z' {
        ((c as u8) - 32) as char
    } else {
        c
    }
}

/// `String::push` appends the character to the end of the string.
pub assume_specification[ String::push ](s: &mut String, ch: char)
    ensures
        final(s)@ == old(s)@.push(ch),
;

/// A string of the given characters.
fn string_of(chars: &[char]) -> (r: String)
    ensures
        r@ == chars@,
{
    let mut out = String::new();
    let mut i: usize = 0;
    while i < chars.len()
        invariant
            i <= chars.len(),
            out@ == chars@.subrange(0, i as int),
        decreases chars.len() - i,
    {
        out.push(chars[i]);
        proof {
            assert(out@ =~= chars@.subrange(0, i + 1));
        }
        i += 1;
    }
    proof {
        assert(chars@.subrange(0, chars.len() as int) =~= chars@);
    }
    out
}

/// Appends to `out` the text of digits given least significant first.
fn push_rendered(out: &mut Vec<char>, digits: &[u32])
    requires
        forall|i: int| 0 <= i < digits@.len() ==> digits@[i] < 36,
    ensures
        final(out)@ == old(out)@ + rendered(digits@),
{
    let n = digits.len();
    let mut i: usize = n;
    let ghost before = out@;
    proof {
        assert(out@ =~= before + rendered(digits@).subrange(0, 0));
    }
    while i > 0
        invariant
            i <= n,
            n == digits@.len(),
            forall|j: int| 0 <= j < digits@.len() ==> digits@[j] < 36,
            out@ == before + rendered(digits@).subrange(0, n - i),
        decreases i,
    {
        i -= 1;
        out.push(char_of_digit(digits[i]));
        proof {
            assert(out@ =~= before + rendered(digits@).subrange(0, n - i));
        }
    }
    proof {
        assert(rendered(digits@).subrange(0, n as int) =~= rendered(digits@));
    }
}

/// The decimal digits of a number below ten to the ninth, least significant
/// first: all nine of them where `padded` is set, else without zeros at the high
/// end.
fn chunk_digits(chunk: u32, padded: bool) -> (r: Vec<u32>)
    ensures
        padded ==> r@ == fixed_digits_le(chunk as nat, 10, 9),
        !padded ==> r@ == digits_le(chunk as nat, 10),
        forall|i: int| 0 <= i < r@.len() ==> r@[i] < 10,
{
    let mut out: Vec<u32> = Vec::new();
    let mut rest = chunk;
    if padded {
        let mut i: usize = 0;
        proof {
            assert(fixed_digits_le(chunk as nat, 10, 9) =~= out@ + fixed_digits_le(rest as nat, 10, 9));
        }
        while i < 9
            invariant
                i <= 9,
                out@.len() == i,
                forall|j: int| 0 <= j < out@.len() ==> out@[j] < 10,
                fixed_digits_le(chunk as nat, 10, 9) == out@ + fixed_digits_le(
                    rest as nat,
                    10,
                    (9 - i) as nat,
                ),
            decreases 9 - i,
        {
            let ghost before = out@;
            out.push(rest % 10);
            proof {
                assert(before + fixed_digits_le(rest as nat, 10, (9 - i) as nat) =~= out@
                    + fixed_digits_le((rest / 10) as nat, 10, (9 - i - 1) as nat));
            }
            rest = rest / 10;
            i += 1;
        }
        proof {
            assert(out@ + fixed_digits_le(rest as nat, 10, 0) =~= out@);
        }
        out
    } else {
        proof {
            assert(digits_le(chunk as nat, 10) =~= out@ + digits_le(rest as nat, 10));
        }
        while rest >= 10
            invariant
                forall|j: int| 0 <= j < out@.len() ==> out@[j] < 10,
                digits_le(chunk as nat, 10) == out@ + digits_le(rest as nat, 10),
            decreases rest,
        {
            let ghost before = out@;
            out.push(rest % 10);
            proof {
                assert(before + digits_le(rest as nat, 10) =~= out@ + digits_le(
                    (rest / 10) as nat,
                    10,
                ));
            }
            rest = rest / 10;
        }
        let ghost before = out@;
        out.push(rest);
        proof {
            assert(before + digits_le(rest as nat, 10) =~= out@);
        }
        out
    }
}

impl<const SIZE: usize> Uint<SIZE> {
    /// The digits of the number to the base `base`, least significant first, to
    /// be handed out one at a time. There is always at least one digit: zero has
    /// the single digit 0.
    pub fn to_base_le(self, base: u32) -> (r: BaseDigits<SIZE>)
        requires
            SIZE >= 1,
            base >= 2,
        ensures
            r.wf(),
            r.base() == base,
            r.remaining() == digits_le(self.value(), base as nat),
    {
        BaseDigits { rest: self, base, started: false }
    }

    /// The digits of the number to the base ten to the ninth, most significant
    /// first.
    pub fn to_base_10_be(self) -> (r: Vec<u32>)
        requires
            SIZE >= 1,
        ensures
            r@ == digits_le(self.value(), 1_000_000_000).reverse(),
    {
        let digits = self.to_base_le(1_000_000_000).collect();
        let n = digits.len();
        let mut out: Vec<u32> = Vec::new();
        let mut i: usize = n;
        proof {
            lemma_digits_le(self.value(), 1_000_000_000);
        }
        while i > 0
            invariant
                i <= n,
                n == digits@.len(),
                n >= 1,
                out@ == digits@.reverse().subrange(0, n - i),
            decreases i,
        {
            i -= 1;
            out.push(digits[i]);
            proof {
                assert(out@ =~= digits@.reverse().subrange(0, n - i));
            }
        }
        proof {
            assert(digits@.reverse().subrange(0, n as int) =~= digits@.reverse());
        }
        out
    }

    /// The number as text to the base `radix`, most significant digit first, with
    /// the digits `0` to `9` and then `a` to `z`.
    pub fn to_string_radix(self, radix: u32) -> (r: String)
        requires
            SIZE >= 1,
            2 <= radix <= 36,
        ensures
            r@ == rendered(digits_le(self.value(), radix as nat)),
    {
        let digits = self.to_base_le(radix).collect();
        proof {
            lemma_digits_le(self.value(), radix as nat);
        }
        let mut chars: Vec<char> = Vec::new();
        push_rendered(&mut chars, digits.as_slice());
        string_of(chars.as_slice())
    }

    /// The number as decimal text. The digits are found nine at a time: the
    /// leading group is written as it is, each later group with zeros in front to
    /// make up nine digits.
    pub fn to_string(self) -> (r: String)
        requires
            SIZE >= 1,
        ensures
            r@ == rendered(digits_le(self.value(), 10)),
    {
        let groups = self.to_base_10_be();
        let n = groups.len();
        let ghost le = digits_le(self.value(), 1_000_000_000);
        let mut chars: Vec<char> = Vec::new();
        let mut i: usize = 0;
        proof {
            lemma_digits_le(self.value(), 1_000_000_000);
            assert(rendered(Seq::<u32>::empty()) =~= Seq::<char>::empty());
        }
        while i < n
            invariant
                i <= n,
                n == le.len(),
                n >= 1,
                groups@ == le.reverse(),
                le == digits_le(self.value(), 1_000_000_000),
                forall|j: int| 0 <= j < le.len() ==> (#[trigger] le[j]) < 1_000_000_000,
                n > 1 ==> le.last() != 0,
                i == 0 ==> chars@.len() == 0,
                i > 0 ==> chars@ == rendered(digits_le(eval_le(le.skip(n - i), 1_000_000_000), 10)),
                i > 0 && n > 1 ==> eval_le(le.skip(n - i), 1_000_000_000) >= 1,
            decreases n - i,
        {
            let group = groups[i];
            let digits = chunk_digits(group, i > 0);
            let ghost before = chars@;
            push_rendered(&mut chars, digits.as_slice());
            proof {
                let c: nat = 1_000_000_000;
                assert(group == le[n - 1 - i]);
                let tail = le.skip(n - i);
                let next = le.skip(n - i - 1);
                assert(next.skip(1) =~= tail);
                assert(next[0] == group);
                let w = eval_le(tail, c);
                let w_next = eval_le(next, c);
                assert(w_next == group + c * w);
                if i == 0 {
                    assert(tail.len() == 0);
                    assert(c * 0 == 0);
                    assert(before + rendered(digits@) =~= rendered(digits@));
                } else {
                    assert(w_next >= c && w_next / c == w && w_next % c == group) by {
                        assert(c * w >= c) by (nonlinear_arith)
                            requires
                                w >= 1,
                                c >= 0,
                        ;
                        assert(c * w == w * c) by (nonlinear_arith);
                        lemma_fundamental_div_mod_converse(
                            w_next as int,
                            c as int,
                            w as int,
                            group as int,
                        );
                    }
                    assert(base_pow(10, 9) == c) by {
                        reveal_with_fuel(base_pow, 10);
                    }
                    lemma_digits_le_split(w_next, 10, 9);
                    lemma_rendered_concat(fixed_digits_le(group as nat, 10, 9), digits_le(w, 10));
                }
            }
            i += 1;
        }
        proof {
            assert(le.skip(0) =~= le);
        }
        string_of(chars.as_slice())
    }

    /// The number as binary text.
    pub fn to_binary_string(self) -> (r: String)
        requires
            SIZE >= 1,
        ensures
            r@ == rendered(digits_le(self.value(), 2)),
    {
        self.to_string_radix(2)
    }

    /// The number as octal text.
    pub fn to_octal_string(self) -> (r: String)
        requires
            SIZE >= 1,
        ensures
            r@ == rendered(digits_le(self.value(), 8)),
    {
        self.to_string_radix(8)
    }

    /// The number as hexadecimal text with the letters `a` to `f`.
    pub fn to_lower_hex_string(self) -> (r: String)
        requires
            SIZE >= 1,
        ensures
            r@ == rendered(digits_le(self.value(), 16)),
    {
        self.to_string_radix(16)
    }

    /// The number as hexadecimal text with the letters `A` to `F`: the text with
    /// small letters, put in upper case.
    pub fn to_upper_hex_string(self) -> (r: String)
        requires
            SIZE >= 1,
        ensures
            r@ == upper_cased(rendered(digits_le(self.value(), 16))),
    {
        let digits = self.to_base_le(16).collect();
        proof {
            lemma_digits_le(self.value(), 16);
        }
        let mut chars: Vec<char> = Vec::new();
        push_rendered(&mut chars, digits.as_slice());
        let mut upper: Vec<char> = Vec::new();
        let mut i: usize = 0;
        while i < chars.len()
            invariant
                i <= chars.len(),
                upper@ == upper_cased(chars@).subrange(0, i as int),
            decreases chars.len() - i,
        {
            upper.push(to_upper(chars[i]));
            proof {
                assert(upper@ =~= upper_cased(chars@).subrange(0, i + 1));
            }
            i += 1;
        }
        proof {
            assert(upper_cased(chars@).subrange(0, chars.len() as int) =~= upper_cased(chars@));
        }
        string_of(upper.as_slice())
    }
}

} // verus!
