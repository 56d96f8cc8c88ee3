//! Numbers and rates as text, and text of a given width.
use vstd::prelude::*;

use crate::double::{
    exp2, lemma_exp2_increases, lemma_exp2_values, nearest, round_half_even, Binary64, SIGNIFICANDS,
};
use crate::rate::Rate;

verus! {

/// `String::push` puts one character behind the text, and leaves the rest as it is.
pub assume_specification[ String::push ](s: &mut String, c: char)
    ensures
        final(s)@ == old(s)@.push(c),
;

pub open spec fn digit(d: nat) -> char {
    (0x30 + d) as char
}

/// A number in decimal, without leading zeros.
pub open spec fn decimal(n: nat) -> Seq<char>
    decreases n,
{
    if n < 10 {
        seq![digit(n)]
    } else {
        decimal(n / 10).push(digit(n % 10))
    }
}

pub fn push_decimal(out: &mut String, n: u128)
    ensures
        final(out)@ == old(out)@ + decimal(n as nat),
    decreases n,
{
    if n >= 10 {
        push_decimal(out, n / 10);
    }
    let d: u8 = (n % 10) as u8;
    out.push((0x30 + d) as char);
    assert(out@ =~= old(out)@ + decimal(n as nat));
}

/// At most `max` characters of `s`: the last of them is an ellipsis where some had to go.
pub open spec fn truncated(s: Seq<char>, max: nat) -> Seq<char> {
    if s.len() <= max {
        s
    } else {
        s.take(if max > 0 {
            max - 1
        } else {
            0
        }) + "…"@
    }
}

/// Cuts a text to at most `max_chars` characters.
pub fn truncate(s: &str, max_chars: usize) -> (r: String)
    ensures
        r@ == truncated(s@, max_chars as nat),
{
    if s.unicode_len() <= max_chars {
        s.to_owned()
    } else {
        let head = s.substring_char(0, max_chars.saturating_sub(1));
        let mut r = head.to_owned();
        r.append("…");
        assert(r@ =~= truncated(s@, max_chars as nat));
        r
    }
}

/// What is cut fits, and what fits is not cut. (Of no room at all, the ellipsis still takes one.)
pub proof fn truncated_fits(s: Seq<char>, max: nat)
    ensures
        truncated(s, max).len() <= if max > 0 {
            max
        } else {
            1
        },
        s.len() <= max ==> truncated(s, max) == s,
        s.len() > max > 0 ==> truncated(s, max).len() == max,
{
    reveal_strlit("…");
}

/// `s`, filled up with spaces to at least `width` characters.
pub open spec fn padded(s: Seq<char>, width: nat) -> Seq<char> {
    s + Seq::new(
        if s.len() < width {
            (width - s.len()) as nat
        } else {
            0
        },
        |i: int| ' ',
    )
}

/// `s`, with spaces in front of it up to at least `width` characters.
pub open spec fn right_aligned(s: Seq<char>, width: nat) -> Seq<char> {
    Seq::new(
        if s.len() < width {
            (width - s.len()) as nat
        } else {
            0
        },
        |i: int| ' ',
    ) + s
}

pub fn push_right_aligned(out: &mut String, s: &str, width: usize)
    ensures
        final(out)@ == old(out)@ + right_aligned(s@, width as nat),
{
    let ghost start = out@;
    let len: usize = s.unicode_len();
    let mut n: usize = len;
    assert(out@ =~= start + Seq::new(0, |i: int| ' '));
    while n < width
        invariant
            len <= n,
            n <= width || n == len,
            out@ == start + Seq::new((n - len) as nat, |i: int| ' '),
        decreases width - n,
    {
        out.push(' ');
        n += 1;
        assert(out@ =~= start + Seq::new((n - len) as nat, |i: int| ' '));
    }
    out.append(s);
    assert(out@ =~= start + right_aligned(s@, width as nat));
}

pub fn push_padded(out: &mut String, s: &str, width: usize)
    ensures
        final(out)@ == old(out)@ + padded(s@, width as nat),
{
    let ghost start = out@;
    out.append(s);
    let mut n: usize = s.unicode_len();
    let ghost len = n as nat;
    assert(out@ =~= start + padded(s@, n as nat));
    while n < width
        invariant
            len == s@.len(),
            len <= n,
            n <= width || n == len,
            out@ == start + padded(s@, n as nat),
        decreases width - n,
    {
        out.push(' ');
        n += 1;
        assert(out@ =~= start + padded(s@, n as nat));
    }
    assert(padded(s@, n as nat) =~= padded(s@, width as nat));
}

/// `n` times two to the power of `s`, to the nearest integer; of two that are equally near, the even
/// one.
pub open spec fn scaled(n: nat, s: int) -> nat {
    if s >= 0 {
        n * exp2(s as nat)
    } else {
        round_half_even(n, exp2((-s) as nat))
    }
}

/// A rate in the unit that suits it: tenths of megabytes per second from one megabyte up, whole
/// kilobytes below.
pub open spec fn rate_text(rate: Binary64) -> Seq<char> {
    if rate.at_least(nearest(0x10_0000, 1, 0)) {
        tenths_text(scaled(10 * rate.m, rate.e - 20)) + " MB/s"@
    } else {
        decimal(scaled(rate.m, rate.e - 10)) + " KB/s"@
    }
}

/// A number of tenths, with one digit behind the point.
pub open spec fn tenths_text(t: nat) -> Seq<char> {
    decimal(t / 10) + "."@ + decimal(t % 10)
}

/// A rate in kilobytes per second, with one digit behind the point.
pub open spec fn kilobytes_text(rate: Binary64) -> Seq<char> {
    tenths_text(scaled(10 * rate.m, rate.e - 10))
}

/// `n` divided by two to the power of `k`, rounded.
fn scaled_down(n: u64, k: i64) -> (q: u64)
    requires
        n < 0x400_0000_0000_0000,
        k > 0,
    ensures
        q == scaled(n as nat, -k),
{
    proof {
        lemma_exp2_values();
    }
    if k >= 64 {
        proof {
            lemma_exp2_increases(64, k as nat);
            let d = exp2(k as nat);
            vstd::arithmetic::div_mod::lemma_fundamental_div_mod_converse(
                n as int,
                d as int,
                0,
                n as int,
            );
        }
        return 0;
    }
    let mut d: u128 = 1;
    let mut i: i64 = 0;
    while i < k
        invariant
            0 <= i <= k < 64,
            d == exp2(i as nat),
            exp2(64) == 0x1_0000_0000_0000_0000,
        decreases k - i,
    {
        proof {
            lemma_exp2_increases(i as nat, 64);
        }
        d = 2 * d;
        i = i + 1;
    }
    proof {
        lemma_exp2_increases(0, k as nat);
        lemma_exp2_increases(k as nat, 64);
        let a = n as int;
        let b = d as int;
        vstd::arithmetic::div_mod::lemma_div_is_ordered_by_denominator(a, 1, b);
    }
    let q: u64 = (n as u128 / d) as u64;
    let r: u128 = n as u128 % d;
    if 2 * r < d || (2 * r == d && q % 2 == 0) {
        q
    } else {
        q + 1
    }
}

/// The number whose decimal digits these are, the last digit first.
spec fn value_of(digits: Seq<u8>) -> nat
    decreases digits.len(),
{
    if digits.len() == 0 {
        0
    } else {
        digits[0] as nat + 10 * value_of(digits.drop_first())
    }
}

/// Decimal digits, the last digit first, without leading zeros.
spec fn are_digits(digits: Seq<u8>) -> bool {
    &&& digits.len() > 0
    &&& digits.last() != 0
    &&& forall|i: int| 0 <= i < digits.len() ==> #[trigger] digits[i] < 10
}

/// The digits of a number.
fn digits_of(n: u64) -> (digits: Vec<u8>)
    requires
        n > 0,
    ensures
        are_digits(digits@),
        value_of(digits@) == n,
    decreases n,
{
    let low: u8 = (n % 10) as u8;
    if n < 10 {
        let mut digits: Vec<u8> = Vec::new();
        digits.push(low);
        assert(digits@.drop_first() =~= Seq::empty());
        reveal_with_fuel(value_of, 2);
        digits
    } else {
        let mut digits = digits_of(n / 10);
        let ghost rest = digits@;
        digits.insert(0, low);
        assert(digits@.drop_first() =~= rest);
        digits
    }
}

/// The digits of twice the number, and `carry`, of those from digit `i` on.
fn doubled(digits: &Vec<u8>, i: usize, carry: u8) -> (out: Vec<u8>)
    requires
        are_digits(digits@),
        i <= digits.len(),
        carry <= 1,
    ensures
        value_of(out@) == 2 * value_of(digits@.skip(i as int)) + carry,
        i < digits.len() || carry > 0 ==> are_digits(out@),
        i == digits.len() && carry == 0 ==> out@.len() == 0,
    decreases digits.len() - i,
{
    if i == digits.len() {
        let mut out: Vec<u8> = Vec::new();
        assert(digits@.skip(i as int) =~= Seq::empty());
        if carry > 0 {
            out.push(carry);
            assert(out@.drop_first() =~= Seq::empty());
            reveal_with_fuel(value_of, 2);
        }
        return out;
    }
    let d: u8 = 2 * digits[i] + carry;
    let mut out = doubled(digits, i + 1, d / 10);
    let ghost rest = out@;
    out.insert(0, d % 10);
    proof {
        assert(out@.drop_first() =~= rest);
        assert(digits@.skip(i as int).drop_first() =~= digits@.skip(i + 1));
        if rest.len() == 0 {
            assert(digits@[i as int] == digits@.last());
        } else {
            assert(out@.last() == rest.last());
        }
        assert forall|k: int| 0 <= k < out@.len() implies #[trigger] out@[k] < 10 by {
            if k > 0 {
                assert(out@[k] == rest[k - 1]);
            }
        }
    }
    out
}

proof fn lemma_value_positive(digits: Seq<u8>)
    requires
        digits.len() > 0,
        digits.last() != 0,
    ensures
        value_of(digits) > 0,
    decreases digits.len(),
{
    if digits.len() > 1 {
        assert(digits.drop_first().last() == digits.last());
        lemma_value_positive(digits.drop_first());
    }
}

/// Appends the number that the digits from `i` on make.
fn push_digits(out: &mut String, digits: &Vec<u8>, i: usize)
    requires
        are_digits(digits@),
        i < digits.len(),
    ensures
        final(out)@ == old(out)@ + decimal(value_of(digits@.skip(i as int))),
    decreases digits.len() - i,
{
    let ghost rest = digits@.skip(i + 1);
    proof {
        assert(digits@.skip(i as int).drop_first() =~= rest);
        if i + 1 < digits.len() {
            assert(rest.last() == digits@.last());
            lemma_value_positive(rest);
        } else {
            assert(rest =~= Seq::empty());
        }
    }
    if i + 1 < digits.len() {
        push_digits(out, digits, i + 1);
    }
    out.push((0x30 + digits[i]) as char);
    assert(out@ =~= old(out)@ + decimal(value_of(digits@.skip(i as int))));
}

/// Appends `n` times two to the power of `k`, however large that is.
fn push_shifted(out: &mut String, n: u64, k: i64)
    requires
        n > 0,
        k >= 0,
    ensures
        final(out)@ == old(out)@ + decimal(scaled(n as nat, k as int)),
{
    let mut digits = digits_of(n);
    let mut i: i64 = 0;
    assert(n as nat * 1 == n as nat) by (nonlinear_arith);
    while i < k
        invariant
            0 <= i <= k,
            are_digits(digits@),
            value_of(digits@) == n as nat * exp2(i as nat),
        decreases k - i,
    {
        proof {
            assert(digits@.skip(0) =~= digits@);
            let p = exp2(i as nat);
            assert(n as nat * (2 * p) == 2 * (n as nat * p)) by (nonlinear_arith);
        }
        digits = doubled(&digits, 0, 0);
        i = i + 1;
    }
    assert(digits@.skip(0) =~= digits@);
    push_digits(out, &digits, 0);
}

/// Appends `m` times two to the power of `s`, with one digit behind the point.
fn push_tenths(out: &mut String, m: u64, s: i64)
    requires
        m < SIGNIFICANDS,
        m > 0 || s < 0,
        s > -10_000,
    ensures
        final(out)@ == old(out)@ + tenths_text(scaled(10 * m as nat, s as int)),
{
    let ghost start = out@;
    if s >= 0 {
        proof {
            let p = exp2(s as nat);
            assert((10 * m as nat) * p == 10 * (m as nat * p)) by (nonlinear_arith);
        }
        push_shifted(out, m, s);
        out.append(".");
        push_decimal(out, 0);
    } else {
        let t: u64 = scaled_down(10 * m, -s);
        push_decimal(out, (t / 10) as u128);
        out.append(".");
        push_decimal(out, (t % 10) as u128);
    }
    assert(out@ =~= start + tenths_text(scaled(10 * m as nat, s as int)));
}

pub fn format_kilobytes(rate: &Rate) -> (text: String)
    ensures
        text@ == kilobytes_text(rate@),
{
    let mut text = String::new();
    push_tenths(&mut text, rate.significand(), rate.exponent() - 10);
    assert(text@ =~= kilobytes_text(rate@));
    text
}

pub fn format_rate(rate: &Rate) -> (text: String)
    ensures
        text@ == rate_text(rate@),
{
    let mut text = String::new();
    push_rate(&mut text, rate);
    assert(text@ =~= rate_text(rate@));
    text
}

pub fn push_rate(out: &mut String, rate: &Rate)
    ensures
        final(out)@ == old(out)@ + rate_text(rate@),
{
    let ghost start = out@;
    if rate.at_least_bytes(0x10_0000) {
        push_tenths(out, rate.significand(), rate.exponent() - 20);
        out.append(" MB/s");
    } else {
        let (m, e): (u64, i64) = (rate.significand(), rate.exponent());
        assert(e < 10) by {
            reveal_with_fuel(nearest, 34);
            assert(nearest(0x10_0000, 1, 0).e == -32);
        }
        push_decimal(out, scaled_down(m, 10 - e) as u128);
        out.append(" KB/s");
    }
    assert(out@ =~= start + rate_text(rate@));
}

} // verus!
