//! Binary64 arithmetic on integers: the sums, quotients and products of IEEE 754 double precision,
//! for numbers that are finite, not negative and never so small that they lose digits.
use vstd::prelude::*;

verus! {

/// The least significand of a number other than zero, two to the power of 52.
pub const MIN_SIGNIFICAND: u64 = 0x10_0000_0000_0000;

/// What every significand is less than, two to the power of 53.
pub const SIGNIFICANDS: u64 = 0x20_0000_0000_0000;

/// Two to the power of `k`.
pub open spec fn exp2(k: nat) -> nat
    decreases k,
{
    if k == 0 {
        1
    } else {
        2 * exp2((k - 1) as nat)
    }
}

/// The integer nearest to `n / d`; of two that are equally near, the even one.
pub open spec fn round_half_even(n: nat, d: nat) -> nat {
    let q = n / d;
    let r = n % d;
    if 2 * r < d || (2 * r == d && q % 2 == 0) {
        q
    } else {
        q + 1
    }
}

/// Rounding goes to the nearest integer, and to the even one where two are equally near.
pub proof fn rounding_is_to_nearest(n: nat, d: nat)
    requires
        d > 0,
    ensures
        2 * (round_half_even(n, d) * d) <= 2 * n + d,
        2 * n <= 2 * (round_half_even(n, d) * d) + d,
        2 * (round_half_even(n, d) * d) == 2 * n + d || 2 * n == 2 * (round_half_even(n, d) * d) + d
            ==> round_half_even(n, d) % 2 == 0,
{
    let q = n / d;
    let r = n % d;
    vstd::arithmetic::div_mod::lemma_fundamental_div_mod(n as int, d as int);
    assert(q * d == d * q) by (nonlinear_arith);
    assert((q + 1) * d == d * q + d) by (nonlinear_arith);
}

/// The number `m` times two to the power of `e`.
pub struct Binary64 {
    pub m: nat,
    pub e: int,
}

/// How far `n / d` is from having a whole part that is a significand.
pub open spec fn distance(n: nat, d: nat) -> nat {
    if n < d * 0x10_0000_0000_0000 {
        (d * 0x10_0000_0000_0000 - n) as nat
    } else if n >= d * 0x20_0000_0000_0000 {
        (n - d) as nat
    } else {
        0
    }
}

/// The double that is nearest to `n / d` times two to the power of `e`; of two that are equally
/// near, the one with the even significand. The quotient is scaled until its whole part is a
/// significand, and then rounded.
pub open spec fn nearest(n: nat, d: nat, e: int) -> Binary64
    decreases distance(n, d),
{
    if n == 0 || d == 0 {
        Binary64 { m: 0, e: 0 }
    } else if n < d * 0x10_0000_0000_0000 {
        nearest(2 * n, d, e - 1)
    } else if n >= d * 0x20_0000_0000_0000 {
        nearest(n, 2 * d, e + 1)
    } else {
        let m = round_half_even(n, d);
        if m < SIGNIFICANDS {
            Binary64 { m, e }
        } else {
            Binary64 { m: MIN_SIGNIFICAND as nat, e: e + 1 }
        }
    }
}

impl Binary64 {
    pub open spec fn zero() -> Binary64 {
        Binary64 { m: 0, e: 0 }
    }

    /// Zero, or a number whose significand has all of its 53 bits.
    pub open spec fn wf(self) -> bool {
        ||| self == Binary64::zero()
        ||| MIN_SIGNIFICAND <= self.m < SIGNIFICANDS
    }

    /// `self >= other`
    pub open spec fn at_least(self, other: Binary64) -> bool {
        ||| other.m == 0
        ||| self.m != 0 && (self.e > other.e || (self.e == other.e && self.m >= other.m))
    }

    /// `self > other`
    pub open spec fn more_than(self, other: Binary64) -> bool {
        !other.at_least(self)
    }

    /// The larger of the two.
    pub open spec fn higher(self, other: Binary64) -> Binary64 {
        if self.at_least(other) {
            self
        } else {
            other
        }
    }

    /// `self + other`, rounded.
    pub open spec fn plus(self, other: Binary64) -> Binary64 {
        if self.m == 0 {
            other
        } else if other.m == 0 {
            self
        } else if self.e >= other.e {
            nearest(self.m * exp2((self.e - other.e) as nat) + other.m, 1, other.e)
        } else {
            nearest(other.m * exp2((other.e - self.e) as nat) + self.m, 1, self.e)
        }
    }

    /// `n / self`, rounded.
    pub open spec fn divides(self, n: nat) -> Binary64 {
        nearest(n, self.m, -self.e)
    }

    /// `self * other`, rounded.
    pub open spec fn times(self, other: Binary64) -> Binary64 {
        nearest(self.m * other.m, 1, self.e + other.e)
    }
}

/// The order is that of the numbers.
pub proof fn order_is_by_value(a: Binary64, b: Binary64)
    requires
        a.wf(),
        b.wf(),
        a.e >= b.e,
    ensures
        a.m != 0 && b.m != 0 ==> (a.at_least(b) <==> a.m * exp2((a.e - b.e) as nat) >= b.m),
        a.m != 0 && b.m != 0 ==> (b.at_least(a) <==> b.m >= a.m * exp2((a.e - b.e) as nat)),
        a.m == 0 ==> b.at_least(a),
        a.m == 0 && b.m != 0 ==> !a.at_least(b),
        b.m == 0 ==> a.at_least(b),
        b.m == 0 && a.m != 0 ==> !b.at_least(a),
{
    if a.m != 0 && b.m != 0 {
        let m = a.m;
        let k = (a.e - b.e) as nat;
        let p = exp2(k);
        if k == 0 {
            assert(m * p == m) by (nonlinear_arith)
                requires
                    p == 1,
            ;
        } else {
            reveal_with_fuel(exp2, 2);
            lemma_exp2_increases(1, k);
            assert(m * p >= 0x20_0000_0000_0000) by (nonlinear_arith)
                requires
                    m >= 0x10_0000_0000_0000,
                    p >= 2,
            ;
        }
    }
}

/// "No lower than" is transitive.
pub proof fn at_least_transitive(a: Binary64, b: Binary64, c: Binary64)
    requires
        a.at_least(b),
        b.at_least(c),
    ensures
        a.at_least(c),
{
}

pub(crate) proof fn lemma_exp2_increases(j: nat, k: nat)
    requires
        j <= k,
    ensures
        0 < exp2(j) <= exp2(k),
    decreases k,
{
    if k == 0 {
    } else if j == k {
        lemma_exp2_increases((j - 1) as nat, (k - 1) as nat);
    } else {
        lemma_exp2_increases(j, (k - 1) as nat);
    }
}

pub(crate) proof fn lemma_exp2_adds(j: nat, k: nat)
    ensures
        exp2(j + k) == exp2(j) * exp2(k),
    decreases k,
{
    if k == 0 {
        assert(exp2(j) * 1 == exp2(j)) by (nonlinear_arith);
    } else {
        lemma_exp2_adds(j, (k - 1) as nat);
        let a = exp2(j);
        let b = exp2((k - 1) as nat);
        assert(exp2(j + k) == 2 * exp2((j + k - 1) as nat));
        assert(a * (2 * b) == 2 * (a * b)) by (nonlinear_arith);
    }
}

pub(crate) proof fn lemma_exp2_values()
    ensures
        exp2(0) == 1,
        exp2(11) == 0x800,
        exp2(12) == 0x1000,
        exp2(13) == 0x2000,
        exp2(32) == 0x1_0000_0000,
        exp2(53) == 0x20_0000_0000_0000,
        exp2(54) == 0x40_0000_0000_0000,
        exp2(64) == 0x1_0000_0000_0000_0000,
        exp2(65) == 0x2_0000_0000_0000_0000,
        exp2(66) == 0x4_0000_0000_0000_0000,
        exp2(67) == 0x8_0000_0000_0000_0000,
        exp2(128) == 0x1_0000_0000_0000_0000_0000_0000_0000_0000int,
{
    assert(exp2(11) == 0x800 && exp2(13) == 0x2000 && exp2(22) == 0x40_0000 && exp2(32)
        == 0x1_0000_0000) by {
        reveal_with_fuel(exp2, 33);
    }
    lemma_exp2_adds(22, 32);
    lemma_exp2_adds(32, 32);
    lemma_exp2_adds(64, 64);
    let p = exp2(64);
    assert(p * p == 0x1_0000_0000_0000_0000_0000_0000_0000_0000int) by (nonlinear_arith)
        requires
            p == 0x1_0000_0000_0000_0000,
    ;
}

/// A rounded quotient has a full significand.
pub proof fn nearest_is_wf(n: nat, d: nat, e: int)
    ensures
        nearest(n, d, e).wf(),
        n > 0 && d > 0 ==> nearest(n, d, e).m > 0,
    decreases distance(n, d),
{
    if n == 0 || d == 0 {
    } else if n < d * 0x10_0000_0000_0000 {
        nearest_is_wf(2 * n, d, e - 1);
    } else if n >= d * 0x20_0000_0000_0000 {
        nearest_is_wf(n, 2 * d, e + 1);
    } else {
        lemma_quotient(n, d);
    }
}

/// A quotient is the same with both its parts doubled.
pub proof fn doubling_both_parts(n: nat, d: nat, e: int)
    requires
        d > 0,
    ensures
        nearest(2 * n, 2 * d, e) == nearest(n, d, e),
    decreases distance(n, d),
{
    if n == 0 {
    } else if n < d * 0x10_0000_0000_0000 {
        doubling_both_parts(2 * n, d, e - 1);
    } else if n >= d * 0x20_0000_0000_0000 {
        doubling_both_parts(n, 2 * d, e + 1);
    } else {
        let q = n / d;
        let r = n % d;
        vstd::arithmetic::div_mod::lemma_fundamental_div_mod(n as int, d as int);
        assert((2 * d) * q == 2 * (d * q)) by (nonlinear_arith);
        vstd::arithmetic::div_mod::lemma_fundamental_div_mod_converse(
            (2 * n) as int,
            (2 * d) as int,
            q as int,
            (2 * r) as int,
        );
    }
}

/// Twice the divisor is made up for by the exponent.
pub proof fn doubling_the_divisor(n: nat, d: nat, e: int, j: nat)
    requires
        d > 0,
    ensures
        nearest(n, d * exp2(j), e + j) == nearest(n, d, e),
    decreases j,
{
    if j == 0 {
        assert(d * 1 == d) by (nonlinear_arith);
    } else {
        let i = (j - 1) as nat;
        doubling_the_divisor(n, d, e, i);
        let p = exp2(i);
        lemma_exp2_increases(0, i);
        assert(d * (2 * p) == 2 * (d * p)) by (nonlinear_arith);
        assert(d * p > 0) by (nonlinear_arith)
            requires
                d > 0,
                p > 0,
        ;
        if n > 0 && n < (d * p) * 0x20_0000_0000_0000 {
            doubling_both_parts(n, d * p, e + i);
        }
    }
}

/// A number of no more than 53 bits is a double as it is: its significand is the number, shifted
/// left as far as the exponent is negative.
pub proof fn small_numbers_are_exact(n: nat)
    requires
        0 < n < SIGNIFICANDS,
    ensures
        nearest(n, 1, 0).e <= 0,
        nearest(n, 1, 0).m == n * exp2((-nearest(n, 1, 0).e) as nat),
{
    assert(n * 1 == n) by (nonlinear_arith);
    lemma_small(n, 0);
}

proof fn lemma_small(n: nat, j: nat)
    requires
        0 < n,
        n * exp2(j) < SIGNIFICANDS,
    ensures
        ({
            let f = nearest(n * exp2(j), 1, -(j as int));
            &&& f.e <= 0
            &&& f.m == n * exp2((-f.e) as nat)
        }),
    decreases SIGNIFICANDS - n * exp2(j),
{
    let p = exp2(j);
    lemma_exp2_increases(0, j);
    let x = n * p;
    assert(x > 0) by (nonlinear_arith)
        requires
            n > 0,
            p > 0,
            x == n * p,
    ;
    if x < MIN_SIGNIFICAND {
        assert(n * (2 * p) == 2 * (n * p)) by (nonlinear_arith);
        lemma_small(n, j + 1);
    } else {
        assert(x / 1 == x && x % 1 == 0);
    }
}

/// A small quotient may be scaled up in one go.
pub proof fn scaling_up(n: nat, d: nat, e: int, j: nat)
    requires
        n > 0,
        n * exp2(j) < d * 0x20_0000_0000_0000,
    ensures
        nearest(n, d, e) == nearest(n * exp2(j), d, e - j),
    decreases j,
{
    if j == 0 {
        assert(n * 1 == n) by (nonlinear_arith);
    } else {
        let p = exp2((j - 1) as nat);
        lemma_exp2_increases(0, (j - 1) as nat);
        assert(n * (2 * p) == 2 * (n * p)) by (nonlinear_arith);
        assert(n * p > 0) by (nonlinear_arith)
            requires
                n > 0,
                p > 0,
        ;
        scaling_up(n, d, e, (j - 1) as nat);
    }
}

/// A large quotient may be scaled down in one go.
pub proof fn scaling_down(n: nat, d: nat, e: int, j: nat)
    requires
        d > 0,
        n >= (d * exp2(j)) * 0x10_0000_0000_0000,
    ensures
        nearest(n, d, e) == nearest(n, d * exp2(j), e + j),
    decreases j,
{
    if j == 0 {
        assert(d * 1 == d) by (nonlinear_arith);
    } else {
        let p = exp2((j - 1) as nat);
        lemma_exp2_increases(0, (j - 1) as nat);
        assert(d * (2 * p) == 2 * (d * p)) by (nonlinear_arith);
        assert(d * p > 0) by (nonlinear_arith)
            requires
                d > 0,
                p > 0,
        ;
        scaling_down(n, d, e, (j - 1) as nat);
    }
}

/// Whether `f` is no more than half of its last digit away from `n / d` times two to the power of
/// `e`, and its significand is even where it is just half of it.
pub open spec fn is_close(f: Binary64, n: nat, d: nat, e: int) -> bool {
    if f.e <= e {
        let x = n * exp2((e - f.e) as nat);
        &&& 2 * x <= 2 * (f.m * d) + d
        &&& 2 * (f.m * d) <= 2 * x + d
        &&& 2 * x == 2 * (f.m * d) + d || 2 * (f.m * d) == 2 * x + d ==> f.m % 2 == 0
    } else {
        let unit = exp2((f.e - e) as nat) * d;
        &&& 2 * n <= 2 * (f.m * unit) + unit
        &&& 2 * (f.m * unit) <= 2 * n + unit
        &&& 2 * n == 2 * (f.m * unit) + unit || 2 * (f.m * unit) == 2 * n + unit ==> f.m % 2 == 0
    }
}

/// Rounding goes to the nearest double.
pub proof fn nearest_is_close(n: nat, d: nat, e: int)
    requires
        n > 0,
        d > 0,
    ensures
        is_close(nearest(n, d, e), n, d, e),
    decreases distance(n, d),
{
    let f = nearest(n, d, e);
    let m = f.m;
    if n < d * 0x10_0000_0000_0000 {
        nearest_is_close(2 * n, d, e - 1);
        if f.e <= e - 1 {
            let p = exp2((e - 1 - f.e) as nat);
            assert(exp2((e - f.e) as nat) == 2 * p);
            assert(n * (2 * p) == (2 * n) * p) by (nonlinear_arith);
        } else {
            let p = exp2((f.e - e) as nat);
            assert(exp2((f.e - e + 1) as nat) == 2 * p);
            assert((2 * p) * d == 2 * (p * d)) by (nonlinear_arith);
            let unit = p * d;
            assert(m * (2 * unit) == 2 * (m * unit)) by (nonlinear_arith);
            if f.e == e {
                assert(1 * d == d) by (nonlinear_arith);
                assert(n * 1 == n) by (nonlinear_arith);
            }
        }
    } else if n >= d * 0x20_0000_0000_0000 {
        nearest_is_close(n, 2 * d, e + 1);
        if f.e <= e {
            let p = exp2((e - f.e) as nat);
            assert(exp2((e + 1 - f.e) as nat) == 2 * p);
            assert(n * (2 * p) == 2 * (n * p)) by (nonlinear_arith);
            assert(m * (2 * d) == 2 * (m * d)) by (nonlinear_arith);
        } else {
            let p = exp2((f.e - e - 1) as nat);
            assert(exp2((f.e - e) as nat) == 2 * p);
            assert((2 * p) * d == p * (2 * d)) by (nonlinear_arith);
            if f.e == e + 1 {
                assert(1 * (2 * d) == 2 * d) by (nonlinear_arith);
                assert(n * 1 == n) by (nonlinear_arith);
            }
        }
    } else {
        rounding_is_to_nearest(n, d);
        reveal_with_fuel(exp2, 2);
        assert(n * 1 == n) by (nonlinear_arith);
        let r = round_half_even(n, d);
        if r >= SIGNIFICANDS {
            lemma_quotient(n, d);
            assert(r * d == m * (2 * d)) by (nonlinear_arith)
                requires
                    r == 2 * m,
            ;
        }
    }
}

proof fn lemma_quotient(n: nat, d: nat)
    requires
        d > 0,
        d * 0x10_0000_0000_0000 <= n < d * 0x20_0000_0000_0000,
    ensures
        0x10_0000_0000_0000 <= n / d < 0x20_0000_0000_0000,
{
    let q = n / d;
    let r = n % d;
    vstd::arithmetic::div_mod::lemma_fundamental_div_mod(n as int, d as int);
    assert(0x10_0000_0000_0000 <= q < 0x20_0000_0000_0000) by (nonlinear_arith)
        requires
            n == d * q + r,
            0 <= r < d,
            d * 0x10_0000_0000_0000 <= n < d * 0x20_0000_0000_0000,
    ;
}

proof fn lemma_low(n: nat, d: nat, e: int)
    requires
        0 < n < d * 0x10_0000_0000_0000,
    ensures
        nearest(n, d, e).e <= e - 1 || nearest(n, d, e) == (Binary64 {
            m: MIN_SIGNIFICAND as nat,
            e,
        }),
    decreases distance(n, d),
{
    reveal_with_fuel(nearest, 2);
    if 2 * n < d * 0x10_0000_0000_0000 {
        lemma_low(2 * n, d, e - 1);
    }
}

proof fn lemma_high(n: nat, d: nat, e: int)
    requires
        d > 0,
        n >= d * 0x20_0000_0000_0000,
    ensures
        nearest(n, d, e).e >= e + 1,
    decreases distance(n, d),
{
    reveal_with_fuel(nearest, 2);
    if n >= 2 * d * 0x20_0000_0000_0000 {
        lemma_high(n, 2 * d, e + 1);
    }
}

/// Rounding keeps the order.
pub proof fn nearest_is_monotone(n: nat, more: nat, d: nat, e: int)
    requires
        n <= more,
        d > 0,
    ensures
        nearest(more, d, e).at_least(nearest(n, d, e)),
    decreases distance(n, d),
{
    nearest_is_wf(n, d, e);
    nearest_is_wf(more, d, e);
    if n > 0 {
        if n < d * 0x10_0000_0000_0000 {
            if more < d * 0x10_0000_0000_0000 {
                nearest_is_monotone(2 * n, 2 * more, d, e - 1);
            } else {
                lemma_low(n, d, e);
                if more >= d * 0x20_0000_0000_0000 {
                    lemma_high(more, d, e);
                }
            }
        } else if n >= d * 0x20_0000_0000_0000 {
            nearest_is_monotone(n, more, 2 * d, e + 1);
        } else if more >= d * 0x20_0000_0000_0000 {
            lemma_high(more, d, e);
            lemma_quotient(n, d);
        } else {
            lemma_quotient(n, d);
            lemma_quotient(more, d);
            vstd::arithmetic::div_mod::lemma_div_is_ordered(n as int, more as int, d as int);
            vstd::arithmetic::div_mod::lemma_fundamental_div_mod(n as int, d as int);
            vstd::arithmetic::div_mod::lemma_fundamental_div_mod(more as int, d as int);
        }
    }
}

/// Adding is the same either way round, makes nothing less, and comes as close to the true sum as a
/// double can.
pub proof fn sums_are_sums(a: Binary64, b: Binary64)
    requires
        a.wf(),
        b.wf(),
    ensures
        a.plus(b) == b.plus(a),
        a.plus(b).at_least(a),
        a.plus(b).at_least(b),
        a.plus(b).wf(),
        a.m == 0 ==> a.plus(b) == b,
        a.m != 0 && b.m != 0 && a.e >= b.e ==> is_close(
            a.plus(b),
            a.m * exp2((a.e - b.e) as nat) + b.m,
            1,
            b.e,
        ),
{
    if a.m != 0 && b.m != 0 {
        if a.e >= b.e {
            lemma_sum(a, b);
        } else {
            lemma_sum(b, a);
        }
        if a.e == b.e {
            let (x, y) = (a.m, b.m);
            assert(x * 1 + y == y * 1 + x) by (nonlinear_arith);
        }
    }
}

proof fn lemma_sum(a: Binary64, b: Binary64)
    requires
        a.wf(),
        b.wf(),
        a.m != 0,
        b.m != 0,
        a.e >= b.e,
    ensures
        ({
            let n = a.m * exp2((a.e - b.e) as nat) + b.m;
            let f = nearest(n, 1, b.e);
            &&& f.at_least(a)
            &&& f.at_least(b)
            &&& f.wf()
            &&& is_close(f, n, 1, b.e)
        }),
{
    let k = (a.e - b.e) as nat;
    let p = exp2(k);
    let m = a.m;
    lemma_exp2_increases(0, k);
    assert(1 * p == p) by (nonlinear_arith);
    assert(m * p >= p * 0x10_0000_0000_0000) by (nonlinear_arith)
        requires
            m >= 0x10_0000_0000_0000,
    ;
    assert(m * p < p * 0x20_0000_0000_0000) by (nonlinear_arith)
        requires
            m < 0x20_0000_0000_0000,
            p > 0,
    ;
    scaling_down(m * p, 1, b.e, k);
    vstd::arithmetic::div_mod::lemma_fundamental_div_mod_converse(
        (m * p) as int,
        p as int,
        m as int,
        0,
    );
    assert(m * p == p * m) by (nonlinear_arith);
    assert(nearest(m * p, 1, b.e) == a);
    nearest_is_monotone(m * p, m * p + b.m, 1, b.e);
    nearest_is_monotone(b.m, m * p + b.m, 1, b.e);
    nearest_is_wf(m * p + b.m, 1, b.e);
    nearest_is_close(m * p + b.m, 1, b.e);
}

/// A product comes as close to the true product as a double can, and a quotient to the true
/// quotient.
pub proof fn products_and_quotients_are_close(a: Binary64, b: Binary64, n: nat)
    requires
        a.m > 0,
        b.m > 0,
        n > 0,
    ensures
        is_close(a.times(b), a.m * b.m, 1, a.e + b.e),
        is_close(a.divides(n), n, a.m, -a.e),
{
    let (x, y) = (a.m, b.m);
    assert(x * y > 0) by (nonlinear_arith)
        requires
            x > 0,
            y > 0,
    ;
    nearest_is_close(x * y, 1, a.e + b.e);
    nearest_is_close(n, x, -a.e);
}

/// A number that is less than half of the last digit of another does not change it.
proof fn lemma_absorbed(m: nat, x: nat, k: nat, e: int)
    requires
        MIN_SIGNIFICAND <= m < SIGNIFICANDS,
        x < SIGNIFICANDS,
        k >= 54,
    ensures
        nearest(m * exp2(k) + x, 1, e) == (Binary64 { m, e: e + k }),
{
    let n = m * exp2(k) + x;
    lemma_exp2_increases(54, k);
    lemma_exp2_values();
    let d = exp2(k);
    assert(1 * d == d) by (nonlinear_arith);
    assert(m * d >= 0x10_0000_0000_0000 * d) by (nonlinear_arith)
        requires
            m >= 0x10_0000_0000_0000,
    ;
    scaling_down(n, 1, e, k);
    assert(m * d == d * m) by (nonlinear_arith);
    vstd::arithmetic::div_mod::lemma_fundamental_div_mod_converse(
        n as int,
        d as int,
        m as int,
        x as int,
    );
    assert(d * 0x10_0000_0000_0000 <= d * m < d * 0x20_0000_0000_0000) by (nonlinear_arith)
        requires
            0x10_0000_0000_0000 <= m < 0x20_0000_0000_0000,
            d > 0,
    ;
    assert(n < d * 0x20_0000_0000_0000) by (nonlinear_arith)
        requires
            n == d * m + x,
            x < d,
            m + 1 <= 0x20_0000_0000_0000,
    ;
}

/// A double: zero, or a full significand and an exponent.
#[derive(Clone, Copy, Debug)]
pub(crate) struct Double {
    m: u64,
    e: i64,
}

impl View for Double {
    type V = Binary64;

    closed spec fn view(&self) -> Binary64 {
        Binary64 { m: self.m as nat, e: self.e as int }
    }
}

impl Double {
    /// `n / d` times two to the power of `e`, rounded.
    pub(crate) fn nearest(n: u128, d: u64, e: i64) -> (r: Double)
        requires
            d > 0,
            -10_000 <= e <= 10_000,
        ensures
            r@ == nearest(n as nat, d as nat, e as int),
            r@.wf(),
            r@.m == 0 || e - 129 <= r@.e <= e + 129,
    {
        let mut n: u128 = n;
        let mut d: u128 = d as u128;
        let mut e: i64 = e;
        let ghost (n0, d0, e0) = (n as nat, d as nat, e as int);
        proof {
            nearest_is_wf(n0, d0, e0);
            lemma_exp2_values();
        }
        if n == 0 {
            return Double { m: 0, e: 0 };
        }
        let ghost mut j: nat = 0;
        while n / 0x10_0000_0000_0000 < d
            invariant
                0 < d <= u64::MAX,
                d == d0,
                n > 0,
                e == e0 - j,
                n >= exp2(j),
                j <= 128,
                exp2(128) == 0x1_0000_0000_0000_0000_0000_0000_0000_0000int,
                -10_000 <= e0 <= 10_000,
                nearest(n as nat, d as nat, e as int) == nearest(n0, d0, e0),
            decreases distance(n as nat, d as nat),
        {
            proof {
                if j >= 127 {
                    lemma_exp2_increases(j, 128);
                    lemma_exp2_increases(127, j);
                }
            }
            n = 2 * n;
            e = e - 1;
            proof {
                j = j + 1;
                if j > 128 {
                    lemma_exp2_increases(128, j);
                }
            }
        }
        let ghost mut i: nat = 0;
        let ghost e1 = e as int;
        while n / 0x20_0000_0000_0000 >= d
            invariant
                0 < d,
                n / 0x10_0000_0000_0000 >= d,
                e == e1 + i,
                e0 - 128 <= e1 <= e0,
                d >= exp2(i),
                i <= 128,
                exp2(128) == 0x1_0000_0000_0000_0000_0000_0000_0000_0000int,
                -10_000 <= e0 <= 10_000,
                nearest(n as nat, d as nat, e as int) == nearest(n0, d0, e0),
            decreases n - d,
        {
            d = 2 * d;
            e = e + 1;
            proof {
                i = i + 1;
                if i > 128 {
                    lemma_exp2_increases(128, i);
                }
            }
        }
        proof {
            lemma_quotient(n as nat, d as nat);
        }
        let q: u64 = (n / d) as u64;
        let r: u128 = n % d;
        let m: u64 = if r < d - r || (r == d - r && q % 2 == 0) {
            q
        } else {
            q + 1
        };
        if m < SIGNIFICANDS {
            Double { m, e }
        } else {
            Double { m: MIN_SIGNIFICAND, e: e + 1 }
        }
    }

    pub(crate) fn significand(&self) -> (m: u64)
        ensures
            m == self@.m,
    {
        self.m
    }

    pub(crate) fn exponent(&self) -> (e: i64)
        ensures
            e == self@.e,
    {
        self.e
    }

    pub(crate) fn at_least(&self, other: &Double) -> (b: bool)
        ensures
            b == self@.at_least(other@),
    {
        other.m == 0 || (self.m != 0 && (self.e > other.e || (self.e == other.e && self.m
            >= other.m)))
    }

    pub(crate) fn plus(&self, other: &Double) -> (r: Double)
        requires
            self@.wf(),
            other@.wf(),
            -10_000 <= self@.e <= 10_000,
            -10_000 <= other@.e <= 10_000,
        ensures
            r@ == self@.plus(other@),
            r@.wf(),
            r@.m == 0 || self@.e - 129 <= r@.e || other@.e - 129 <= r@.e,
            r@.e <= self@.e + 129 || r@.e <= other@.e + 129,
    {
        if self.m == 0 {
            *other
        } else if other.m == 0 {
            *self
        } else if self.e >= other.e {
            sum(self.m, self.e, other.m, other.e)
        } else {
            sum(other.m, other.e, self.m, self.e)
        }
    }

    pub(crate) fn divides(&self, n: u128) -> (r: Double)
        requires
            self@.wf(),
            self@.m > 0,
            -10_000 <= self@.e <= 10_000,
        ensures
            r@ == self@.divides(n as nat),
            r@.wf(),
            r@.m == 0 || -self@.e - 129 <= r@.e <= -self@.e + 129,
    {
        Double::nearest(n, self.m, -self.e)
    }

    pub(crate) fn times(&self, other: &Double) -> (r: Double)
        requires
            self@.wf(),
            other@.wf(),
            -5_000 <= self@.e <= 5_000,
            -5_000 <= other@.e <= 5_000,
        ensures
            r@ == self@.times(other@),
            r@.wf(),
    {
        let (a, b): (u64, u64) = (self.m, other.m);
        assert(0 <= a * b <= 0x20_0000_0000_0000 * 0x20_0000_0000_0000) by (nonlinear_arith)
            requires
                0 <= a < 0x20_0000_0000_0000,
                0 <= b < 0x20_0000_0000_0000,
        ;
        Double::nearest(self.m as u128 * other.m as u128, 1, self.e + other.e)
    }

    pub(crate) fn from_parts(m: u64, e: i64) -> (r: Double)
        ensures
            r@ == (Binary64 { m: m as nat, e: e as int }),
    {
        Double { m, e }
    }
}

/// The sum of two numbers, the one with the higher exponent first.
fn sum(m: u64, e: i64, m2: u64, e2: i64) -> (r: Double)
    requires
        MIN_SIGNIFICAND <= m < SIGNIFICANDS,
        MIN_SIGNIFICAND <= m2 < SIGNIFICANDS,
        -10_000 <= e2 <= e <= 10_000,
    ensures
        r@ == nearest(m as nat * exp2((e - e2) as nat) + m2 as nat, 1, e2 as int),
        r@.wf(),
        e2 - 129 <= r@.e <= e + 129,
{
    let k: i64 = e - e2;
    if k >= 54 {
        proof {
            lemma_absorbed(m as nat, m2 as nat, k as nat, e2 as int);
        }
        return Double { m, e };
    }
    let mut n: u128 = m as u128;
    let mut i: i64 = 0;
    proof {
        lemma_exp2_values();
        assert(m as nat * 1 == m as nat) by (nonlinear_arith);
    }
    while i < k
        invariant
            0 <= i <= k < 54,
            n == m as nat * exp2(i as nat),
            n < 0x20_0000_0000_0000 * exp2(i as nat),
            exp2(54) == 0x40_0000_0000_0000,
        decreases k - i,
    {
        proof {
            lemma_exp2_increases(i as nat, 54);
            let a = m as nat;
            let p = exp2(i as nat);
            assert(a * (2 * p) == 2 * (a * p)) by (nonlinear_arith);
        }
        n = 2 * n;
        i = i + 1;
    }
    proof {
        lemma_exp2_increases(k as nat, 54);
        nearest_is_wf((n + m2) as nat, 1, e2 as int);
    }
    Double::nearest(n + m2 as u128, 1, e2)
}

} // verus!
