//! Byte totals and the rates made of them, in double precision.
use vstd::prelude::*;

use crate::double::{
    at_least_transitive, doubling_the_divisor, exp2, is_close, lemma_exp2_adds,
    lemma_exp2_increases, lemma_exp2_values, nearest, nearest_is_close, nearest_is_monotone,
    nearest_is_wf, round_half_even, scaling_up, small_numbers_are_exact, sums_are_sums, Binary64,
    Double, MIN_SIGNIFICAND, SIGNIFICANDS,
};

verus! {

pub const NANOS_PER_SEC: u64 = 1_000_000_000;

/// Two to the power of 118. No total grows beyond it: there, even the largest step of a counter is
/// less than half of the total's last digit.
pub const MAX_TOTAL: u128 = 0x40_0000_0000_0000_0000_0000_0000_0000;

/// `n` to the nearest multiple of `unit` or, where `n` has more than 53 bits of those, of the least
/// power of two above that leaves 53.
pub open spec fn in_units(n: nat, unit: nat) -> nat
    decreases n - unit,
{
    if unit == 0 || n < unit * 0x20_0000_0000_0000 {
        round_half_even(n, unit) * unit
    } else {
        in_units(n, 2 * unit)
    }
}

/// The double nearest to a whole number, which is a whole number too.
pub open spec fn nearest_whole(n: nat) -> nat {
    in_units(n, 1)
}

/// A total of `a` bytes once `b` more are counted: the rounded sum of the rounded numbers.
pub open spec fn add_bytes(a: nat, b: nat) -> nat {
    if b == 0 {
        a
    } else {
        nearest_whole(a + nearest_whole(b))
    }
}

/// The machine epsilon, two to the power of -52.
pub open spec fn epsilon() -> Binary64 {
    Binary64 { m: MIN_SIGNIFICAND as nat, e: -104 }
}

/// A span of time in seconds: whole seconds and the fraction of one are rounded each, and so is
/// their sum. No time at all counts as the machine epsilon.
pub open spec fn seconds(nanos: nat) -> Binary64 {
    nearest(nanos / NANOS_PER_SEC as nat, 1, 0).plus(
        nearest(nanos % NANOS_PER_SEC as nat, NANOS_PER_SEC as nat, 0),
    ).higher(epsilon())
}

/// Bytes per second, of `bytes` bytes in `elapsed` nanoseconds.
pub open spec fn rate_of(bytes: nat, elapsed: nat) -> Binary64 {
    seconds(elapsed).divides(bytes)
}

/// The rate of both directions together.
pub open spec fn total_rate_of(rx: nat, tx: nat, elapsed: nat) -> Binary64 {
    rate_of(rx, elapsed).plus(rate_of(tx, elapsed))
}

/// A rate is a double.
pub proof fn rates_are_doubles(rx: nat, tx: nat, elapsed: nat)
    ensures
        rate_of(rx, elapsed).wf(),
        total_rate_of(rx, tx, elapsed).wf(),
{
    let s = seconds(elapsed);
    nearest_is_wf(rx, s.m, -s.e);
    nearest_is_wf(tx, s.m, -s.e);
    let (a, b) = (rate_of(rx, elapsed), rate_of(tx, elapsed));
    nearest_is_wf(a.m * exp2((a.e - b.e) as nat) + b.m, 1, b.e);
    nearest_is_wf(b.m * exp2((b.e - a.e) as nat) + a.m, 1, a.e);
}

/// Over whole seconds a rate is the number of bytes divided by that of the seconds, rounded once;
/// over one second it is the number of bytes.
pub proof fn rates_are_per_second(bytes: nat, secs: nat)
    requires
        0 < secs < SIGNIFICANDS,
    ensures
        rate_of(bytes, secs * NANOS_PER_SEC as nat) == nearest(bytes, secs, 0),
{
    let nanos = secs * NANOS_PER_SEC as nat;
    assert(nanos / NANOS_PER_SEC as nat == secs && nanos % NANOS_PER_SEC as nat == 0);
    small_numbers_are_exact(secs);
    let f = nearest(secs, 1, 0);
    nearest_is_wf(secs, 1, 0);
    let j = (-f.e) as nat;
    lemma_exp2_values();
    if j > 52 {
        lemma_exp2_increases(53, j);
        assert(secs * exp2(j) >= exp2(j)) by (nonlinear_arith)
            requires
                secs > 0,
        ;
    }
    assert(f.at_least(epsilon()));
    doubling_the_divisor(bytes, secs, 0, j);
}

/// A span of time in seconds is the nearest double to its whole seconds and the nearest to the rest,
/// added up.
pub proof fn seconds_add_up(nanos: nat)
    requires
        nanos > 0,
    ensures
        ({
            let whole = nearest(nanos / 1_000_000_000, 1, 0);
            let rest = nearest(nanos % 1_000_000_000, 1_000_000_000, 0);
            seconds(nanos) == whole.plus(rest)
        }),
{
    let whole = nearest(nanos / 1_000_000_000, 1, 0);
    let rest = nearest(nanos % 1_000_000_000, 1_000_000_000, 0);
    nearest_is_wf(nanos / 1_000_000_000, 1, 0);
    nearest_is_wf(nanos % 1_000_000_000, 1_000_000_000, 0);
    sums_are_sums(whole, rest);
    lemma_exp2_values();
    let least = nearest(1, 1_000_000_000, 0);
    lemma_nanosecond();
    if nanos % 1_000_000_000 > 0 {
        nearest_is_monotone(1, nanos % 1_000_000_000, 1_000_000_000, 0);
        at_least_transitive(whole.plus(rest), rest, least);
    } else {
        nearest_is_monotone(1, nanos / 1_000_000_000, 1, 0);
        assert(nearest(1, 1, 0).at_least(epsilon())) by {
            small_numbers_are_exact(1);
            nearest_is_wf(1, 1, 0);
            let j = (-nearest(1, 1, 0).e) as nat;
            if j > 52 {
                lemma_exp2_increases(53, j);
            }
        }
        at_least_transitive(whole.plus(rest), whole, nearest(1, 1, 0));
        at_least_transitive(whole.plus(rest), nearest(1, 1, 0), epsilon());
    }
}

proof fn lemma_nanosecond()
    ensures
        nearest(1, 1_000_000_000, 0).at_least(epsilon()),
{
    lemma_exp2_values();
    lemma_exp2_adds(32, 32);
    lemma_exp2_adds(64, 18);
    assert(exp2(18) == 0x4_0000) by {
        reveal_with_fuel(exp2, 19);
    }
    assert(exp2(82) == 0x4_0000_0000_0000_0000_0000int) by {
        assert(exp2(64) * exp2(18) == 0x4_0000_0000_0000_0000_0000int);
    }
    assert(1 * exp2(82) == exp2(82)) by (nonlinear_arith);
    scaling_up(1, 1_000_000_000, 0, 82);
    nearest_is_wf(1, 1_000_000_000, 0);
}

/// A rate comes as close to the number of bytes divided by the seconds as a double can.
pub proof fn rates_are_close(bytes: nat, elapsed: nat)
    requires
        bytes > 0,
    ensures
        is_close(
            rate_of(bytes, elapsed),
            bytes,
            seconds(elapsed).m,
            -seconds(elapsed).e,
        ),
        seconds(elapsed).at_least(epsilon()),
{
    nearest_is_close(bytes, seconds(elapsed).m, -seconds(elapsed).e);
}

/// No time at all counts as two to the power of -52 seconds.
pub proof fn rates_over_no_time(bytes: nat)
    ensures
        rate_of(bytes, 0) == nearest(bytes, 0x10_0000_0000_0000, 104),
{
}

/// The double nearest to 1.05.
pub open spec fn ratio_105() -> Binary64 {
    Binary64 { m: 0x10_cccc_cccc_cccd, e: -52 }
}

/// Totals are exact up to two to the power of 53.
pub proof fn small_totals_are_exact(a: nat, b: nat)
    requires
        a + b <= SIGNIFICANDS,
    ensures
        add_bytes(a, b) == a + b,
{
    reveal_with_fuel(in_units, 3);
    let n = a + b;
    assert(n / 1 == n && n % 1 == 0 && b / 1 == b && b % 1 == 0);
    assert(n / 2 * 2 == n || n < SIGNIFICANDS);
}

/// Beyond that a total is the double nearest to the sum of what it was and the double nearest to the
/// step, however large it has become.
pub proof fn large_totals_are_nearest(a: nat, b: nat)
    requires
        b > 0,
    ensures
        ({
            let step = nearest(b, 1, 0);
            let w = if b < SIGNIFICANDS {
                b
            } else {
                step.m * exp2(step.e as nat)
            };
            let sum = nearest(a + w, 1, 0);
            a + w >= SIGNIFICANDS ==> add_bytes(a, b) == sum.m * exp2(sum.e as nat) && sum.e > 0
        }),
{
    if b >= SIGNIFICANDS {
        whole_numbers_are_doubles(b);
    } else {
        assert(b / 1 == b && b % 1 == 0);
        assert(nearest_whole(b) == b);
    }
    let n = a + nearest_whole(b);
    if n >= SIGNIFICANDS {
        whole_numbers_are_doubles(n);
    }
}

/// Rounding a whole number gives the value of the nearest double.
pub proof fn whole_numbers_are_doubles(n: nat)
    requires
        n >= SIGNIFICANDS,
    ensures
        nearest(n, 1, 0).e > 0,
        nearest(n, 1, 0).m * exp2(nearest(n, 1, 0).e as nat) == nearest_whole(n),
{
    reveal_with_fuel(exp2, 2);
    reveal_with_fuel(nearest, 2);
    reveal_with_fuel(in_units, 2);
    lemma_whole_from(n, 1);
}

proof fn lemma_whole_from(n: nat, k: nat)
    requires
        k > 0,
        n >= exp2(k) * 0x10_0000_0000_0000,
    ensures
        nearest(n, exp2(k), k as int).e > 0,
        nearest(n, exp2(k), k as int).m * exp2(nearest(n, exp2(k), k as int).e as nat)
            == in_units(n, exp2(k)),
    decreases n - exp2(k),
{
    let u = exp2(k);
    lemma_exp2_increases(0, k);
    if n >= u * 0x20_0000_0000_0000 {
        lemma_whole_from(n, k + 1);
    } else {
        assert(0x10_0000_0000_0000 * (2 * u) == 0x20_0000_0000_0000 * u);
        assert(exp2(k + 1) == 2 * exp2(k));
        let m = round_half_even(n, u);
        let q = n / u;
        let r = n % u;
        vstd::arithmetic::div_mod::lemma_fundamental_div_mod(n as int, u as int);
        assert(q < 0x20_0000_0000_0000) by (nonlinear_arith)
            requires
                n == u * q + r,
                0 <= r < u,
                n < u * 0x20_0000_0000_0000,
        ;
    }
}

/// The double nearest to a whole number, which must not be much more than the largest total.
fn whole(n: u128) -> (r: u128)
    requires
        n <= MAX_TOTAL + 0x1_0000_0000_0000_0000,
    ensures
        r == nearest_whole(n as nat),
        r <= MAX_TOTAL,
        n <= 0x1_0000_0000_0000_0000 ==> r <= 0x1_0000_0000_0000_0000,
{
    let mut unit: u128 = 1;
    let ghost mut k: nat = 0;
    proof {
        lemma_exp2_values();
    }
    while n / 0x20_0000_0000_0000 >= unit
        invariant
            n <= MAX_TOTAL + 0x1_0000_0000_0000_0000,
            unit == exp2(k),
            unit > 0,
            k == 0 || n >= unit * 0x10_0000_0000_0000,
            in_units(n as nat, unit as nat) == nearest_whole(n as nat),
        decreases n - unit,
    {
        unit = 2 * unit;
        proof {
            k = k + 1;
        }
    }
    let q: u128 = n / unit;
    let rem: u128 = n % unit;
    proof {
        vstd::arithmetic::div_mod::lemma_fundamental_div_mod(n as int, unit as int);
        assert(q < 0x20_0000_0000_0000) by (nonlinear_arith)
            requires
                n == unit * q + rem,
                0 <= rem < unit,
                n < unit * 0x20_0000_0000_0000,
        ;
        lemma_exp2_values();
        if k > 66 {
            lemma_exp2_increases(67, k);
        } else if k < 66 {
            lemma_exp2_increases(k, 65);
        }
        if n <= 0x1_0000_0000_0000_0000 {
            if k > 12 {
                lemma_exp2_increases(13, k);
            } else if k < 12 {
                lemma_exp2_increases(k, 11);
            }
        }
        assert((q + 1) * unit == q * unit + unit) by (nonlinear_arith);
        assert(q * unit == unit * q) by (nonlinear_arith);
        assert((q + 1) * unit <= 0x20_0000_0000_0000 * unit) by (nonlinear_arith)
            requires
                q + 1 <= 0x20_0000_0000_0000,
                unit > 0,
        ;
        if k == 66 || k == 12 {
            assert(q >= 0x10_0000_0000_0000 || k == 0) by (nonlinear_arith)
                requires
                    n == unit * q + rem,
                    rem < unit,
                    k == 0 || n >= unit * 0x10_0000_0000_0000,
            ;
        }
        if k == 66 {
            assert(q == 0x10_0000_0000_0000 && 2 * rem < unit) by (nonlinear_arith)
                requires
                    n == unit * q + rem,
                    0 <= rem,
                    unit == 0x4_0000_0000_0000_0000,
                    q >= 0x10_0000_0000_0000,
                    n <= 0x40_0000_0000_0000_0000_0000_0000_0000 + 0x1_0000_0000_0000_0000,
            ;
        }
        if k == 12 && n <= 0x1_0000_0000_0000_0000 {
            assert(q == 0x10_0000_0000_0000 && rem == 0) by (nonlinear_arith)
                requires
                    n == unit * q + rem,
                    0 <= rem,
                    unit == 0x1000,
                    q >= 0x10_0000_0000_0000,
                    n <= 0x1_0000_0000_0000_0000,
            ;
        }
    }
    if rem < unit - rem || (rem == unit - rem && q % 2 == 0) {
        q * unit
    } else {
        (q + 1) * unit
    }
}

/// A transfer rate in bytes per second.
#[derive(Clone, Copy, Debug)]
pub struct Rate {
    value: Double,
}

impl View for Rate {
    type V = Binary64;

    closed spec fn view(&self) -> Binary64 {
        self.value@
    }
}

/// A span of time in seconds, no less than the machine epsilon.
fn seconds_of(nanos: u64) -> (s: Double)
    ensures
        s@ == seconds(nanos as nat),
        s@.wf(),
        s@.m > 0,
        -300 <= s@.e <= 300,
{
    let whole = Double::nearest((nanos / NANOS_PER_SEC) as u128, 1, 0);
    let fraction = Double::nearest((nanos % NANOS_PER_SEC) as u128, NANOS_PER_SEC, 0);
    let sum = whole.plus(&fraction);
    let epsilon = Double::from_parts(MIN_SIGNIFICAND, -104);
    if sum.at_least(&epsilon) {
        sum
    } else {
        epsilon
    }
}

impl Rate {
    #[verifier::type_invariant]
    spec fn inv(self) -> bool {
        &&& self.value@.wf()
        &&& -1000 <= self.value@.e <= 1000
    }

    /// The rate of `bytes` bytes in `elapsed` nanoseconds.
    pub fn over(bytes: u64, elapsed: u64) -> (r: Rate)
        ensures
            r@ == rate_of(nearest_whole(bytes as nat), elapsed as nat),
            r@.wf(),
    {
        Rate::of(whole(bytes as u128), elapsed)
    }

    pub(crate) fn of(bytes: u128, elapsed: u64) -> (r: Rate)
        ensures
            r@ == rate_of(bytes as nat, elapsed as nat),
            r@.wf(),
    {
        let s = seconds_of(elapsed);
        Rate { value: s.divides(bytes) }
    }

    /// The rate of both directions together.
    pub(crate) fn total(rx: u128, tx: u128, elapsed: u64) -> (r: Rate)
        ensures
            r@ == total_rate_of(rx as nat, tx as nat, elapsed as nat),
            r@.wf(),
    {
        let s = seconds_of(elapsed);
        let rx_rate = s.divides(rx);
        let tx_rate = s.divides(tx);
        Rate { value: rx_rate.plus(&tx_rate) }
    }

    /// The rate is this integer, times two to the power of [`Rate::exponent`].
    pub fn significand(&self) -> (m: u64)
        ensures
            m == self@.m,
            m < SIGNIFICANDS,
            self@.wf(),
    {
        proof {
            use_type_invariant(self);
        }
        self.value.significand()
    }

    pub fn exponent(&self) -> (e: i64)
        ensures
            e == self@.e,
            -1000 <= e <= 1000,
    {
        proof {
            use_type_invariant(self);
        }
        self.value.exponent()
    }

    /// Whether this rate is no lower than `other`.
    pub fn at_least(&self, other: &Rate) -> (b: bool)
        ensures
            b == self@.at_least(other@),
    {
        self.value.at_least(&other.value)
    }

    /// Whether this rate is no lower than `bytes` bytes per second.
    pub fn at_least_bytes(&self, bytes: u32) -> (b: bool)
        ensures
            b == self@.at_least(nearest(bytes as nat, 1, 0)),
    {
        self.value.at_least(&Double::nearest(bytes as u128, 1, 0))
    }

    /// The higher of two rates.
    pub fn max(self, other: Rate) -> (r: Rate)
        ensures
            r@ == self@.higher(other@),
    {
        if self.at_least(&other) {
            self
        } else {
            other
        }
    }

    /// Whether this rate is more than a twentieth above `other`.
    pub fn more_than_105_percent_of(&self, other: &Rate) -> (b: bool)
        ensures
            b == self@.more_than(other@.times(ratio_105())),
    {
        proof {
            use_type_invariant(other);
        }
        let ratio = Double::from_parts(0x10_cccc_cccc_cccd, -52);
        !other.value.times(&ratio).at_least(&self.value)
    }
}

/// Bytes received and sent.
#[derive(Clone, Copy, Debug)]
pub struct Traffic {
    rx: u128,
    tx: u128,
}

impl Traffic {
    #[verifier::type_invariant]
    spec fn inv(self) -> bool {
        &&& self.rx <= MAX_TOTAL
        &&& self.tx <= MAX_TOTAL
    }

    pub closed spec fn spec_rx(self) -> nat {
        self.rx as nat
    }

    pub closed spec fn spec_tx(self) -> nat {
        self.tx as nat
    }

    pub fn new(rx: u64, tx: u64) -> (t: Traffic)
        ensures
            t.spec_rx() == nearest_whole(rx as nat),
            t.spec_tx() == nearest_whole(tx as nat),
    {
        Traffic { rx: whole(rx as u128), tx: whole(tx as u128) }
    }

    pub fn rx(&self) -> (n: u128)
        ensures
            n == self.spec_rx(),
    {
        self.rx
    }

    pub fn tx(&self) -> (n: u128)
        ensures
            n == self.spec_tx(),
    {
        self.tx
    }

    /// These totals with some more bytes counted in.
    pub fn plus(&self, rx: u64, tx: u64) -> (t: Traffic)
        ensures
            t.spec_rx() == add_bytes(self.spec_rx(), rx as nat),
            t.spec_tx() == add_bytes(self.spec_tx(), tx as nat),
    {
        proof {
            use_type_invariant(self);
        }
        Traffic { rx: counted(self.rx, rx), tx: counted(self.tx, tx) }
    }
}

fn counted(total: u128, step: u64) -> (r: u128)
    requires
        total <= MAX_TOTAL,
    ensures
        r == add_bytes(total as nat, step as nat),
        r <= MAX_TOTAL,
{
    if step == 0 {
        total
    } else {
        whole(total + whole(step as u128))
    }
}

} // verus!
