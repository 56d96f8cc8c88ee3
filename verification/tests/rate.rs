use pigtop::rate::{Rate, Traffic};
use std::time::Duration;

const SEC: u64 = 1_000_000_000;

fn value(r: &Rate) -> f64 {
    r.significand() as f64 * 2f64.powi(r.exponent() as i32)
}

fn quotient(bytes: u64, elapsed: u64) -> f64 {
    bytes as f64 / Duration::from_nanos(elapsed).as_secs_f64().max(f64::EPSILON)
}

fn next(state: &mut u64) -> u64 {
    *state = state.wrapping_mul(6364136223846793005).wrapping_add(1442695040888963407);
    *state ^ (*state >> 31)
}

#[test]
fn a_rate_is_a_double() {
    let r = Rate::over(3, 7 * SEC);
    assert_eq!((r.significand(), r.exponent()), (0x1b_6db6_db6d_b6db, -54));
    assert_eq!(value(&r), 3.0 / 7.0);
    let z = Rate::over(0, 7);
    assert_eq!((z.significand(), z.exponent()), (0, 0));
    let one = Rate::over(1, SEC);
    assert_eq!((one.significand(), one.exponent()), (1 << 52, -52));
}

#[test]
fn rates_are_rounded_as_floating_point_is() {
    let mut state = 1;
    for i in 0..20_000u64 {
        let bytes = next(&mut state) >> (i % 64);
        let elapsed = next(&mut state) >> (i / 64 % 64);
        assert_eq!(value(&Rate::over(bytes, elapsed)), quotient(bytes, elapsed));
    }
    for bytes in [0, 1, (1 << 53) - 1, 1 << 53, (1 << 53) + 1, (1 << 53) + 3, u64::MAX] {
        for elapsed in [0, 1, 999_999_999, SEC, SEC + 1, 5 * SEC, u64::MAX] {
            assert_eq!(value(&Rate::over(bytes, elapsed)), quotient(bytes, elapsed));
        }
    }
}

#[test]
fn no_time_at_all_counts_as_epsilon() {
    assert_eq!(value(&Rate::over(2, 0)), 2.0 / f64::EPSILON);
}

#[test]
fn rates_compare() {
    let mut state = 3;
    for i in 0..5_000u64 {
        let (a, b) = (next(&mut state) >> (i % 50), next(&mut state) >> (i % 50));
        let (s, t) = (next(&mut state) >> 30, next(&mut state) >> 30);
        let (x, y) = (Rate::over(a, s), Rate::over(b, t));
        assert_eq!(x.at_least(&y), quotient(a, s) >= quotient(b, t));
        assert_eq!(value(&x.max(y)), quotient(a, s).max(quotient(b, t)));
    }
    let third = Rate::over(1, 3 * SEC);
    assert!(third.at_least(&Rate::over(2, 6 * SEC)) && Rate::over(2, 6 * SEC).at_least(&third));
    let none = Rate::over(0, SEC);
    assert!(third.at_least(&none) && !none.at_least(&third) && none.at_least(&none));
}

#[test]
fn no_lower_than_is_transitive() {
    let (a, b, c) = (Rate::over(9, 2), Rate::over(13, 3), Rate::over(30, 7));
    assert!(a.at_least(&b) && b.at_least(&c) && a.at_least(&c));
}

#[test]
fn the_higher_of_two_rates() {
    let (a, b) = (Rate::over(5, SEC), Rate::over(6, SEC));
    assert_eq!(value(&a.max(b)), 6.0);
    assert_eq!(value(&b.max(a)), 6.0);
}

#[test]
fn rates_compare_with_a_number_of_bytes() {
    assert!(Rate::over(1024, SEC).at_least_bytes(1024));
    assert!(!Rate::over(1023, SEC).at_least_bytes(1024));
    assert!(!Rate::over(1024, SEC + 1).at_least_bytes(1024));
    assert!(Rate::over(0, SEC).at_least_bytes(0));
    assert!(Rate::over(u64::MAX, 1).at_least_bytes(u32::MAX));
}

#[test]
fn a_twentieth_above() {
    let base = Rate::over(100, SEC);
    assert!(!Rate::over(105, SEC).more_than_105_percent_of(&base));
    assert!(Rate::over(106, SEC).more_than_105_percent_of(&base));
    assert!(!Rate::over(0, SEC).more_than_105_percent_of(&Rate::over(0, SEC)));
    assert!(Rate::over(1, u64::MAX).more_than_105_percent_of(&Rate::over(0, SEC)));
    assert!(!Rate::over(u64::MAX, 0).more_than_105_percent_of(&Rate::over(u64::MAX, 0)));
    for n in 1..3000u64 {
        for d in [0, 1] {
            let (high, low) = (21 * n + d, 20 * n);
            assert_eq!(
                Rate::over(high, 3 * SEC).more_than_105_percent_of(&Rate::over(low, 3 * SEC)),
                quotient(high, 3 * SEC) > quotient(low, 3 * SEC) * 1.05
            );
        }
    }
}

#[test]
fn small_totals_are_exact() {
    let t = Traffic::new(1, 2).plus(10, 20).plus(0, 5);
    assert_eq!((t.rx(), t.tx()), (11, 27));
    let t = Traffic::new((1 << 53) - 1, 0).plus(1, u64::MAX);
    assert_eq!((t.rx(), t.tx()), (1 << 53, 1 << 64));
}

#[test]
fn totals_add_up_as_floating_point_does() {
    let mut state = 5;
    let mut t = Traffic::new(0, 0);
    let (mut rx, mut tx) = (0f64, 0f64);
    for i in 0..20_000u64 {
        let (a, b) = (next(&mut state), next(&mut state) >> (i % 64));
        t = t.plus(a, b);
        rx += a as f64;
        tx += b as f64;
        assert_eq!((t.rx(), t.tx()), (rx as u128, tx as u128));
    }
    // One more byte does not count any more.
    assert_eq!(t.plus(1, 0).rx(), t.rx());
}
