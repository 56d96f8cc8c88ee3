use pigtop::ntstat::SourceSample;
use pigtop::rate::Rate;
use pigtop::rates::{ProcessBandwidth, RateTracker, PEAK_WINDOW};

use std::time::Duration;

const SEC: u64 = 1_000_000_000;

fn flow(srcref: u64, pid: u32, rx: u64, tx: u64) -> SourceSample {
    SourceSample {
        srcref,
        pid,
        epid: 0,
        pname: format!("p{pid}"),
        rx_bytes: rx,
        tx_bytes: tx,
    }
}

fn pids(rows: &[ProcessBandwidth]) -> Vec<u32> {
    rows.iter().map(|r| r.pid).collect()
}

fn bytes(r: &ProcessBandwidth) -> (u128, u128) {
    (r.traffic.rx(), r.traffic.tx())
}

fn value(r: &Rate) -> f64 {
    r.significand() as f64 * 2f64.powi(r.exponent() as i32)
}

/// A peak in whole bytes per second.
fn peak(r: &ProcessBandwidth) -> u128 {
    assert_eq!(value(&r.peak_rate).fract(), 0.0);
    value(&r.peak_rate) as u128
}

#[test]
fn a_new_tracker_lists_nothing() {
    let mut t = RateTracker::new(0);
    assert!(t.snapshot(SEC).is_empty());
}

#[test]
fn a_first_sight_is_listed_and_counts_nothing() {
    let mut t = RateTracker::new(0);
    t.record(&[flow(1, 10, 5_000_000, 7_000_000)]);
    let rows = t.snapshot(SEC);
    assert_eq!(pids(&rows), vec![10]);
    assert_eq!(bytes(&rows[0]), (0, 0));
    assert_eq!(rows[0].name, "p10");
    assert_eq!((peak(&rows[0]), rows[0].peak_age), (0, 0));
}

#[test]
fn rates_are_over_the_time_elapsed() {
    let mut t = RateTracker::new(5 * SEC);
    t.record(&[flow(1, 10, 100, 200)]);
    t.record(&[flow(1, 10, 1100, 700)]);
    let rows = t.snapshot(7 * SEC);
    assert_eq!(bytes(&rows[0]), (1000, 500));
    assert_eq!(rows[0].elapsed, 2 * SEC);
    let (rx, tx, total) = (rows[0].rx_rate(), rows[0].tx_rate(), rows[0].total_rate());
    assert_eq!((value(&rx), value(&tx), value(&total)), (500.0, 250.0, 750.0));
    assert_eq!(peak(&rows[0]), 750);
}

#[test]
fn no_time_elapsed_is_no_division_by_zero() {
    let mut t = RateTracker::new(SEC);
    t.record(&[flow(1, 10, 0, 0)]);
    t.record(&[flow(1, 10, 1, 0)]);
    let rows = t.snapshot(SEC);
    assert_eq!(value(&rows[0].total_rate()), 1.0 / f64::EPSILON);
}

#[test]
fn a_clock_that_goes_back_measures_no_time() {
    let mut t = RateTracker::new(9 * SEC);
    t.record(&[flow(1, 10, 0, 0)]);
    let rows = t.snapshot(SEC);
    assert_eq!((rows[0].elapsed, rows[0].peak_age), (0, 0));
}

#[test]
fn flows_of_a_process_add_up() {
    let mut t = RateTracker::new(0);
    t.record(&[flow(1, 10, 0, 0), flow(2, 10, 50, 50), flow(3, 11, 0, 0)]);
    t.record(&[flow(3, 11, 1, 0), flow(2, 10, 60, 50), flow(1, 10, 5, 7)]);
    let rows = t.snapshot(SEC);
    assert_eq!(pids(&rows), vec![10, 11]);
    assert_eq!(bytes(&rows[0]), (15, 7));
    assert_eq!(bytes(&rows[1]), (1, 0));
}

#[test]
fn a_flow_without_a_pid_is_charged_to_the_effective_one() {
    let mut a = flow(1, 0, 0, 0);
    a.epid = 42;
    let mut b = flow(2, 43, 0, 0);
    b.epid = 44;
    let mut t = RateTracker::new(0);
    t.record(&[a, b]);
    let mut listed = pids(&t.snapshot(SEC));
    listed.sort();
    assert_eq!(listed, vec![42, 43]);
}

#[test]
fn the_first_name_of_a_process_stays() {
    let mut renamed = flow(1, 10, 10, 0);
    renamed.pname = "other".to_string();
    let mut t = RateTracker::new(0);
    t.record(&[flow(1, 10, 0, 0)]);
    t.record(&[renamed.clone()]);
    assert_eq!(t.snapshot(SEC)[0].name, "p10");
    t.record(&[renamed]);
    assert_eq!(t.snapshot(2 * SEC)[0].name, "other");
}

#[test]
fn counters_that_go_back_count_nothing() {
    let mut t = RateTracker::new(0);
    t.record(&[flow(1, 10, 1000, 1000), flow(2, 10, 0, 0)]);
    t.record(&[flow(1, 10, 10, 1001), flow(2, 10, 500, 0)]);
    assert_eq!(bytes(&t.snapshot(SEC)[0]), (500, 1));
    // From here on the new source is measured against its own counters.
    t.record(&[flow(1, 10, 30, 1001), flow(2, 10, 500, 0)]);
    assert_eq!(bytes(&t.snapshot(2 * SEC)[0]), (20, 0));
}

#[test]
fn an_absent_flow_loses_its_baseline() {
    let mut t = RateTracker::new(0);
    t.record(&[flow(1, 10, 1000, 0)]);
    t.record(&[]);
    t.record(&[flow(1, 10, 9000, 0)]);
    assert_eq!(bytes(&t.snapshot(SEC)[0]), (0, 0));
    t.record(&[flow(1, 10, 9001, 0)]);
    assert_eq!(bytes(&t.snapshot(2 * SEC)[0]), (1, 0));
}

#[test]
fn a_flow_that_one_poll_reports_twice_is_measured_twice() {
    let mut t = RateTracker::new(0);
    t.record(&[flow(1, 10, 100, 0), flow(1, 10, 130, 5)]);
    assert_eq!(bytes(&t.snapshot(SEC)[0]), (30, 5));
    t.record(&[flow(1, 10, 140, 5)]);
    assert_eq!(bytes(&t.snapshot(2 * SEC)[0]), (10, 0));
}

#[test]
fn the_poll_cadence_does_not_matter() {
    let start = [flow(1, 10, 0, 0), flow(2, 10, 7, 7)];
    let between = [
        vec![flow(2, 10, 9, 8), flow(1, 10, 100, 1)],
        vec![flow(1, 10, 100, 1), flow(2, 10, 9, 9)],
        vec![flow(1, 10, 250, 2), flow(2, 10, 20, 9), flow(3, 11, 0, 0)],
    ];
    let end = [flow(1, 10, 300, 3), flow(2, 10, 27, 10)];
    let mut often = RateTracker::new(0);
    let mut once = RateTracker::new(0);
    often.record(&start);
    once.record(&start);
    for poll in &between {
        often.record(poll);
    }
    often.record(&end);
    once.record(&end);
    assert_eq!(bytes(&often.snapshot(SEC)[0]), (320, 6));
    assert_eq!(bytes(&once.snapshot(SEC)[0]), (320, 6));
}

#[test]
fn a_snapshot_starts_afresh() {
    let mut t = RateTracker::new(0);
    t.record(&[flow(1, 10, 0, 0)]);
    t.record(&[flow(1, 10, 1000, 0)]);
    assert_eq!(bytes(&t.snapshot(SEC)[0]), (1000, 0));
    let rows = t.snapshot(2 * SEC);
    assert_eq!(bytes(&rows[0]), (0, 0));
    // The baseline stays.
    t.record(&[flow(1, 10, 1010, 0)]);
    assert_eq!(bytes(&t.snapshot(3 * SEC)[0]), (10, 0));
}

#[test]
fn a_burst_stays_visible_for_the_window() {
    let mut t = RateTracker::new(0);
    t.record(&[flow(1, 10, 0, 0)]);
    t.record(&[flow(1, 10, 5000, 0)]);
    assert_eq!(peak(&t.snapshot(SEC)[0]), 5000);
    t.record(&[]);
    let rows = t.snapshot(31 * SEC);
    assert_eq!(pids(&rows), vec![10]);
    assert_eq!((rows[0].name.as_str(), bytes(&rows[0])), ("p10", (0, 0)));
    assert_eq!((peak(&rows[0]), rows[0].peak_age), (5000, 30 * SEC));
    let rows = t.snapshot(SEC + PEAK_WINDOW);
    assert_eq!((peak(&rows[0]), rows[0].peak_age), (5000, 60 * SEC));
    assert!(t.snapshot(SEC + PEAK_WINDOW + 1).is_empty());
}

#[test]
fn only_a_new_high_replaces_a_peak() {
    let mut t = RateTracker::new(0);
    t.record(&[flow(1, 10, 0, 0)]);
    t.record(&[flow(1, 10, 1000, 0)]);
    t.snapshot(SEC);
    t.record(&[flow(1, 10, 1400, 0)]);
    let rows = t.snapshot(2 * SEC);
    assert_eq!((bytes(&rows[0]), peak(&rows[0]), rows[0].peak_age), ((400, 0), 1000, SEC));
    // An equal rate is a new high as well.
    t.record(&[flow(1, 10, 1900, 500)]);
    let rows = t.snapshot(3 * SEC);
    assert_eq!((peak(&rows[0]), rows[0].peak_age), (1000, 0));
    t.record(&[flow(1, 10, 3901, 500)]);
    let rows = t.snapshot(4 * SEC);
    assert_eq!((peak(&rows[0]), rows[0].peak_age), (2001, 0));
}

#[test]
fn a_peak_that_goes_out_of_the_window_makes_room_for_the_current_rate() {
    let mut t = RateTracker::new(0);
    t.record(&[flow(1, 10, 0, 0)]);
    t.record(&[flow(1, 10, 1000, 0)]);
    t.snapshot(SEC);
    t.record(&[flow(1, 10, 7100, 0)]);
    let rows = t.snapshot(62 * SEC);
    assert_eq!((bytes(&rows[0]), peak(&rows[0]), rows[0].peak_age), ((6100, 0), 100, 0));
}

#[test]
fn a_peak_at_the_end_of_its_window_still_stands() {
    let mut t = RateTracker::new(0);
    t.record(&[flow(1, 10, 0, 0)]);
    t.record(&[flow(1, 10, 1000, 0)]);
    t.snapshot(SEC);
    t.record(&[flow(1, 10, 7000, 0)]);
    let rows = t.snapshot(61 * SEC);
    assert_eq!((bytes(&rows[0]), peak(&rows[0]), rows[0].peak_age), ((6000, 0), 1000, 60 * SEC));
}

#[test]
fn a_peak_is_never_below_the_current_rate() {
    let mut t = RateTracker::new(0);
    let mut total = 0;
    for n in 1..200u64 {
        t.record(&[flow(1, 10, total, 0)]);
        total += 10_000 / n;
        t.record(&[flow(1, 10, total, 0)]);
        for row in t.snapshot(n * 3 * SEC) {
            assert!(row.peak_rate.at_least(&row.total_rate()));
        }
    }
}

#[test]
fn a_second_snapshot_only_ages() {
    let mut t = RateTracker::new(0);
    t.record(&[flow(1, 10, 0, 0), flow(2, 11, 0, 0)]);
    t.record(&[flow(1, 10, 1000, 0), flow(2, 11, 0, 30)]);
    t.snapshot(SEC);
    t.record(&[flow(1, 10, 1100, 0), flow(2, 11, 0, 130)]);
    let first = t.snapshot(2 * SEC);
    let second = t.snapshot(7 * SEC);
    assert_eq!(pids(&first), pids(&second));
    for (a, b) in first.iter().zip(&second) {
        assert_eq!(bytes(b), (0, 0));
        assert_eq!(value(&b.total_rate()), 0.0);
        assert_eq!(peak(a), peak(b));
        assert_eq!(b.peak_age, a.peak_age + 5 * SEC);
    }
    // The older of the two peaks goes first.
    assert_eq!(pids(&t.snapshot(SEC + PEAK_WINDOW + 1)), vec![11]);
}

#[test]
fn the_highest_of_rate_and_peak_comes_first() {
    let mut t = RateTracker::new(0);
    t.record(&[flow(1, 10, 0, 0), flow(2, 11, 0, 0), flow(3, 12, 0, 0), flow(4, 13, 0, 0)]);
    t.record(&[flow(1, 10, 50, 0), flow(2, 11, 0, 900), flow(3, 12, 30, 30), flow(4, 13, 0, 0)]);
    assert_eq!(pids(&t.snapshot(SEC)), vec![11, 12, 10, 13]);
    // The peak of 11 outranks the current rate of 10.
    t.record(&[flow(1, 10, 450, 0)]);
    assert_eq!(pids(&t.snapshot(2 * SEC)), vec![11, 10, 12, 13]);
}

/// A pseudo-random sequence.
fn next(state: &mut u64) -> u64 {
    *state = state.wrapping_mul(6364136223846793005).wrapping_add(1442695040888963407);
    *state ^ (*state >> 29)
}

#[test]
fn rates_are_those_of_floating_point() {
    let mut state = 7;
    for round in 0..60u64 {
        let mut t = RateTracker::new(0);
        let (mut rx, mut tx) = (0f64, 0f64);
        let mut now = 0;
        let (mut a, mut b) = (0u64, 0u64);
        t.record(&[flow(1, 10, a, b)]);
        for _ in 0..40 {
            for _ in 0..round % 7 + 1 {
                let (x, y) = (next(&mut state), next(&mut state));
                let (da, db) = (x >> (round % 60), y >> (59 - round % 60));
                if a.checked_add(da).is_none() || b.checked_add(db).is_none() {
                    // A new source, whose counters start afresh.
                    (a, b) = (0, 0);
                    t.record(&[]);
                    t.record(&[flow(1, 10, a, b)]);
                }
                (a, b) = (a + da, b + db);
                t.record(&[flow(1, 10, a, b)]);
                rx += da as f64;
                tx += db as f64;
            }
            let elapsed = next(&mut state) >> (30 + round % 34);
            now += elapsed;
            let seconds = Duration::from_nanos(elapsed).as_secs_f64().max(f64::EPSILON);
            let row = t.snapshot(now).remove(0);
            assert_eq!(value(&row.rx_rate()), rx / seconds);
            assert_eq!(value(&row.tx_rate()), tx / seconds);
            assert_eq!(value(&row.total_rate()), rx / seconds + tx / seconds);
            (rx, tx) = (0.0, 0.0);
        }
    }
}

#[test]
fn totals_go_on_like_floating_point() {
    let mut t = RateTracker::new(0);
    let mut sum = 0f64;
    t.record(&[flow(1, 10, 0, 0)]);
    for _ in 0..5000 {
        t.record(&[flow(1, 10, 0, 0), flow(1, 10, u64::MAX, 3)]);
        sum += u64::MAX as f64;
    }
    let row = t.snapshot(1_000_000_000).remove(0);
    assert_eq!(row.traffic.rx() as f64, sum);
    assert_eq!(row.traffic.rx(), sum as u128);
    assert!(row.traffic.rx() > 1 << 76);
    assert_eq!(row.traffic.tx(), 15_000);
}

#[test]
fn each_process_is_listed_once() {
    let mut t = RateTracker::new(0);
    for n in 0..3u64 {
        let poll: Vec<SourceSample> = (0..40u64)
            .map(|i| flow(i, (i % 10) as u32 + 1, n * i * 100, 0))
            .collect();
        t.record(&poll);
        t.snapshot((n + 1) * SEC);
    }
    t.record(&[flow(3, 4, 1000, 0), flow(99, 77, 0, 0)]);
    let rows = t.snapshot(4 * SEC);
    let mut listed = pids(&rows);
    listed.sort();
    assert_eq!(listed, vec![1, 2, 3, 4, 5, 6, 7, 8, 9, 10, 77]);
    for pair in rows.windows(2) {
        let a = pair[0].total_rate().max(pair[0].peak_rate);
        let b = pair[1].total_rate().max(pair[1].peak_rate);
        assert!(a.at_least(&b));
    }
}
