use pigtop::rate::Rate;
use pigtop::text::{
    format_kilobytes, format_rate, push_decimal, push_padded, push_right_aligned, truncate,
};

use std::time::Duration;

const SEC: u64 = 1_000_000_000;

fn per_second(bytes: u64) -> String {
    format_rate(&Rate::over(bytes, SEC))
}

#[test]
fn numbers_in_decimal() {
    for n in [0u128, 7, 10, 1009, u64::MAX as u128, u128::MAX] {
        let mut out = "n=".to_string();
        push_decimal(&mut out, n);
        assert_eq!(out, format!("n={n}"));
    }
}

#[test]
fn texts_are_cut_to_fit() {
    assert_eq!(truncate("Brave Browser Helper", 20), "Brave Browser Helper");
    assert_eq!(truncate("Brave Browser Helpers", 20), "Brave Browser Helpe…");
    assert_eq!(truncate("", 5), "");
    assert_eq!(truncate("ab", 1), "…");
    assert_eq!(truncate("ab", 0), "…");
    assert_eq!(truncate("", 0), "");
}

#[test]
fn texts_are_cut_by_characters() {
    assert_eq!(truncate("🐷🐷🐷🐷", 4), "🐷🐷🐷🐷");
    assert_eq!(truncate("🐷🐷🐷🐷🐷", 4), "🐷🐷🐷…");
    assert_eq!(truncate("🐷🐷🐷🐷🐷", 4).chars().count(), 4);
}

#[test]
fn texts_are_filled_up() {
    for s in ["", "é", "abc", "abcd", "abcde"] {
        let mut left = "|".to_string();
        push_padded(&mut left, s, 4);
        assert_eq!(left, format!("|{s:<4}"));
        let mut right = "|".to_string();
        push_right_aligned(&mut right, s, 4);
        assert_eq!(right, format!("|{s:>4}"));
    }
}

#[test]
fn rates_below_a_megabyte() {
    assert_eq!(per_second(0), "0 KB/s");
    assert_eq!(per_second(511), "0 KB/s");
    assert_eq!(per_second(512), "0 KB/s");
    assert_eq!(per_second(513), "1 KB/s");
    assert_eq!(per_second(1536), "2 KB/s");
    assert_eq!(per_second(2560), "2 KB/s");
    assert_eq!(per_second(1_048_575), "1024 KB/s");
}

#[test]
fn rates_from_a_megabyte_up() {
    assert_eq!(per_second(1_048_576), "1.0 MB/s");
    assert_eq!(per_second(1_310_720), "1.2 MB/s");
    assert_eq!(per_second(1_835_008), "1.8 MB/s");
    assert_eq!(per_second(1_310_721), "1.3 MB/s");
    assert_eq!(per_second(10_485_760 * 12), "120.0 MB/s");
    assert_eq!(per_second(1_048_576 * 2 - 1), "2.0 MB/s");
}

#[test]
fn rates_read_as_floating_point_does() {
    let mut bytes: u64 = 1;
    for i in 0..2000u64 {
        bytes = bytes.wrapping_mul(6364136223846793005).wrapping_add(1442695040888963407);
        let b = bytes >> (14 + i % 50);
        let elapsed = 900_000_000 + bytes % 200_000_000;
        let rate = b as f64 / Duration::from_nanos(elapsed).as_secs_f64();
        let want = if rate >= 1024.0 * 1024.0 {
            format!("{:.1} MB/s", rate / (1024.0 * 1024.0))
        } else {
            format!("{:.0} KB/s", rate / 1024.0)
        };
        assert_eq!(format_rate(&Rate::over(b, elapsed)), want);
        assert_eq!(
            format_kilobytes(&Rate::over(b, elapsed)),
            format!("{:.1}", rate / 1024.0)
        );
    }
}

#[test]
fn kilobytes_with_one_digit() {
    assert_eq!(format_kilobytes(&Rate::over(0, SEC)), "0.0");
    assert_eq!(format_kilobytes(&Rate::over(1024, SEC)), "1.0");
    assert_eq!(format_kilobytes(&Rate::over(256, SEC)), "0.2");
    assert_eq!(format_kilobytes(&Rate::over(768, SEC)), "0.8");
    assert_eq!(format_kilobytes(&Rate::over(1_048_576, SEC)), "1024.0");
}

#[test]
fn rates_between_two_texts() {
    // In double precision the quotient lies just below 1.15.
    assert_eq!(format_rate(&Rate::over(6_029_312, 5 * SEC)), "1.1 MB/s");
    assert_eq!(format!("{:.1} MB/s", 6_029_312.0 / 5.0 / 1_048_576.0), "1.1 MB/s");
}

#[test]
fn rates_of_any_size_have_a_text() {
    let mut state: u64 = 11;
    for i in 0..3000u64 {
        state = state.wrapping_mul(6364136223846793005).wrapping_add(1442695040888963407);
        let (bytes, elapsed) = (state >> (i % 60), if i % 3 == 0 { 0 } else { state >> (i % 63) });
        let rate = bytes as f64 / Duration::from_nanos(elapsed).as_secs_f64().max(f64::EPSILON);
        let want = if rate >= 1024.0 * 1024.0 {
            format!("{:.1} MB/s", rate / (1024.0 * 1024.0))
        } else {
            format!("{:.0} KB/s", rate / 1024.0)
        };
        assert_eq!(format_rate(&Rate::over(bytes, elapsed)), want);
        assert_eq!(
            format_kilobytes(&Rate::over(bytes, elapsed)),
            format!("{:.1}", rate / 1024.0)
        );
    }
}

#[test]
fn the_largest_rate_has_a_text() {
    assert_eq!(
        format_rate(&Rate::over(u64::MAX, 0)),
        format!("{}.0 MB/s", 1u128 << 96)
    );
}
