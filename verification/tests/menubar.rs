use pigtop::menubar::{direction_arrow, format_menu_line, MenuBar, QUIT_LABEL, QUIT_MENU_ID, TOOLTIP};
use pigtop::rate::{Rate, Traffic};
use pigtop::rates::ProcessBandwidth;

const SEC: u64 = 1_000_000_000;
const MB: u64 = 1_048_576;

/// Received, sent and peak in bytes per second, the age of the peak in seconds.
fn row(name: &str, rx: u64, tx: u64, peak: u64, age: u64) -> ProcessBandwidth {
    ProcessBandwidth {
        pid: 1,
        name: name.to_string(),
        traffic: Traffic::new(rx, tx),
        elapsed: SEC,
        peak_rate: Rate::over(peak, SEC),
        peak_age: age * SEC,
    }
}

fn shown(ranked: &[ProcessBandwidth], boosted: bool) -> MenuBar {
    let mut m = MenuBar::build();
    m.update(ranked, boosted);
    m
}

#[test]
fn before_anything_is_known() {
    let m = MenuBar::build();
    assert_eq!(m.title, "PigTop");
    assert_eq!(m.slots, vec![""; 8]);
    assert_eq!(QUIT_MENU_ID, "quit");
    assert_eq!(QUIT_LABEL, "Quit PigTop");
    assert_eq!(TOOLTIP, "PigTop — per-process bandwidth");
}

#[test]
fn arrows_point_where_most_of_it_goes() {
    let (less, more) = (Rate::over(1, SEC), Rate::over(2, SEC));
    assert_eq!(direction_arrow(&less, &more), '↑');
    assert_eq!(direction_arrow(&more, &less), '↓');
    assert_eq!(direction_arrow(&more, &more), '↓');
}

#[test]
fn nobody_is_using_the_network() {
    let mut want = vec!["".to_string(); 8];
    want[0] = "No bandwidth pigs (≥ 1 MB/s)".to_string();
    let m = shown(&[], false);
    assert_eq!((m.title.as_str(), &m.slots), ("🐷", &want));
    let m = shown(&[row("idle", MB - 1, 0, MB - 1, 0)], false);
    assert_eq!((m.title.as_str(), &m.slots), ("🐷", &want));
}

#[test]
fn somebody_is_using_the_network() {
    let m = shown(&[row("curl", 3 * MB, MB, 4 * MB, 0)], false);
    assert_eq!(m.title, "↓ curl 4.0 MB/s");
    assert_eq!(m.slots[0], "curl                     down 3.0 MB/s  up 1.0 MB/s");
    assert_eq!(m.slots[1..], ["", "", "", "", "", "", ""]);
    let m = shown(&[row("rsync", 0, MB, MB, 0)], false);
    assert_eq!(m.title, "↑ rsync 1.0 MB/s");
}

#[test]
fn both_directions_count_together() {
    let m = shown(&[row("a", MB / 2, MB / 2, 0, 0)], false);
    assert_eq!(m.title, "↓ a 1.0 MB/s");
}

#[test]
fn somebody_has_been_using_the_network() {
    let m = shown(&[row("curl", 2048, 0, 5 * MB, 12), row("b", 0, 0, MB, 3)], false);
    assert_eq!(m.title, "recently: curl 5.0 MB/s (12s ago)");
    assert_eq!(
        m.slots[0],
        "curl                     down 2 KB/s  up 0 KB/s   peak 5.0 MB/s (12s ago)"
    );
    assert_eq!(
        m.slots[1],
        "b                        down 0 KB/s  up 0 KB/s   peak 1.0 MB/s (3s ago)"
    );
}

#[test]
fn who_is_live_has_the_title_even_behind_a_higher_peak() {
    let ranked = [row("past", 0, 0, 9 * MB, 30), row("now", 2 * MB, 0, 2 * MB, 0)];
    let m = shown(&ranked, false);
    assert_eq!(m.title, "↓ now 2.0 MB/s");
    assert!(m.slots[0].starts_with("past "));
    assert!(m.slots[1].starts_with("now "));
}

#[test]
fn the_title_names_the_current_top_consumer() {
    let ranked = [row("A", 2 * MB, 0, 50 * MB, 10), row("B", 10 * MB, 0, 10 * MB, 0)];
    let m = shown(&ranked, false);
    assert_eq!(m.title, "↓ B 10.0 MB/s");
    assert!(m.slots[0].starts_with("A "));
    assert!(m.slots[1].starts_with("B "));
    // Of equals, the first.
    let ranked = [row("low", MB, 0, 9 * MB, 9), row("x", 0, 3 * MB, 0, 0), row("y", 3 * MB, 0, 0, 0)];
    assert_eq!(shown(&ranked, false).title, "↑ x 3.0 MB/s");
}

#[test]
fn boost_only_changes_the_prefix() {
    for ranked in [vec![], vec![row("curl", 3 * MB, 0, 3 * MB, 0)], vec![row("x", 0, 0, MB, 9)]] {
        let (plain, boosted) = (shown(&ranked, false), shown(&ranked, true));
        assert_eq!(boosted.title, format!("⚡ {}", plain.title));
        assert_eq!(boosted.slots, plain.slots);
    }
}

#[test]
fn an_update_replaces_what_was_shown() {
    let mut m = shown(&[row("a", MB, 0, MB, 0), row("b", MB, 0, MB, 0)], true);
    m.update(&[row("c", 2 * MB, 0, 2 * MB, 0)], false);
    assert_eq!(m.title, "↓ c 2.0 MB/s");
    assert_eq!(m.slots[0], "c                        down 2.0 MB/s  up 0 KB/s");
    assert_eq!(m.slots[1], "");
    assert_eq!(m.slots.len(), 8);
}

#[test]
fn only_as_many_lines_as_there_are_slots() {
    let ranked: Vec<ProcessBandwidth> = (0..12u64)
        .map(|i| row(&format!("p{i}"), if i % 4 == 3 { 0 } else { (20 - i) * MB }, 0, 0, 0))
        .collect();
    let m = shown(&ranked, false);
    let names: Vec<&str> = m.slots.iter().map(|s| s.split(' ').next().unwrap()).collect();
    assert_eq!(names, vec!["p0", "p1", "p2", "p4", "p5", "p6", "p8", "p9"]);
}

#[test]
fn long_names_are_cut() {
    let name = "abcdefghijklmnopqrstuvwxyz";
    let m = shown(&[row(name, MB, 0, 0, 0)], false);
    assert_eq!(m.title, "↓ abcdefghijklmnopqrs… 1.0 MB/s");
    assert_eq!(m.slots[0], "abcdefghijklmnopqrstuvw… down 1.0 MB/s  up 0 KB/s");
}

#[test]
fn a_peak_is_called_out_when_it_is_higher_and_past() {
    let called_out = |p: &ProcessBandwidth| format_menu_line(p).contains("peak");
    assert!(called_out(&row("a", 100, 0, 106, 3)));
    assert!(!called_out(&row("a", 100, 0, 105, 3)));
    assert!(!called_out(&row("a", 100, 0, 106, 2)));
    let mut just_past = row("a", 100, 0, 106, 2);
    just_past.peak_age += 1;
    assert!(called_out(&just_past));
    assert!(!called_out(&row("a", 0, 0, 0, 9)));
}

#[test]
fn ages_are_in_whole_seconds() {
    let mut p = row("a", 0, 0, MB, 4);
    p.peak_age += SEC - 1;
    assert!(format_menu_line(&p).ends_with("peak 1.0 MB/s (4s ago)"));
}
