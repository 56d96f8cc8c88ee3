use pigtop::cadence::{
    Cadence, BOOST_POLL_SLEEP, BOOST_RECV_TIMEOUT, NORMAL_POLL_SLEEP, UI_REFRESH_INTERVAL,
};
use pigtop::ntstat::DEFAULT_RECV_TIMEOUT;

#[test]
fn the_loop_starts_unboosted() {
    let c = Cadence::new(5);
    assert_eq!((c.boosted, c.last_ui_update), (false, 5));
    assert_eq!(c.new_timeout(false), None);
    assert_eq!(c.sleep(), 100_000_000);
}

#[test]
fn the_timeout_follows_the_mode() {
    let mut c = Cadence::new(0);
    assert_eq!(c.new_timeout(true), Some(BOOST_RECV_TIMEOUT));
    c.timeout_changed(true, true);
    assert_eq!(c.new_timeout(true), None);
    assert_eq!(c.sleep(), BOOST_POLL_SLEEP);
    assert_eq!(c.new_timeout(false), Some(DEFAULT_RECV_TIMEOUT));
    c.timeout_changed(false, true);
    assert_eq!(c.sleep(), NORMAL_POLL_SLEEP);
    assert_eq!((BOOST_RECV_TIMEOUT, BOOST_POLL_SLEEP), (15_000_000, 10_000_000));
}

#[test]
fn a_change_that_fails_is_tried_again() {
    let mut c = Cadence::new(0);
    c.timeout_changed(true, false);
    assert!(!c.boosted);
    assert_eq!(c.new_timeout(true), Some(BOOST_RECV_TIMEOUT));
    assert_eq!(c.sleep(), NORMAL_POLL_SLEEP);
}

#[test]
fn the_display_is_refreshed_once_per_interval() {
    let mut c = Cadence::new(100);
    assert!(!c.refresh_due(100 + UI_REFRESH_INTERVAL - 1));
    assert!(c.refresh_due(100 + UI_REFRESH_INTERVAL));
    assert_eq!(c.last_ui_update, 100 + UI_REFRESH_INTERVAL);
    assert!(!c.refresh_due(100 + UI_REFRESH_INTERVAL));
    assert!(!c.refresh_due(50));
    assert!(c.refresh_due(u64::MAX));
}

#[test]
fn boost_leaves_the_refresh_alone() {
    let mut c = Cadence::new(0);
    c.timeout_changed(true, true);
    assert!(!c.refresh_due(UI_REFRESH_INTERVAL - 1));
    assert!(c.refresh_due(UI_REFRESH_INTERVAL));
}
