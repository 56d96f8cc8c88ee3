//! How often to poll, and how often to refresh what is shown. Times are nanoseconds of a monotonic
//! clock.
use vstd::prelude::*;

use crate::ntstat::DEFAULT_RECV_TIMEOUT;
use crate::rates::age;

verus! {

/// Pause between polls outside of boost mode: fine-grained enough for normal viewing without
/// unnecessary chatter while nobody's looking.
pub const NORMAL_POLL_SLEEP: u64 = 100_000_000;

/// Boost mode trades chatter for a much smaller blind spot: short-lived connections can live and
/// die inside one [`NORMAL_POLL_SLEEP`] and never get measured.
pub const BOOST_RECV_TIMEOUT: u64 = 15_000_000;

pub const BOOST_POLL_SLEEP: u64 = 10_000_000;

/// How often the displayed number changes, whatever the poll cadence, so that boost mode does not
/// make the menu bar flicker.
pub const UI_REFRESH_INTERVAL: u64 = 1_000_000_000;

/// The receive timeout that goes with a mode.
pub open spec fn recv_timeout(boosted: bool) -> u64 {
    if boosted {
        BOOST_RECV_TIMEOUT
    } else {
        DEFAULT_RECV_TIMEOUT
    }
}

/// The pause between polls that goes with a mode.
pub open spec fn poll_sleep(boosted: bool) -> u64 {
    if boosted {
        BOOST_POLL_SLEEP
    } else {
        NORMAL_POLL_SLEEP
    }
}

/// The timing of the poll loop.
#[derive(Debug, Clone, Copy)]
pub struct Cadence {
    /// Whether the socket is in boost mode.
    pub boosted: bool,
    /// When the display was last refreshed.
    pub last_ui_update: u64,
}

impl Cadence {
    pub fn new(now: u64) -> (c: Cadence)
        ensures
            c == (Cadence { boosted: false, last_ui_update: now }),
    {
        Cadence { boosted: false, last_ui_update: now }
    }

    /// The receive timeout to set before the next poll, if it has to change.
    pub open spec fn spec_new_timeout(self, want_boost: bool) -> Option<u64> {
        if want_boost != self.boosted {
            Some(recv_timeout(want_boost))
        } else {
            None
        }
    }

    pub fn new_timeout(&self, want_boost: bool) -> (t: Option<u64>)
        ensures
            t == self.spec_new_timeout(want_boost),
    {
        if want_boost == self.boosted {
            None
        } else if want_boost {
            Some(BOOST_RECV_TIMEOUT)
        } else {
            Some(DEFAULT_RECV_TIMEOUT)
        }
    }

    /// The mode that the loop is in once the timeout was to be changed.
    pub open spec fn after_timeout(self, want_boost: bool, changed: bool) -> Cadence {
        Cadence {
            boosted: if changed {
                want_boost
            } else {
                self.boosted
            },
            ..self
        }
    }

    /// Takes note of whether the timeout could be changed. Where it could not, the mode stays as it
    /// was, and the change is tried again at the next poll.
    pub fn timeout_changed(&mut self, want_boost: bool, changed: bool)
        ensures
            *final(self) == old(self).after_timeout(want_boost, changed),
    {
        if changed {
            self.boosted = want_boost;
        }
    }

    /// Whether the display is due to be refreshed.
    pub open spec fn is_due(self, now: u64) -> bool {
        age(now as nat, self.last_ui_update as nat) >= UI_REFRESH_INTERVAL
    }

    pub open spec fn after_refresh(self, now: u64) -> Cadence {
        Cadence {
            last_ui_update: if self.is_due(now) {
                now
            } else {
                self.last_ui_update
            },
            ..self
        }
    }

    /// Whether the display is due to be refreshed; if so, the next interval begins.
    pub fn refresh_due(&mut self, now: u64) -> (due: bool)
        ensures
            due == old(self).is_due(now),
            *final(self) == old(self).after_refresh(now),
    {
        if now.saturating_sub(self.last_ui_update) >= UI_REFRESH_INTERVAL {
            self.last_ui_update = now;
            true
        } else {
            false
        }
    }

    /// How long to pause before the next poll.
    pub fn sleep(&self) -> (t: u64)
        ensures
            t == poll_sleep(self.boosted),
    {
        if self.boosted {
            BOOST_POLL_SLEEP
        } else {
            NORMAL_POLL_SLEEP
        }
    }
}

/// The display is due a second after the last refresh, and the next second begins when it is
/// refreshed; the mode has no part in it.
pub proof fn refreshes_come_once_a_second(c: Cadence, now: u64)
    ensures
        c.last_ui_update <= now ==> (c.is_due(now) <==> now - c.last_ui_update >= 1_000_000_000),
        now < c.last_ui_update ==> !c.is_due(now),
        c.is_due(now) ==> c.after_refresh(now).last_ui_update == now,
        !c.is_due(now) ==> c.after_refresh(now).last_ui_update == c.last_ui_update,
        c.after_refresh(now).boosted == c.boosted,
{
}

/// The timeout is set when the mode changes, and only when it does. Boosted, a receive waits fifteen
/// milliseconds and the loop ten; otherwise it is fifty and a hundred.
pub proof fn boost_polls_faster(c: Cadence, want_boost: bool, changed: bool)
    ensures
        c.spec_new_timeout(want_boost) is None <==> want_boost == c.boosted,
        c.spec_new_timeout(true) matches Some(t) ==> t == 15_000_000,
        c.spec_new_timeout(false) matches Some(t) ==> t == 50_000_000,
        poll_sleep(true) == 10_000_000,
        poll_sleep(false) == 100_000_000,
        changed ==> c.after_timeout(want_boost, changed).boosted == want_boost,
        !changed ==> c.after_timeout(want_boost, changed).boosted == c.boosted,
        c.after_timeout(want_boost, changed).last_ui_update == c.last_ui_update,
{
}

/// The display is refreshed at most once per interval, however often the loop asks.
pub proof fn refreshes_keep_their_distance(c: Cadence, first: u64, second: u64)
    requires
        c.is_due(first),
        c.after_refresh(first).is_due(second),
    ensures
        second >= first + UI_REFRESH_INTERVAL,
{
}

/// Boost mode has no say in when the display is refreshed.
pub proof fn boost_leaves_the_display_alone(c: Cadence, want_boost: bool, changed: bool, now: u64)
    ensures
        c.after_timeout(want_boost, changed).is_due(now) == c.is_due(now),
{
}

/// A mode that was asked for is tried until the socket takes it, and then not again.
pub proof fn mode_changes_are_retried(c: Cadence, want_boost: bool)
    ensures
        c.after_timeout(want_boost, false).spec_new_timeout(want_boost) == c.spec_new_timeout(
            want_boost,
        ),
        c.after_timeout(want_boost, true).spec_new_timeout(want_boost) is None,
{
}

} // verus!
