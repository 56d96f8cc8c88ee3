//! From the flows that each poll reports to a ranked list of processes.
use std::collections::HashMap;
use vstd::prelude::*;

use crate::double::{at_least_transitive, Binary64};
use crate::message::{sample_views, Sample, SourceSample};
use crate::rate::{add_bytes, rate_of, total_rate_of, Rate, Traffic};
use crate::rate_laws::states_stay_wf;
use crate::tracker_laws::rank_is_rate_or_peak;

verus! {

broadcast use vstd::std_specs::hash::group_hash_axioms;

/// How long a burst stays visible as "peak" after the process goes back to idle, in nanoseconds.
pub const PEAK_WINDOW: u64 = 60_000_000_000;

/// The cumulative counters of one flow, as last seen.
#[derive(Debug, Clone, Copy)]
pub struct PrevCounts {
    pub rx_bytes: u64,
    pub tx_bytes: u64,
}

/// What a process has moved since the last snapshot.
struct Accumulated {
    name: String,
    traffic: Traffic,
}

struct PeakInfo {
    name: String,
    peak_rate: Rate,
    at: u64,
}

/// A process's bytes since the last snapshot.
pub struct PidTotal {
    pub name: Seq<char>,
    pub rx: nat,
    pub tx: nat,
}

/// The highest rate of a process, and when it was measured.
pub struct Peak {
    pub name: Seq<char>,
    pub rate: Binary64,
    pub at: nat,
}

/// What a [`RateTracker`] remembers.
pub struct TrackerState {
    /// The baseline of each flow that the latest poll reported.
    pub prev: Map<u64, PrevCounts>,
    pub totals: Map<u32, PidTotal>,
    pub peaks: Map<u32, Peak>,
    pub last_snapshot: nat,
}

/// One line of a snapshot.
pub struct Row {
    pub pid: u32,
    pub name: Seq<char>,
    pub rx: nat,
    pub tx: nat,
    pub elapsed: nat,
    pub peak_rate: Binary64,
    pub peak_age: nat,
}

impl Row {
    pub open spec fn rx_rate(self) -> Binary64 {
        rate_of(self.rx, self.elapsed)
    }

    pub open spec fn tx_rate(self) -> Binary64 {
        rate_of(self.tx, self.elapsed)
    }

    pub open spec fn total_rate(self) -> Binary64 {
        total_rate_of(self.rx, self.tx, self.elapsed)
    }

    /// What lines are ranked by.
    pub open spec fn rank(self) -> Binary64 {
        self.total_rate().higher(self.peak_rate)
    }
}

/// How long before `now` the instant `at` was; an instant that is yet to come is not old at all.
pub open spec fn age(now: nat, at: nat) -> nat {
    if at <= now {
        (now - at) as nat
    } else {
        0
    }
}

/// Highest rank first.
pub open spec fn ranked(rows: Seq<Row>) -> bool {
    forall|i: int, j: int|
        0 <= i < j < rows.len() ==> (#[trigger] rows[i]).rank().at_least((#[trigger] rows[j]).rank())
}

/// Whether `a` has reason to stand before `b`: its current rate or its peak is no lower than the
/// current rate of `b`, and also no lower than the peak of `b`, however old the peaks are.
pub open spec fn stands_before(a: Row, b: Row) -> bool {
    &&& a.total_rate().at_least(b.total_rate()) || a.peak_rate.at_least(b.total_rate())
    &&& a.total_rate().at_least(b.peak_rate) || a.peak_rate.at_least(b.peak_rate)
}

/// The process that a flow is charged to.
pub open spec fn owner(s: Sample) -> u32 {
    if s.pid != 0 {
        s.pid
    } else {
        s.epid
    }
}

pub open spec fn counts(s: Sample) -> PrevCounts {
    PrevCounts { rx_bytes: s.rx_bytes, tx_bytes: s.tx_bytes }
}

/// The counters in the last of `samples` that is about the flow `srcref`.
pub open spec fn latest(samples: Seq<Sample>, srcref: u64) -> Option<PrevCounts>
    decreases samples.len(),
{
    if samples.len() == 0 {
        None
    } else if samples.last().srcref == srcref {
        Some(counts(samples.last()))
    } else {
        latest(samples.drop_last(), srcref)
    }
}

/// What the flow `srcref` is measured against: its counters earlier in the same poll or, failing
/// that, in the poll before.
pub open spec fn baseline(
    prev: Map<u64, PrevCounts>,
    earlier: Seq<Sample>,
    srcref: u64,
) -> Option<PrevCounts> {
    match latest(earlier, srcref) {
        Some(c) => Some(c),
        None => prev.get(srcref),
    }
}

/// How far a cumulative counter has come. A counter that went back belongs to a new source, which
/// has moved nothing yet.
pub open spec fn advance(from: u64, to: u64) -> nat {
    if from <= to {
        (to - from) as nat
    } else {
        0
    }
}

/// Bytes that `s` adds to what its flow has received, by what it is measured against.
pub open spec fn rx_step(from: Option<PrevCounts>, s: Sample) -> nat {
    match from {
        Some(c) => advance(c.rx_bytes, s.rx_bytes),
        None => 0,
    }
}

/// Bytes that `s` adds to what its flow has sent, by what it is measured against.
pub open spec fn tx_step(from: Option<PrevCounts>, s: Sample) -> nat {
    match from {
        Some(c) => advance(c.tx_bytes, s.tx_bytes),
        None => 0,
    }
}

/// A total of `total` bytes received by `pid`, once one poll's samples are counted one by one.
pub open spec fn rx_after(
    total: nat,
    prev: Map<u64, PrevCounts>,
    samples: Seq<Sample>,
    pid: u32,
) -> nat
    decreases samples.len(),
{
    if samples.len() == 0 {
        total
    } else {
        let earlier = samples.drop_last();
        let s = samples.last();
        let before = rx_after(total, prev, earlier, pid);
        if owner(s) == pid {
            add_bytes(before, rx_step(baseline(prev, earlier, s.srcref), s))
        } else {
            before
        }
    }
}

/// A total of `total` bytes sent by `pid`, once one poll's samples are counted one by one.
pub open spec fn tx_after(
    total: nat,
    prev: Map<u64, PrevCounts>,
    samples: Seq<Sample>,
    pid: u32,
) -> nat
    decreases samples.len(),
{
    if samples.len() == 0 {
        total
    } else {
        let earlier = samples.drop_last();
        let s = samples.last();
        let before = tx_after(total, prev, earlier, pid);
        if owner(s) == pid {
            add_bytes(before, tx_step(baseline(prev, earlier, s.srcref), s))
        } else {
            before
        }
    }
}

/// The name in the first of `samples` that is charged to `pid`.
pub open spec fn name_in(samples: Seq<Sample>, pid: u32) -> Option<Seq<char>>
    decreases samples.len(),
{
    if samples.len() == 0 {
        None
    } else {
        match name_in(samples.drop_last(), pid) {
            Some(n) => Some(n),
            None => if owner(samples.last()) == pid {
                Some(samples.last().pname)
            } else {
                None
            },
        }
    }
}

impl TrackerState {
    /// Every remembered rate is a double.
    pub open spec fn wf(self) -> bool {
        forall|pid: u32| #[trigger] self.peaks.contains_key(pid) ==> self.peaks[pid].rate.wf()
    }

    /// No remembered peak is later than the last snapshot.
    pub open spec fn peaks_are_past(self) -> bool {
        forall|pid: u32| #[trigger]
            self.peaks.contains_key(pid) ==> self.peaks[pid].at <= self.last_snapshot
    }

    /// The bytes of `pid` once a poll's samples are folded in.
    pub open spec fn total_after(self, samples: Seq<Sample>, pid: u32) -> PidTotal {
        PidTotal {
            name: match self.totals.get(pid) {
                Some(t) => t.name,
                None => name_in(samples, pid).unwrap(),
            },
            rx: rx_after(self.rx(pid), self.prev, samples, pid),
            tx: tx_after(self.tx(pid), self.prev, samples, pid),
        }
    }

    /// Bytes that `pid` has received since the last snapshot.
    pub open spec fn rx(self, pid: u32) -> nat {
        match self.totals.get(pid) {
            Some(t) => t.rx,
            None => 0,
        }
    }

    /// Bytes that `pid` has sent since the last snapshot.
    pub open spec fn tx(self, pid: u32) -> nat {
        match self.totals.get(pid) {
            Some(t) => t.tx,
            None => 0,
        }
    }

    /// Nanoseconds since the last snapshot.
    pub open spec fn elapsed(self, now: nat) -> nat {
        age(now, self.last_snapshot)
    }

    /// The rate of `pid` since the last snapshot, both directions together.
    pub open spec fn total_rate(self, now: nat, pid: u32) -> Binary64 {
        total_rate_of(self.totals[pid].rx, self.totals[pid].tx, self.elapsed(now))
    }

    /// Whether `pid` has a remembered peak that is no older than [`PEAK_WINDOW`].
    pub open spec fn has_fresh_peak(self, now: nat, pid: u32) -> bool {
        &&& self.peaks.contains_key(pid)
        &&& age(now, self.peaks[pid].at) <= PEAK_WINDOW
    }

    /// Whether `pid` has had a flow, and no peak of it within the window exceeds its rate.
    pub open spec fn is_new_high(self, now: nat, pid: u32) -> bool {
        &&& self.totals.contains_key(pid)
        &&& self.has_fresh_peak(now, pid) ==> self.total_rate(now, pid).at_least(
            self.peaks[pid].rate,
        )
    }

    /// The peak of `pid` once the current rates are taken into account: a new high replaces the
    /// peak, and a peak in the window that is not reached stays as it is.
    pub open spec fn raised_peak(self, now: nat, pid: u32) -> Peak {
        if self.is_new_high(now, pid) {
            Peak { name: self.totals[pid].name, rate: self.total_rate(now, pid), at: now }
        } else {
            self.peaks[pid]
        }
    }

    /// The peaks that a snapshot at `now` shows and keeps: one for each process that has had a flow,
    /// and those of others that are no older than [`PEAK_WINDOW`].
    pub open spec fn peaks_at(self, now: nat) -> Map<u32, Peak> {
        Map::new(
            |pid: u32| self.listed(now, pid),
            |pid: u32| self.raised_peak(now, pid),
        )
    }

    /// Whether a snapshot at `now` lists `pid`: it has had a flow since the last one, or has a peak.
    pub open spec fn listed(self, now: nat, pid: u32) -> bool {
        self.totals.contains_key(pid) || self.has_fresh_peak(now, pid)
    }

    /// What a snapshot at `now` says of a `pid` that it lists.
    pub open spec fn row_at(self, now: nat, pid: u32) -> Row {
        let peak = self.raised_peak(now, pid);
        Row {
            pid,
            name: match self.totals.get(pid) {
                Some(t) => t.name,
                None => peak.name,
            },
            rx: self.rx(pid),
            tx: self.tx(pid),
            elapsed: self.elapsed(now),
            peak_rate: peak.rate,
            peak_age: age(now, peak.at),
        }
    }

    /// The state that a snapshot at `now` leaves.
    pub open spec fn snapshotted(self, now: nat) -> TrackerState {
        TrackerState {
            prev: self.prev,
            totals: Map::empty(),
            peaks: self.peaks_at(now),
            last_snapshot: now,
        }
    }

    /// The state once a poll's samples are folded in.
    pub open spec fn recorded(self, samples: Seq<Sample>) -> TrackerState {
        TrackerState {
            prev: Map::new(
                |k: u64| latest(samples, k) is Some,
                |k: u64| latest(samples, k).unwrap(),
            ),
            totals: Map::new(
                |pid: u32| self.totals.contains_key(pid) || name_in(samples, pid) is Some,
                |pid: u32| self.total_after(samples, pid),
            ),
            ..self
        }
    }
}

/// One process in a snapshot.
#[derive(Debug, Clone)]
pub struct ProcessBandwidth {
    pub pid: u32,
    pub name: String,
    /// What the process has moved since the snapshot before.
    pub traffic: Traffic,
    /// Nanoseconds since the snapshot before.
    pub elapsed: u64,
    /// Highest total rate seen for this pid within the trailing [`PEAK_WINDOW`], so a short burst
    /// stays visible for a while after it finishes rather than vanishing the instant the flow that
    /// caused it closes.
    pub peak_rate: Rate,
    /// Nanoseconds since that peak.
    pub peak_age: u64,
}

impl View for ProcessBandwidth {
    type V = Row;

    open spec fn view(&self) -> Row {
        Row {
            pid: self.pid,
            name: self.name@,
            rx: self.traffic.spec_rx(),
            tx: self.traffic.spec_tx(),
            elapsed: self.elapsed as nat,
            peak_rate: self.peak_rate@,
            peak_age: self.peak_age as nat,
        }
    }
}

impl ProcessBandwidth {
    pub fn rx_rate(&self) -> (r: Rate)
        ensures
            r@ == self@.rx_rate(),
    {
        Rate::of(self.traffic.rx(), self.elapsed)
    }

    pub fn tx_rate(&self) -> (r: Rate)
        ensures
            r@ == self@.tx_rate(),
    {
        Rate::of(self.traffic.tx(), self.elapsed)
    }

    /// Both directions together.
    pub fn total_rate(&self) -> (r: Rate)
        ensures
            r@ == self@.total_rate(),
    {
        Rate::total(self.traffic.rx(), self.traffic.tx(), self.elapsed)
    }

    fn rank(&self) -> (r: Rate)
        ensures
            r@ == self@.rank(),
    {
        self.total_rate().max(self.peak_rate)
    }
}

pub open spec fn row_views(rows: Seq<ProcessBandwidth>) -> Seq<Row> {
    Seq::new(rows.len(), |i: int| rows[i]@)
}

/// Turns raw snapshots of the kernel's counters into per-process bandwidth rates, in two decoupled
/// phases: [`RateTracker::record`] folds one poll's byte deltas into a running per-process total,
/// and [`RateTracker::snapshot`] converts whatever has accumulated since the last snapshot into
/// rates over the time that has really passed.
pub struct RateTracker {
    prev: HashMap<u64, PrevCounts>,
    accum: HashMap<u32, Accumulated>,
    peaks: HashMap<u32, PeakInfo>,
    last_snapshot: u64,
}

spec fn total_view(a: Accumulated) -> PidTotal {
    PidTotal { name: a.name@, rx: a.traffic.spec_rx(), tx: a.traffic.spec_tx() }
}

spec fn peak_view(p: PeakInfo) -> Peak {
    Peak { name: p.name@, rate: p.peak_rate@, at: p.at as nat }
}

spec fn totals_view(m: Map<u32, Accumulated>) -> Map<u32, PidTotal> {
    Map::new(|pid: u32| m.contains_key(pid), |pid: u32| total_view(m[pid]))
}

spec fn peaks_view(m: Map<u32, PeakInfo>) -> Map<u32, Peak> {
    Map::new(|pid: u32| m.contains_key(pid), |pid: u32| peak_view(m[pid]))
}

impl View for RateTracker {
    type V = TrackerState;

    closed spec fn view(&self) -> TrackerState {
        TrackerState {
            prev: self.prev@,
            totals: totals_view(self.accum@),
            peaks: peaks_view(self.peaks@),
            last_snapshot: self.last_snapshot as nat,
        }
    }
}

proof fn lemma_peaks_wf(m: Map<u32, PeakInfo>)
    requires
        forall|pid: u32| #[trigger] m.contains_key(pid) ==> m[pid].peak_rate@.wf(),
    ensures
        forall|pid: u32| #[trigger]
            peaks_view(m).contains_key(pid) ==> peaks_view(m)[pid].rate.wf(),
{
}

proof fn lemma_take_next(samples: Seq<SourceSample>, i: int)
    requires
        0 <= i < samples.len(),
    ensures
        sample_views(samples).take(i + 1) == sample_views(samples).take(i).push(samples[i]@),
{
    assert(sample_views(samples).take(i + 1) =~= sample_views(samples).take(i).push(samples[i]@));
}

/// A process that no flow is charged to has moved nothing.
proof fn lemma_unnamed_idle(prev: Map<u64, PrevCounts>, samples: Seq<Sample>, pid: u32)
    requires
        name_in(samples, pid) is None,
    ensures
        rx_after(0, prev, samples, pid) == 0,
        tx_after(0, prev, samples, pid) == 0,
    decreases samples.len(),
{
    if samples.len() > 0 {
        lemma_unnamed_idle(prev, samples.drop_last(), pid);
    }
}

/// The bytes of a process once one more sample is charged to it.
pub(crate) open spec fn charged(total: Option<PidTotal>, s: Sample, from: Option<PrevCounts>) -> PidTotal {
    let (name, rx, tx) = match total {
        Some(t) => (t.name, t.rx, t.tx),
        None => (s.pname, 0, 0),
    };
    PidTotal { name, rx: add_bytes(rx, rx_step(from, s)), tx: add_bytes(tx, tx_step(from, s)) }
}

/// What one more sample does to the recorded state.
pub(crate) proof fn lemma_record_next(st: TrackerState, earlier: Seq<Sample>, s: Sample)
    ensures
        st.recorded(earlier.push(s)).prev == st.recorded(earlier).prev.insert(s.srcref, counts(s)),
        st.recorded(earlier.push(s)).totals == st.recorded(earlier).totals.insert(
            owner(s),
            charged(
                st.recorded(earlier).totals.get(owner(s)),
                s,
                baseline(st.prev, earlier, s.srcref),
            ),
        ),
{
    let all = earlier.push(s);
    let pid = owner(s);
    assert(all.drop_last() =~= earlier);
    assert(st.recorded(all).prev =~= st.recorded(earlier).prev.insert(s.srcref, counts(s)));
    let before = st.recorded(earlier).totals;
    let after = before.insert(
        pid,
        charged(before.get(pid), s, baseline(st.prev, earlier, s.srcref)),
    );
    assert forall|p: u32| #[trigger] st.recorded(all).totals.contains_key(p) implies st.recorded(
        all,
    ).totals[p] == after[p] by {
        if !before.contains_key(pid) {
            lemma_unnamed_idle(st.prev, earlier, pid);
        }
    }
    assert(st.recorded(all).totals =~= after);
}

impl RateTracker {
    #[verifier::type_invariant]
    spec fn inv(self) -> bool {
        forall|pid: u32| #[trigger]
            self.peaks@.contains_key(pid) ==> self.peaks@[pid].peak_rate@.wf()
    }

    /// A tracker that has seen nothing, at the time `now` (in nanoseconds of a monotonic clock).
    pub fn new(now: u64) -> (t: RateTracker)
        ensures
            t@ == (TrackerState {
                prev: Map::empty(),
                totals: Map::empty(),
                peaks: Map::empty(),
                last_snapshot: now as nat,
            }),
            t@.wf(),
    {
        let t = RateTracker {
            prev: HashMap::new(),
            accum: HashMap::new(),
            peaks: HashMap::new(),
            last_snapshot: now,
        };
        assert(t@.totals =~= Map::empty());
        assert(t@.peaks =~= Map::empty());
        t
    }

    /// Folds one poll's raw samples into the running per-process byte totals.
    pub fn record(&mut self, samples: &[SourceSample])
        ensures
            final(self)@ == old(self)@.recorded(sample_views(samples@)),
            old(self)@.wf(),
            final(self)@.wf(),
    {
        proof {
            use_type_invariant(&*self);
            lemma_peaks_wf(self.peaks@);
        }
        let ghost start = self@;
        let mut accum: HashMap<u32, Accumulated> = HashMap::new();
        std::mem::swap(&mut self.accum, &mut accum);
        let ghost views = sample_views(samples@);
        let mut seen: HashMap<u64, PrevCounts> = HashMap::new();
        let mut i: usize = 0;
        assert(views.take(0) =~= Seq::empty());
        assert(seen@ =~= start.recorded(views.take(0)).prev);
        assert(totals_view(accum@) =~= start.recorded(views.take(0)).totals);
        while i < samples.len()
            invariant
                i <= samples.len(),
                views == sample_views(samples@),
                self@.prev == start.prev,
                self@.peaks == start.peaks,
                self@.last_snapshot == start.last_snapshot,
                seen@ == start.recorded(views.take(i as int)).prev,
                totals_view(accum@) == start.recorded(views.take(i as int)).totals,
            decreases samples.len() - i,
        {
            let s = &samples[i];
            let pid: u32 = if s.pid != 0 {
                s.pid
            } else {
                s.epid
            };
            let ghost earlier = views.take(i as int);
            proof {
                lemma_take_next(samples@, i as int);
                lemma_record_next(start, earlier, s@);
            }
            let prev: Option<PrevCounts> = match seen.get(&s.srcref) {
                Some(c) => Some(*c),
                None => match self.prev.get(&s.srcref) {
                    Some(c) => Some(*c),
                    None => None,
                },
            };
            assert(prev == baseline(start.prev, earlier, s.srcref));
            let (rx_delta, tx_delta): (u64, u64) = match prev {
                Some(c) => (
                    s.rx_bytes.saturating_sub(c.rx_bytes),
                    s.tx_bytes.saturating_sub(c.tx_bytes),
                ),
                None => (0, 0),
            };
            let ghost before = accum@;
            let entry: Accumulated = match accum.remove(&pid) {
                Some(a) => Accumulated {
                    name: a.name,
                    traffic: a.traffic.plus(rx_delta, tx_delta),
                },
                None => Accumulated {
                    name: s.pname.clone(),
                    traffic: Traffic::new(0, 0).plus(rx_delta, tx_delta),
                },
            };
            let ghost entry_view = entry;
            accum.insert(pid, entry);
            seen.insert(s.srcref, PrevCounts { rx_bytes: s.rx_bytes, tx_bytes: s.tx_bytes });
            proof {
                assert(totals_view(accum@) =~= totals_view(before).insert(pid, total_view(entry_view)));
                assert(totals_view(before).get(pid) == match before.get(pid) {
                    Some(a) => Some(total_view(a)),
                    None => None,
                });
            }
            i += 1;
        }
        self.prev = seen;
        self.accum = accum;
        assert(views.take(i as int) =~= views);
    }

    /// Converts everything accumulated since the last snapshot into rates over the time elapsed,
    /// resets the accumulator, and returns the ranked list for display.
    pub fn snapshot(&mut self, now: u64) -> (rows: Vec<ProcessBandwidth>)
        ensures
            final(self)@ == old(self)@.snapshotted(now as nat),
            forall|i: int|
                0 <= i < rows.len() ==> {
                    &&& old(self)@.listed(now as nat, (#[trigger] rows[i])@.pid)
                    &&& rows[i]@ == old(self)@.row_at(now as nat, rows[i]@.pid)
                },
            forall|i: int, j: int|
                0 <= i < j < rows.len() ==> (#[trigger] rows[i])@.pid != (#[trigger] rows[j])@.pid,
            forall|pid: u32|
                #[trigger] old(self)@.listed(now as nat, pid) ==> exists|i: int|
                    0 <= i < rows.len() && (#[trigger] rows[i])@.pid == pid,
            ranked(row_views(rows@)),
            forall|i: int, j: int|
                0 <= i < j < rows.len() ==> stands_before(
                    (#[trigger] rows[i])@,
                    (#[trigger] rows[j])@,
                ),
            old(self)@.wf(),
            final(self)@.wf(),
            forall|i: int| 0 <= i < rows.len() ==> (#[trigger] rows[i])@.peak_rate.wf(),
    {
        proof {
            use_type_invariant(&*self);
            lemma_peaks_wf(self.peaks@);
        }
        let ghost start = self@;
        let elapsed: u64 = now.saturating_sub(self.last_snapshot);
        self.last_snapshot = now;
        let mut totals: HashMap<u32, Accumulated> = HashMap::new();
        std::mem::swap(&mut self.accum, &mut totals);
        let mut peaks: HashMap<u32, PeakInfo> = HashMap::new();
        std::mem::swap(&mut self.peaks, &mut peaks);
        let ghost held = peaks@;
        drop_old_peaks(&mut peaks, now);
        assert forall|pid: u32| #[trigger] peaks@.contains_key(pid) <==> start.has_fresh_peak(
            now as nat,
            pid,
        ) by {
            assert(peaks_view(held).contains_key(pid) <==> held.contains_key(pid));
            assert(held.contains_key(pid) ==> peaks_view(held)[pid] == peak_view(held[pid]));
        }
        assert forall|pid: u32| #[trigger] peaks@.contains_key(pid) implies peak_view(
            peaks@[pid],
        ) == start.peaks[pid] by {
            assert(peaks_view(held)[pid] == peak_view(held[pid]));
        }
        raise_peaks(&mut peaks, &totals, elapsed, now, Ghost(start));
        assert(peaks_view(peaks@) =~= start.peaks_at(now as nat));
        assert(self@.totals =~= Map::empty());

        let mut rows: Vec<ProcessBandwidth> = Vec::new();
        let ghost mut done: Set<u32> = Set::empty();
        let listed = pids(&peaks);
        let mut i: usize = 0;
        while i < listed.len()
            invariant
                i <= listed.len(),
                listed@.no_duplicates(),
                forall|pid: u32| #[trigger] listed@.contains(pid) <==> peaks@.contains_key(pid),
                forall|pid: u32| #[trigger]
                    done.contains(pid) <==> listed@.take(i as int).contains(pid),
                totals_view(totals@) == start.totals,
                peaks_view(peaks@) == start.peaks_at(now as nat),
                elapsed == start.elapsed(now as nat),
                rows_are(row_views(rows@), start, now as nat, done),
                ranked(row_views(rows@)),
            decreases listed.len() - i,
        {
            let pid: u32 = listed[i];
            assert(listed@.contains(pid));
            proof {
                lemma_take_contains(listed@, i as int);
            }
            let row = row_of(pid, &totals, &peaks, elapsed, now, Ghost(start));
            let ghost before = row_views(rows@);
            let ghost view = row@;
            let k = insert_ranked(&mut rows, row);
            proof {
                lemma_insert_row(before, k as int, view, start, now as nat, done);
                done = done.insert(pid);
            }
            i += 1;
        }
        proof {
            assert(listed@.take(i as int) =~= listed@);
            let views = row_views(rows@);
            assert forall|pid: u32| #[trigger] peaks@.contains_key(pid) <==> start.listed(
                now as nat,
                pid,
            ) by {
                assert(start.peaks_at(now as nat).contains_key(pid) <==> peaks_view(
                    peaks@,
                ).contains_key(pid));
            }
            assert forall|pid: u32| #[trigger] start.listed(now as nat, pid) implies exists|i: int|
                0 <= i < rows.len() && (#[trigger] rows[i])@.pid == pid by {
                assert(peaks@.contains_key(pid));
                assert(done.contains(pid));
                let i = choose|i: int| 0 <= i < views.len() && (#[trigger] views[i]).pid == pid;
                assert(rows[i]@ == views[i]);
            }
            assert forall|i: int| 0 <= i < rows.len() implies {
                &&& start.listed(now as nat, (#[trigger] rows[i])@.pid)
                &&& rows[i]@ == start.row_at(now as nat, rows[i]@.pid)
            } by {
                assert(views[i] == rows[i]@);
                assert(done.contains(views[i].pid));
                assert(peaks@.contains_key(views[i].pid));
            }
            assert forall|i: int, j: int| 0 <= i < j < rows.len() implies stands_before(
                (#[trigger] rows[i])@,
                (#[trigger] rows[j])@,
            ) by {
                assert(views[i] == rows[i]@ && views[j] == rows[j]@);
                rank_is_rate_or_peak(views, i, j);
            }
            assert forall|i: int, j: int| 0 <= i < j < rows.len() implies (#[trigger] rows[i])@.pid
                != (#[trigger] rows[j])@.pid by {
                assert(views[i] == rows[i]@ && views[j] == rows[j]@);
            }
        }
        proof {
            states_stay_wf(start, Seq::empty(), now as nat);
            assert forall|pid: u32| #[trigger] peaks@.contains_key(
                pid,
            ) implies peaks@[pid].peak_rate@.wf() by {
                assert(start.snapshotted(now as nat).peaks == peaks_view(peaks@));
                assert(peaks_view(peaks@).contains_key(pid));
                assert(peaks_view(peaks@)[pid] == peak_view(peaks@[pid]));
            }
            assert forall|i: int|
                0 <= i < rows.len() implies (#[trigger] rows[i])@.peak_rate.wf() by {
                let pid = rows[i]@.pid;
                assert(start.peaks_at(now as nat).contains_key(pid));
                assert(start.snapshotted(now as nat).peaks.contains_key(pid));
            }
        }
        self.peaks = peaks;
        rows
    }
}

/// `rows` holds what a snapshot says of each of `done`, once each.
spec fn rows_are(rows: Seq<Row>, start: TrackerState, now: nat, done: Set<u32>) -> bool {
    &&& forall|i: int|
        0 <= i < rows.len() ==> {
            &&& done.contains((#[trigger] rows[i]).pid)
            &&& rows[i] == start.row_at(now, rows[i].pid)
        }
    &&& forall|i: int, j: int|
        0 <= i < j < rows.len() ==> (#[trigger] rows[i]).pid != (#[trigger] rows[j]).pid
    &&& forall|pid: u32| #[trigger]
        done.contains(pid) ==> exists|i: int| 0 <= i < rows.len() && (#[trigger] rows[i]).pid == pid
}

proof fn lemma_insert_row(
    rows: Seq<Row>,
    k: int,
    row: Row,
    start: TrackerState,
    now: nat,
    done: Set<u32>,
)
    requires
        rows_are(rows, start, now, done),
        0 <= k <= rows.len(),
        !done.contains(row.pid),
        row == start.row_at(now, row.pid),
    ensures
        rows_are(rows.insert(k, row), start, now, done.insert(row.pid)),
{
    let after = rows.insert(k, row);
    assert forall|i: int| 0 <= i < after.len() implies {
        &&& done.insert(row.pid).contains((#[trigger] after[i]).pid)
        &&& after[i] == start.row_at(now, after[i].pid)
    } by {
        if i < k {
            assert(after[i] == rows[i]);
        } else if i > k {
            assert(after[i] == rows[i - 1]);
        }
    }
    assert forall|i: int, j: int| 0 <= i < j < after.len() implies (#[trigger] after[i]).pid != (
    #[trigger] after[j]).pid by {
        if i < k {
            assert(after[i] == rows[i]);
        } else if i > k {
            assert(after[i] == rows[i - 1]);
        }
        if j < k {
            assert(after[j] == rows[j]);
        } else if j > k {
            assert(after[j] == rows[j - 1]);
        }
    }
    assert forall|pid: u32| #[trigger] done.insert(row.pid).contains(pid) implies exists|i: int|
        0 <= i < after.len() && (#[trigger] after[i]).pid == pid by {
        if pid == row.pid {
            assert(after[k].pid == pid);
        } else {
            let i = choose|i: int| 0 <= i < rows.len() && (#[trigger] rows[i]).pid == pid;
            if i < k {
                assert(after[i] == rows[i]);
            } else {
                assert(after[i + 1] == rows[i]);
            }
        }
    }
}

proof fn lemma_insert_ranked(rows: Seq<Row>, at: int, row: Row, i: int, j: int)
    requires
        ranked(rows),
        0 <= at <= rows.len(),
        forall|i: int| 0 <= i < at ==> (#[trigger] rows[i]).rank().at_least(row.rank()),
        at < rows.len() ==> !rows[at].rank().at_least(row.rank()),
        0 <= i < j <= rows.len(),
    ensures
        rows.insert(at, row)[i].rank().at_least(rows.insert(at, row)[j].rank()),
{
    let after = rows.insert(at, row);
    if j < at {
        assert(after[i] == rows[i] && after[j] == rows[j]);
    } else if j == at {
        assert(after[i] == rows[i]);
    } else if i < at {
        assert(after[i] == rows[i] && after[j] == rows[j - 1]);
    } else if i > at {
        assert(after[i] == rows[i - 1] && after[j] == rows[j - 1]);
    } else {
        assert(after[j] == rows[j - 1]);
        assert(row.rank().at_least(rows[at].rank()));
        if j - 1 > at {
            at_least_transitive(row.rank(), rows[at].rank(), rows[j - 1].rank());
        }
    }
}

/// In a list without duplicates, the next item is not among those before it.
proof fn lemma_take_contains(keys: Seq<u32>, i: int)
    requires
        0 <= i < keys.len(),
        keys.no_duplicates(),
    ensures
        !keys.take(i).contains(keys[i]),
        forall|pid: u32|
            #[trigger] keys.take(i + 1).contains(pid) <==> keys.take(i).contains(pid) || pid
                == keys[i],
{
    assert forall|pid: u32| #[trigger] keys.take(i + 1).contains(pid) <==> keys.take(i).contains(
        pid,
    ) || pid == keys[i] by {
        if keys.take(i).contains(pid) {
            let j = keys.take(i).index_of(pid);
            assert(keys.take(i + 1)[j] == pid);
        }
        if pid == keys[i] {
            assert(keys.take(i + 1)[i] == pid);
        }
        if keys.take(i + 1).contains(pid) && pid != keys[i] {
            let j = keys.take(i + 1).index_of(pid);
            assert(keys.take(i)[j] == pid);
        }
    }
}

/// Lets a new high replace a process's peak.
fn raise_peaks(
    peaks: &mut HashMap<u32, PeakInfo>,
    totals: &HashMap<u32, Accumulated>,
    elapsed: u64,
    now: u64,
    Ghost(start): Ghost<TrackerState>,
)
    requires
        forall|pid: u32| #[trigger]
            old(peaks)@.contains_key(pid) <==> start.has_fresh_peak(now as nat, pid),
        forall|pid: u32| #[trigger]
            old(peaks)@.contains_key(pid) ==> peak_view(old(peaks)@[pid]) == start.peaks[pid],
        totals_view(totals@) == start.totals,
        elapsed == start.elapsed(now as nat),
    ensures
        forall|pid: u32| #[trigger]
            final(peaks)@.contains_key(pid) <==> start.has_fresh_peak(now as nat, pid)
                || start.totals.contains_key(pid),
        forall|pid: u32| #[trigger]
            final(peaks)@.contains_key(pid) ==> peak_view(final(peaks)@[pid]) == start.raised_peak(
                now as nat,
                pid,
            ),
{
    let busy = pids(totals);
    let mut i: usize = 0;
    while i < busy.len()
        invariant
            i <= busy.len(),
            busy@.no_duplicates(),
            forall|pid: u32| #[trigger] busy@.contains(pid) <==> totals@.contains_key(pid),
            totals_view(totals@) == start.totals,
            elapsed == start.elapsed(now as nat),
            forall|pid: u32| #[trigger]
                peaks@.contains_key(pid) <==> start.has_fresh_peak(now as nat, pid)
                    || busy@.take(i as int).contains(pid),
            forall|pid: u32| #[trigger]
                peaks@.contains_key(pid) ==> peak_view(peaks@[pid]) == if busy@.take(
                    i as int,
                ).contains(pid) {
                    start.raised_peak(now as nat, pid)
                } else {
                    start.peaks[pid]
                },
        decreases busy.len() - i,
    {
        let pid: u32 = busy[i];
        proof {
            lemma_take_contains(busy@, i as int);
            assert(busy@.contains(pid));
            assert(totals_view(totals@)[pid] == total_view(totals@[pid]));
        }
        match totals.get(&pid) {
            Some(a) => {
                let total = Rate::total(a.traffic.rx(), a.traffic.tx(), elapsed);
                let is_new_high: bool = match peaks.get(&pid) {
                    Some(p) => total.at_least(&p.peak_rate),
                    None => true,
                };
                if is_new_high {
                    peaks.insert(
                        pid,
                        PeakInfo { name: a.name.clone(), peak_rate: total, at: now },
                    );
                }
            },
            None => {},
        }
        i += 1;
    }
    assert(busy@.take(i as int) =~= busy@);
    assert forall|pid: u32| #[trigger] start.totals.contains_key(pid) <==> totals@.contains_key(
        pid,
    ) by {
        assert(totals_view(totals@).contains_key(pid) <==> totals@.contains_key(pid));
    }
}

/// Forgets the peaks that are older than [`PEAK_WINDOW`].
fn drop_old_peaks(peaks: &mut HashMap<u32, PeakInfo>, now: u64)
    ensures
        forall|pid: u32| #[trigger]
            final(peaks)@.contains_key(pid) <==> old(peaks)@.contains_key(pid) && age(
                now as nat,
                old(peaks)@[pid].at as nat,
            ) <= PEAK_WINDOW,
        forall|pid: u32| #[trigger]
            final(peaks)@.contains_key(pid) ==> final(peaks)@[pid] == old(peaks)@[pid],
{
    let ghost start = peaks@;
    let keys = pids(peaks);
    let mut i: usize = 0;
    while i < keys.len()
        invariant
            i <= keys.len(),
            keys@.no_duplicates(),
            forall|pid: u32| #[trigger] keys@.contains(pid) <==> start.contains_key(pid),
            forall|pid: u32| #[trigger]
                peaks@.contains_key(pid) <==> start.contains_key(pid) && (keys@.take(
                    i as int,
                ).contains(pid) ==> age(now as nat, start[pid].at as nat) <= PEAK_WINDOW),
            forall|pid: u32| #[trigger] peaks@.contains_key(pid) ==> peaks@[pid] == start[pid],
        decreases keys.len() - i,
    {
        let pid: u32 = keys[i];
        proof {
            lemma_take_contains(keys@, i as int);
            assert(keys@.contains(pid));
        }
        let expired: bool = match peaks.get(&pid) {
            Some(p) => now.saturating_sub(p.at) > PEAK_WINDOW,
            None => false,
        };
        if expired {
            peaks.remove(&pid);
        }
        i += 1;
    }
    assert(keys@.take(i as int) =~= keys@);
}

/// The line of a process, once the peaks are those that the snapshot shows.
fn row_of(
    pid: u32,
    totals: &HashMap<u32, Accumulated>,
    peaks: &HashMap<u32, PeakInfo>,
    elapsed: u64,
    now: u64,
    Ghost(start): Ghost<TrackerState>,
) -> (row: ProcessBandwidth)
    requires
        peaks@.contains_key(pid),
        totals_view(totals@) == start.totals,
        peaks_view(peaks@) == start.peaks_at(now as nat),
        elapsed == start.elapsed(now as nat),
    ensures
        row@ == start.row_at(now as nat, pid),
        row@.pid == pid,
{
    proof {
        assert(totals_view(totals@).contains_key(pid) <==> totals@.contains_key(pid));
        assert(totals@.contains_key(pid) ==> totals_view(totals@)[pid] == total_view(totals@[pid]));
        assert(peaks_view(peaks@).contains_key(pid));
        assert(peaks_view(peaks@)[pid] == peak_view(peaks@[pid]));
        assert(start.peaks_at(now as nat)[pid] == start.raised_peak(now as nat, pid));
    }
    let p = peaks.get(&pid).unwrap();
    let (name, traffic): (String, Traffic) = match totals.get(&pid) {
        Some(a) => (a.name.clone(), a.traffic),
        None => (p.name.clone(), Traffic::new(0, 0)),
    };
    ProcessBandwidth {
        pid,
        name,
        traffic,
        elapsed,
        peak_rate: p.peak_rate,
        peak_age: now.saturating_sub(p.at),
    }
}

/// Puts a line behind those that rank no lower than it.
fn insert_ranked(rows: &mut Vec<ProcessBandwidth>, row: ProcessBandwidth) -> (k: usize)
    requires
        ranked(row_views(old(rows)@)),
    ensures
        k <= old(rows).len(),
        row_views(final(rows)@) == row_views(old(rows)@).insert(k as int, row@),
        ranked(row_views(final(rows)@)),
{
    let rank = row.rank();
    let ghost views = row_views(rows@);
    let mut k: usize = 0;
    while k < rows.len() && rows[k].rank().at_least(&rank)
        invariant
            k <= rows.len(),
            views == row_views(rows@),
            rank@ == row@.rank(),
            forall|i: int| 0 <= i < k ==> (#[trigger] views[i]).rank().at_least(rank@),
        decreases rows.len() - k,
    {
        assert(views[k as int] == rows[k as int]@);
        k += 1;
    }
    let ghost at = k as int;
    proof {
        assert(at < views.len() ==> views[at] == rows[at]@);
        let after = views.insert(at, row@);
        assert forall|i: int, j: int| 0 <= i < j < after.len() implies (
        #[trigger] after[i]).rank().at_least((#[trigger] after[j]).rank()) by {
            lemma_insert_ranked(views, at, row@, i, j);
        }
    }
    rows.insert(k, row);
    assert(row_views(rows@) =~= views.insert(at, row@));
    k
}

/// The keys of a map, each once.
fn pids<V>(m: &HashMap<u32, V>) -> (keys: Vec<u32>)
    ensures
        keys@.no_duplicates(),
        forall|pid: u32| #[trigger] keys@.contains(pid) <==> m@.contains_key(pid),
{
    let mut keys: Vec<u32> = Vec::new();
    for k in it: m.keys()
        invariant
            keys@ == it.seq().unref().take(it.index()),
    {
        keys.push(*k);
    }
    let ghost all = vstd::std_specs::iter::IteratorSpec::remaining(
        &vstd::std_specs::hash::spec_keys_iter(m),
    ).unref();
    assert(keys@ =~= all);
    assert forall|pid: u32| #[trigger] keys@.contains(pid) <==> m@.contains_key(pid) by {
        assert(all.to_set().contains(pid) <==> all.contains(pid));
    }
    keys
}

} // verus!
