//! What recording a sample and taking a snapshot come to, in the fields of the samples and of the
//! tracker's state.
use vstd::prelude::*;

use crate::double::{at_least_transitive, nearest_is_monotone, sums_are_sums, Binary64};
use crate::message::{sample_views, Sample, SourceSample};
use crate::rate::{add_bytes, rate_of, rates_are_doubles, seconds, small_totals_are_exact};
use crate::rate_laws::{lemma_latest_none, reports};
use crate::rates::{
    lemma_record_next, ranked, row_views, stands_before, PidTotal, PrevCounts, ProcessBandwidth,
    Row, TrackerState,
};

verus! {

/// What is said of a sample, and of a list of them, is said of their own fields.
pub proof fn samples_are_seen_as_they_are(s: SourceSample, samples: Seq<SourceSample>)
    ensures
        s@.srcref == s.srcref,
        s@.pid == s.pid,
        s@.epid == s.epid,
        s@.pname == s.pname@,
        s@.rx_bytes == s.rx_bytes,
        s@.tx_bytes == s.tx_bytes,
        sample_views(samples).len() == samples.len(),
        forall|i: int|
            0 <= i < samples.len() ==> #[trigger] sample_views(samples)[i] == samples[i]@,
{
}

/// What is said of a line, and of a list of them, is said of their own fields.
pub proof fn lines_are_seen_as_they_are(p: ProcessBandwidth, rows: Seq<ProcessBandwidth>)
    ensures
        p@.pid == p.pid,
        p@.name == p.name@,
        p@.rx == p.traffic.spec_rx(),
        p@.tx == p.traffic.spec_tx(),
        p@.elapsed == p.elapsed,
        p@.peak_rate == p.peak_rate@,
        p@.peak_age == p.peak_age,
        row_views(rows).len() == rows.len(),
        forall|i: int| 0 <= i < rows.len() ==> #[trigger] row_views(rows)[i] == rows[i]@,
{
}

/// A poll that reports nothing charges nobody, and leaves no flow to measure against.
pub proof fn an_empty_poll_charges_nobody(st: TrackerState)
    ensures
        st.recorded(Seq::empty()).totals == st.totals,
        st.recorded(Seq::empty()).prev == Map::<u64, PrevCounts>::empty(),
        st.recorded(Seq::empty()).peaks == st.peaks,
        st.recorded(Seq::empty()).last_snapshot == st.last_snapshot,
{
    assert(st.recorded(Seq::empty()).totals =~= st.totals);
    assert(st.recorded(Seq::empty()).prev =~= Map::<u64, PrevCounts>::empty());
}

/// A sample that names a process is charged to that process, whatever effective process it names
/// besides; one that names none is charged to the effective process. That process is listed from
/// then on, and no other's total changes.
pub proof fn each_sample_charges_one_process(
    st: TrackerState,
    earlier: Seq<Sample>,
    s: Sample,
    other: u32,
)
    ensures
        ({
            let before = st.recorded(earlier);
            let after = st.recorded(earlier.push(s));
            &&& s.pid != 0 ==> after.totals.contains_key(s.pid)
            &&& s.pid != 0 && other != s.pid ==> after.totals.get(other) == before.totals.get(other)
            &&& s.pid == 0 ==> after.totals.contains_key(s.epid)
            &&& s.pid == 0 && other != s.epid ==> after.totals.get(other) == before.totals.get(
                other,
            )
            &&& after.peaks == st.peaks
            &&& after.last_snapshot == st.last_snapshot
        }),
{
    lemma_record_next(st, earlier, s);
}

/// A process is listed under the name in the first sample that is charged to it, and keeps it.
pub proof fn the_first_name_stays(st: TrackerState, earlier: Seq<Sample>, s: Sample, pid: u32)
    requires
        s.pid != 0 ==> pid == s.pid,
        s.pid == 0 ==> pid == s.epid,
    ensures
        ({
            let before = st.recorded(earlier).totals;
            let after = st.recorded(earlier.push(s)).totals;
            after[pid].name == if before.contains_key(pid) {
                before[pid].name
            } else {
                s.pname
            }
        }),
{
    lemma_record_next(st, earlier, s);
}

/// A flow is measured against its counters in the latest sample about it, and against those of no
/// other flow.
pub proof fn the_latest_counters_are_remembered(
    st: TrackerState,
    earlier: Seq<Sample>,
    s: Sample,
    other: u64,
)
    ensures
        ({
            let before = st.recorded(earlier).prev;
            let after = st.recorded(earlier.push(s)).prev;
            &&& after.contains_key(s.srcref)
            &&& after[s.srcref].rx_bytes == s.rx_bytes
            &&& after[s.srcref].tx_bytes == s.tx_bytes
            &&& other != s.srcref ==> after.get(other) == before.get(other)
        }),
{
    lemma_record_next(st, earlier, s);
}

/// What the process of `s` had moved before, and what it has moved after.
pub open spec fn moves(
    before: Option<PidTotal>,
    after: Option<PidTotal>,
    rx: nat,
    tx: nat,
) -> bool {
    let (rx0, tx0) = match before {
        Some(t) => (t.rx, t.tx),
        None => (0, 0),
    };
    &&& after is Some
    &&& after.unwrap().rx == add_bytes(rx0, rx)
    &&& after.unwrap().tx == add_bytes(tx0, tx)
    &&& rx0 + rx <= 0x20_0000_0000_0000 ==> after.unwrap().rx == rx0 + rx
    &&& tx0 + tx <= 0x20_0000_0000_0000 ==> after.unwrap().tx == tx0 + tx
    &&& rx == 0 ==> after.unwrap().rx == rx0
    &&& tx == 0 ==> after.unwrap().tx == tx0
}

/// A flow that the last poll reported is charged as much as each of its counters has gone up since,
/// and nothing for a counter that has gone back. Up to two to the power of 53 bytes in all, that is
/// exact.
pub proof fn counters_are_charged_by_their_advance(
    st: TrackerState,
    earlier: Seq<Sample>,
    s: Sample,
    pid: u32,
)
    requires
        s.pid != 0 ==> pid == s.pid,
        s.pid == 0 ==> pid == s.epid,
        !reports(earlier, s.srcref),
        st.prev.contains_key(s.srcref),
    ensures
        moves(
            st.recorded(earlier).totals.get(pid),
            st.recorded(earlier.push(s)).totals.get(pid),
            if s.rx_bytes >= st.prev[s.srcref].rx_bytes {
                (s.rx_bytes - st.prev[s.srcref].rx_bytes) as nat
            } else {
                0
            },
            if s.tx_bytes >= st.prev[s.srcref].tx_bytes {
                (s.tx_bytes - st.prev[s.srcref].tx_bytes) as nat
            } else {
                0
            },
        ),
{
    lemma_latest_none(earlier, s.srcref);
    lemma_record_next(st, earlier, s);
    lemma_moves(st, earlier, s, st.prev[s.srcref], pid);
}

/// The same of a flow that the poll itself has reported before, against its latest report.
pub proof fn counters_are_charged_by_their_advance_within_a_poll(
    st: TrackerState,
    earlier: Seq<Sample>,
    k: int,
    s: Sample,
    pid: u32,
)
    requires
        s.pid != 0 ==> pid == s.pid,
        s.pid == 0 ==> pid == s.epid,
        0 <= k < earlier.len(),
        earlier[k].srcref == s.srcref,
        forall|i: int| k < i < earlier.len() ==> (#[trigger] earlier[i]).srcref != s.srcref,
    ensures
        moves(
            st.recorded(earlier).totals.get(pid),
            st.recorded(earlier.push(s)).totals.get(pid),
            if s.rx_bytes >= earlier[k].rx_bytes {
                (s.rx_bytes - earlier[k].rx_bytes) as nat
            } else {
                0
            },
            if s.tx_bytes >= earlier[k].tx_bytes {
                (s.tx_bytes - earlier[k].tx_bytes) as nat
            } else {
                0
            },
        ),
{
    crate::rate_laws::reported_flows_are_remembered(st, earlier, k);
    lemma_record_next(st, earlier, s);
    let c = PrevCounts { rx_bytes: earlier[k].rx_bytes, tx_bytes: earlier[k].tx_bytes };
    lemma_moves(st, earlier, s, c, pid);
}

/// A flow that neither the last poll nor this one has reported yet is charged nothing.
pub proof fn new_flows_are_charged_nothing(
    st: TrackerState,
    earlier: Seq<Sample>,
    s: Sample,
    pid: u32,
)
    requires
        s.pid != 0 ==> pid == s.pid,
        s.pid == 0 ==> pid == s.epid,
        !reports(earlier, s.srcref),
        !st.prev.contains_key(s.srcref),
    ensures
        moves(
            st.recorded(earlier).totals.get(pid),
            st.recorded(earlier.push(s)).totals.get(pid),
            0,
            0,
        ),
{
    lemma_latest_none(earlier, s.srcref);
    lemma_record_next(st, earlier, s);
}

proof fn lemma_moves(st: TrackerState, earlier: Seq<Sample>, s: Sample, c: PrevCounts, pid: u32)
    requires
        s.pid != 0 ==> pid == s.pid,
        s.pid == 0 ==> pid == s.epid,
        crate::rates::baseline(st.prev, earlier, s.srcref) == Some(c),
    ensures
        moves(
            st.recorded(earlier).totals.get(pid),
            st.recorded(earlier.push(s)).totals.get(pid),
            if s.rx_bytes >= c.rx_bytes {
                (s.rx_bytes - c.rx_bytes) as nat
            } else {
                0
            },
            if s.tx_bytes >= c.tx_bytes {
                (s.tx_bytes - c.tx_bytes) as nat
            } else {
                0
            },
        ),
{
    lemma_record_next(st, earlier, s);
    let (rx0, tx0) = match st.recorded(earlier).totals.get(pid) {
        Some(t) => (t.rx, t.tx),
        None => (0, 0),
    };
    let rx = crate::rates::advance(c.rx_bytes, s.rx_bytes);
    let tx = crate::rates::advance(c.tx_bytes, s.tx_bytes);
    if rx0 + rx <= 0x20_0000_0000_0000 {
        small_totals_are_exact(rx0, rx);
    }
    if tx0 + tx <= 0x20_0000_0000_0000 {
        small_totals_are_exact(tx0, tx);
    }
}

/// Of two lines of a snapshot the first moves or has moved at least as much: its current rate or its
/// peak is no lower than the current rate of the second, and no lower than the peak of the second,
/// however old either peak is.
pub proof fn rank_is_rate_or_peak(rows: Seq<Row>, i: int, j: int)
    requires
        ranked(rows),
        0 <= i < j < rows.len(),
    ensures
        rows[i].total_rate().at_least(rows[j].total_rate()) || rows[i].peak_rate.at_least(
            rows[j].total_rate(),
        ),
        rows[i].total_rate().at_least(rows[j].peak_rate) || rows[i].peak_rate.at_least(
            rows[j].peak_rate,
        ),
        stands_before(rows[i], rows[j]),
{
    let (a, b) = (rows[i], rows[j]);
    assert(a.rank().at_least(b.rank()));
    let high = if a.total_rate().at_least(a.peak_rate) {
        a.total_rate()
    } else {
        a.peak_rate
    };
    let low = if b.total_rate().at_least(b.peak_rate) {
        b.total_rate()
    } else {
        b.peak_rate
    };
    at_least_transitive(high, low, b.total_rate());
    at_least_transitive(high, low, b.peak_rate);
}

/// A snapshot lists each process that has had a flow since the last one, with its name, what it has
/// moved and the time since; a clock that went back has measured none.
pub proof fn a_snapshot_shows_what_has_accumulated(st: TrackerState, now: nat, pid: u32)
    ensures
        ({
            let row = st.row_at(now, pid);
            &&& row.pid == pid
            &&& st.last_snapshot <= now ==> row.elapsed == now - st.last_snapshot
            &&& st.last_snapshot > now ==> row.elapsed == 0
            &&& st.totals.get(pid) matches Some(t) ==> {
                &&& st.listed(now, pid)
                &&& row.name == t.name
                &&& row.rx == t.rx
                &&& row.tx == t.tx
            }
            &&& !st.totals.contains_key(pid) ==> row.rx == 0 && row.tx == 0
        }),
{
}

/// A process without a flow is listed if and only if its peak is no older than a minute, and then
/// with that peak, its age and the name it had.
pub proof fn a_snapshot_shows_the_peaks_of_a_minute(st: TrackerState, now: nat, pid: u32)
    requires
        !st.totals.contains_key(pid),
    ensures
        !st.peaks.contains_key(pid) ==> !st.listed(now, pid),
        st.peaks.get(pid) matches Some(p) ==> {
            let row = st.row_at(now, pid);
            &&& st.listed(now, pid) <==> now <= p.at + 60_000_000_000
            &&& row.name == p.name
            &&& row.peak_rate == p.rate
            &&& p.at <= now ==> row.peak_age == now - p.at
            &&& p.at > now ==> row.peak_age == 0
        },
{
}

/// The peak of a process with a flow is the current rate, unless it has moved more within the last
/// minute.
pub proof fn a_snapshot_shows_the_highest_rate_of_a_minute(st: TrackerState, now: nat, pid: u32)
    requires
        st.totals.contains_key(pid),
    ensures
        ({
            let row = st.row_at(now, pid);
            let stays = st.peaks.contains_key(pid) && now <= st.peaks[pid].at + 60_000_000_000
                && !row.total_rate().at_least(st.peaks[pid].rate);
            &&& stays ==> row.peak_rate == st.peaks[pid].rate
            &&& stays && st.peaks[pid].at <= now ==> row.peak_age == now - st.peaks[pid].at
            &&& stays && st.peaks[pid].at > now ==> row.peak_age == 0
            &&& stays ==> st.snapshotted(now).peaks[pid] == st.peaks[pid]
            &&& !stays ==> row.peak_rate == row.total_rate() && row.peak_age == 0
            &&& !stays ==> st.snapshotted(now).peaks[pid].name == st.totals[pid].name
                && st.snapshotted(now).peaks[pid].at == now
        }),
{
}

/// A snapshot keeps the peaks that it shows, as old as it shows them, and nothing else of what has
/// accumulated. What flows are measured against stays.
pub proof fn a_snapshot_keeps_what_it_shows(st: TrackerState, now: nat, pid: u32)
    ensures
        ({
            let next = st.snapshotted(now);
            let row = st.row_at(now, pid);
            &&& next.totals == Map::<u32, PidTotal>::empty()
            &&& next.prev == st.prev
            &&& next.last_snapshot == now
            &&& next.peaks.contains_key(pid) <==> st.listed(now, pid)
            &&& st.listed(now, pid) ==> next.peaks[pid].rate == row.peak_rate
            &&& st.listed(now, pid) && next.peaks[pid].at <= now ==> now - next.peaks[pid].at
                == row.peak_age
            &&& !st.totals.contains_key(pid) && st.listed(now, pid) ==> next.peaks[pid]
                == st.peaks[pid]
        }),
{
}

/// The rate of a line counts both directions alike, and either alone where the other is idle; it is
/// no less than the rate of either.
pub proof fn both_directions_count_alike(a: Row, b: Row)
    requires
        a.rx == b.tx,
        a.tx == b.rx,
        a.elapsed == b.elapsed,
    ensures
        a.rx_rate() == rate_of(a.rx, a.elapsed),
        a.rx_rate() == b.tx_rate(),
        a.tx_rate() == b.rx_rate(),
        a.total_rate() == rate_of(a.rx, a.elapsed).plus(rate_of(a.tx, a.elapsed)),
        a.total_rate() == b.total_rate(),
        a.total_rate().at_least(a.rx_rate()),
        a.total_rate().at_least(a.tx_rate()),
        a.tx == 0 ==> a.total_rate() == a.rx_rate(),
        a.rx == 0 ==> a.total_rate() == a.tx_rate(),
        a.rx == 0 && a.tx == 0 ==> a.total_rate() == Binary64::zero(),
{
    rates_are_doubles(a.rx, a.tx, a.elapsed);
    rates_are_doubles(a.tx, a.rx, a.elapsed);
    sums_are_sums(a.rx_rate(), a.tx_rate());
    sums_are_sums(a.tx_rate(), a.rx_rate());
}

/// Who moves more in the same time has no lower rate.
pub proof fn more_bytes_are_no_lower_rate(a: Row, b: Row)
    requires
        a.elapsed == b.elapsed,
    ensures
        a.rx <= b.rx ==> b.rx_rate().at_least(a.rx_rate()),
        a.tx <= b.tx ==> b.tx_rate().at_least(a.tx_rate()),
{
    let s = seconds(a.elapsed);
    if a.rx <= b.rx {
        nearest_is_monotone(a.rx, b.rx, s.m, -s.e);
    }
    if a.tx <= b.tx {
        nearest_is_monotone(a.tx, b.tx, s.m, -s.e);
    }
}

} // verus!
