//! What holds of a [`RateTracker`](crate::rates::RateTracker) over several calls.
use vstd::prelude::*;

use crate::message::Sample;
use crate::double::{Binary64, SIGNIFICANDS};
use crate::rate::{rates_are_doubles, small_totals_are_exact};
use crate::rates::{
    advance, age, baseline, counts, latest, name_in, owner, rx_after, rx_step, tx_after, tx_step,
    PrevCounts, TrackerState, PEAK_WINDOW,
};

verus! {

/// The state after a series of polls.
pub open spec fn recorded_all(st: TrackerState, polls: Seq<Seq<Sample>>) -> TrackerState
    decreases polls.len(),
{
    if polls.len() == 0 {
        st
    } else {
        recorded_all(st, polls.drop_last()).recorded(polls.last())
    }
}

/// Bytes received by `pid` according to one poll.
pub open spec fn received(prev: Map<u64, PrevCounts>, samples: Seq<Sample>, pid: u32) -> nat
    decreases samples.len(),
{
    if samples.len() == 0 {
        0
    } else {
        let earlier = samples.drop_last();
        let s = samples.last();
        received(prev, earlier, pid) + if owner(s) == pid {
            rx_step(baseline(prev, earlier, s.srcref), s)
        } else {
            0
        }
    }
}

/// Bytes sent by `pid` according to one poll.
pub open spec fn sent(prev: Map<u64, PrevCounts>, samples: Seq<Sample>, pid: u32) -> nat
    decreases samples.len(),
{
    if samples.len() == 0 {
        0
    } else {
        let earlier = samples.drop_last();
        let s = samples.last();
        sent(prev, earlier, pid) + if owner(s) == pid {
            tx_step(baseline(prev, earlier, s.srcref), s)
        } else {
            0
        }
    }
}

/// Totals are the sum of what the polls have counted, as long as that is no more than two to the
/// power of 53 bytes: up to there, doubles hold every whole number.
pub proof fn totals_are_exact(
    rx: nat,
    tx: nat,
    prev: Map<u64, PrevCounts>,
    samples: Seq<Sample>,
    pid: u32,
)
    ensures
        rx + received(prev, samples, pid) <= SIGNIFICANDS ==> rx_after(rx, prev, samples, pid) == rx
            + received(prev, samples, pid),
        tx + sent(prev, samples, pid) <= SIGNIFICANDS ==> tx_after(tx, prev, samples, pid) == tx
            + sent(prev, samples, pid),
    decreases samples.len(),
{
    if samples.len() > 0 {
        let earlier = samples.drop_last();
        let s = samples.last();
        totals_are_exact(rx, tx, prev, earlier, pid);
        let from = baseline(prev, earlier, s.srcref);
        if rx + received(prev, samples, pid) <= SIGNIFICANDS && owner(s) == pid {
            small_totals_are_exact(rx + received(prev, earlier, pid), rx_step(from, s));
        }
        if tx + sent(prev, samples, pid) <= SIGNIFICANDS && owner(s) == pid {
            small_totals_are_exact(tx + sent(prev, earlier, pid), tx_step(from, s));
        }
    }
}

/// Whether some sample is about the flow `srcref`.
pub open spec fn reports(samples: Seq<Sample>, srcref: u64) -> bool {
    exists|i: int| 0 <= i < samples.len() && (#[trigger] samples[i]).srcref == srcref
}

/// Each flow is reported once.
pub open spec fn distinct(samples: Seq<Sample>) -> bool {
    forall|i: int, j: int|
        0 <= i < j < samples.len() ==> (#[trigger] samples[i]).srcref != (
        #[trigger] samples[j]).srcref
}

/// Whether some sample is about the flow `srcref` and charged to `pid`.
pub open spec fn has_flow(samples: Seq<Sample>, srcref: u64, pid: u32) -> bool {
    exists|i: int|
        0 <= i < samples.len() && (#[trigger] samples[i]).srcref == srcref && owner(samples[i])
            == pid
}

/// Whether `to` reports every flow of `pid` that `from` reports, and also charges it to `pid`.
pub open spec fn keeps_flows(from: Seq<Sample>, to: Seq<Sample>, pid: u32) -> bool {
    forall|i: int|
        0 <= i < from.len() && owner(#[trigger] from[i]) == pid ==> has_flow(
            to,
            from[i].srcref,
            pid,
        )
}

/// Whether the flows of `pid` are measured against `prev`, and none of their counters goes back.
pub open spec fn advances(prev: Map<u64, PrevCounts>, samples: Seq<Sample>, pid: u32) -> bool {
    forall|i: int|
        0 <= i < samples.len() && owner(#[trigger] samples[i]) == pid ==> {
            &&& prev.contains_key(samples[i].srcref)
            &&& prev[samples[i].srcref].rx_bytes <= samples[i].rx_bytes
            &&& prev[samples[i].srcref].tx_bytes <= samples[i].tx_bytes
        }
}

pub(crate) proof fn lemma_latest_none(samples: Seq<Sample>, srcref: u64)
    ensures
        latest(samples, srcref) is None <==> !reports(samples, srcref),
    decreases samples.len(),
{
    if samples.len() > 0 {
        let earlier = samples.drop_last();
        lemma_latest_none(earlier, srcref);
        if samples.last().srcref == srcref {
            assert(samples[samples.len() - 1].srcref == srcref);
        } else if reports(samples, srcref) {
            let i = choose|i: int|
                0 <= i < samples.len() && (#[trigger] samples[i]).srcref == srcref;
            assert(earlier[i].srcref == srcref);
        } else if reports(earlier, srcref) {
            let i = choose|i: int|
                0 <= i < earlier.len() && (#[trigger] earlier[i]).srcref == srcref;
            assert(samples[i].srcref == srcref);
        }
    }
}

/// Without its last sample, a poll still reports each flow once, and not the last one's.
proof fn lemma_distinct_drop_last(samples: Seq<Sample>)
    requires
        distinct(samples),
        samples.len() > 0,
    ensures
        distinct(samples.drop_last()),
        !reports(samples.drop_last(), samples.last().srcref),
{
    let earlier = samples.drop_last();
    assert forall|i: int, j: int| 0 <= i < j < earlier.len() implies (
    #[trigger] earlier[i]).srcref != (#[trigger] earlier[j]).srcref by {
        assert(earlier[i] == samples[i] && earlier[j] == samples[j]);
    }
    assert forall|i: int| 0 <= i < earlier.len() implies (#[trigger] earlier[i]).srcref
        != samples.last().srcref by {
        assert(samples[i].srcref != samples[samples.len() - 1].srcref);
    }
}

/// Remembered rates stay doubles: a new tracker, each poll and each snapshot see to it. While the
/// clock does not go back, no peak lies in the future either.
pub proof fn states_stay_wf(st: TrackerState, samples: Seq<Sample>, now: nat)
    requires
        st.wf(),
    ensures
        st.recorded(samples).wf(),
        st.snapshotted(now).wf(),
        st.peaks_are_past() ==> st.recorded(samples).peaks_are_past(),
        st.peaks_are_past() && st.last_snapshot <= now ==> st.snapshotted(now).peaks_are_past(),
{
    assert forall|pid: u32| #[trigger] st.snapshotted(now).peaks.contains_key(pid) implies
        st.snapshotted(now).peaks[pid].rate.wf() by {
        if st.is_new_high(now, pid) {
            rates_are_doubles(st.totals[pid].rx, st.totals[pid].tx, st.elapsed(now));
        }
    }
}

/// A flow that is reported for the first time moves nothing yet: there is no baseline to measure
/// it against.
pub proof fn first_sight_counts_nothing(
    prev: Map<u64, PrevCounts>,
    earlier: Seq<Sample>,
    s: Sample,
    total: nat,
    pid: u32,
)
    requires
        baseline(prev, earlier, s.srcref) is None,
    ensures
        rx_after(total, prev, earlier.push(s), pid) == rx_after(total, prev, earlier, pid),
        tx_after(total, prev, earlier.push(s), pid) == tx_after(total, prev, earlier, pid),
{
    assert(earlier.push(s).drop_last() =~= earlier);
}

/// So a poll that reports only new flows counts nothing at all.
pub proof fn first_poll_counts_nothing(
    prev: Map<u64, PrevCounts>,
    samples: Seq<Sample>,
    total: nat,
    pid: u32,
)
    requires
        distinct(samples),
        forall|i: int|
            0 <= i < samples.len() ==> !prev.contains_key((#[trigger] samples[i]).srcref),
    ensures
        rx_after(total, prev, samples, pid) == total,
        tx_after(total, prev, samples, pid) == total,
    decreases samples.len(),
{
    if samples.len() > 0 {
        let earlier = samples.drop_last();
        let s = samples[samples.len() - 1];
        lemma_distinct_drop_last(samples);
        assert forall|i: int| 0 <= i < earlier.len() implies !prev.contains_key(
            (#[trigger] earlier[i]).srcref,
        ) by {
            assert(earlier[i] == samples[i]);
        }
        first_poll_counts_nothing(prev, earlier, total, pid);
        lemma_latest_none(earlier, s.srcref);
        assert(!prev.contains_key(s.srcref));
    }
}

/// A counter that went back is a new source's on an old reference, and counts nothing: it cannot
/// cancel out what other flows of the process have moved.
pub proof fn counters_going_back_count_nothing(
    prev: Map<u64, PrevCounts>,
    earlier: Seq<Sample>,
    s: Sample,
    c: PrevCounts,
    total: nat,
    pid: u32,
)
    requires
        baseline(prev, earlier, s.srcref) == Some(c),
    ensures
        s.rx_bytes <= c.rx_bytes ==> rx_after(total, prev, earlier.push(s), pid) == rx_after(
            total,
            prev,
            earlier,
            pid,
        ),
        s.tx_bytes <= c.tx_bytes ==> tx_after(total, prev, earlier.push(s), pid) == tx_after(
            total,
            prev,
            earlier,
            pid,
        ),
{
    assert(earlier.push(s).drop_last() =~= earlier);
}

/// A flow that the latest poll does not report has no baseline any more, so that a later source on
/// the same reference is never measured against a stale one.
pub proof fn absent_flows_are_forgotten(
    st: TrackerState,
    poll: Seq<Sample>,
    earlier: Seq<Sample>,
    srcref: u64,
)
    requires
        !reports(poll, srcref),
        !reports(earlier, srcref),
    ensures
        !st.recorded(poll).prev.contains_key(srcref),
        baseline(st.recorded(poll).prev, earlier, srcref) is None,
{
    lemma_latest_none(poll, srcref);
    lemma_latest_none(earlier, srcref);
}

/// A flow that the latest poll reports is measured from its counters there.
pub proof fn reported_flows_are_remembered(st: TrackerState, poll: Seq<Sample>, k: int)
    requires
        0 <= k < poll.len(),
        forall|i: int| k < i < poll.len() ==> (#[trigger] poll[i]).srcref != poll[k].srcref,
    ensures
        st.recorded(poll).prev.contains_key(poll[k].srcref),
        st.recorded(poll).prev[poll[k].srcref] == counts(poll[k]),
    decreases poll.len(),
{
    if k < poll.len() - 1 {
        let earlier = poll.drop_last();
        assert(poll[poll.len() - 1].srcref != poll[k].srcref);
        assert(earlier[k] == poll[k]);
        assert forall|i: int| k < i < earlier.len() implies (#[trigger] earlier[i]).srcref
            != earlier[k].srcref by {
            assert(earlier[i] == poll[i]);
        }
        reported_flows_are_remembered(st, earlier, k);
    }
}

proof fn lemma_latest_concat(a: Seq<Sample>, b: Seq<Sample>, srcref: u64)
    ensures
        latest(a + b, srcref) == match latest(b, srcref) {
            Some(c) => Some(c),
            None => latest(a, srcref),
        },
    decreases b.len(),
{
    if b.len() == 0 {
        assert(a + b =~= a);
    } else {
        assert((a + b).drop_last() =~= a + b.drop_last());
        assert((a + b).last() == b.last());
        lemma_latest_concat(a, b.drop_last(), srcref);
    }
}

/// The flows of a process add up: what two parts of a poll that have no flow in common say of it
/// is what they say together.
pub proof fn flows_add_up(
    prev: Map<u64, PrevCounts>,
    a: Seq<Sample>,
    b: Seq<Sample>,
    pid: u32,
)
    requires
        forall|i: int| 0 <= i < b.len() ==> !reports(a, (#[trigger] b[i]).srcref),
    ensures
        received(prev, a + b, pid) == received(prev, a, pid) + received(prev, b, pid),
        sent(prev, a + b, pid) == sent(prev, a, pid) + sent(prev, b, pid),
    decreases b.len(),
{
    if b.len() == 0 {
        assert(a + b =~= a);
    } else {
        let earlier = b.drop_last();
        assert forall|i: int| 0 <= i < earlier.len() implies !reports(
            a,
            (#[trigger] earlier[i]).srcref,
        ) by {
            assert(earlier[i] == b[i]);
        }
        flows_add_up(prev, a, earlier, pid);
        assert((a + b).drop_last() =~= a + earlier);
        assert((a + b).last() == b.last());
        let s = b[b.len() - 1];
        assert(!reports(a, s.srcref));
        lemma_latest_none(a, s.srcref);
        lemma_latest_concat(a, earlier, s.srcref);
    }
}

proof fn lemma_others_do_not_count(prev: Map<u64, PrevCounts>, samples: Seq<Sample>, pid: u32)
    requires
        forall|i: int| 0 <= i < samples.len() ==> owner(#[trigger] samples[i]) != pid,
    ensures
        received(prev, samples, pid) == 0,
        sent(prev, samples, pid) == 0,
    decreases samples.len(),
{
    if samples.len() > 0 {
        let earlier = samples.drop_last();
        assert forall|i: int| 0 <= i < earlier.len() implies owner(#[trigger] earlier[i])
            != pid by {
            assert(earlier[i] == samples[i]);
        }
        lemma_others_do_not_count(prev, earlier, pid);
        assert(owner(samples[samples.len() - 1]) != pid);
    }
}

/// What a flow of `pid` that has a baseline contributes, wherever the poll reports it.
proof fn lemma_take_out(prev: Map<u64, PrevCounts>, samples: Seq<Sample>, k: int, pid: u32)
    requires
        distinct(samples),
        0 <= k < samples.len(),
        owner(samples[k]) == pid,
        prev.contains_key(samples[k].srcref),
    ensures
        distinct(samples.remove(k)),
        received(prev, samples, pid) == received(prev, samples.remove(k), pid) + advance(
            prev[samples[k].srcref].rx_bytes,
            samples[k].rx_bytes,
        ),
        sent(prev, samples, pid) == sent(prev, samples.remove(k), pid) + advance(
            prev[samples[k].srcref].tx_bytes,
            samples[k].tx_bytes,
        ),
    decreases samples.len(),
{
    let rest = samples.remove(k);
    let earlier = samples.drop_last();
    let s = samples[k];
    let last = samples[samples.len() - 1];
    lemma_distinct_drop_last(samples);
    assert forall|i: int, j: int| 0 <= i < j < rest.len() implies (#[trigger] rest[i]).srcref != (
    #[trigger] rest[j]).srcref by {
        let i0 = if i < k {
            i
        } else {
            i + 1
        };
        let j0 = if j < k {
            j
        } else {
            j + 1
        };
        assert(rest[i] == samples[i0] && rest[j] == samples[j0]);
    }
    if k == samples.len() - 1 {
        assert(rest =~= earlier);
        lemma_latest_none(earlier, s.srcref);
    } else {
        assert(earlier[k] == s);
        lemma_take_out(prev, earlier, k, pid);
        assert(rest.drop_last() =~= earlier.remove(k));
        assert(rest.last() == last);
        lemma_distinct_drop_last(rest);
        lemma_latest_none(earlier, last.srcref);
        lemma_latest_none(rest.drop_last(), last.srcref);
    }
}

/// Whether `b` polls the flows of `pid` that `a` has polled, and `mid` holds their counters in `a`.
spec fn goes_on_from(
    prev: Map<u64, PrevCounts>,
    mid: Map<u64, PrevCounts>,
    a: Seq<Sample>,
    b: Seq<Sample>,
    pid: u32,
) -> bool {
    &&& distinct(a)
    &&& distinct(b)
    &&& keeps_flows(a, b, pid)
    &&& keeps_flows(b, a, pid)
    &&& advances(prev, a, pid)
    &&& advances(mid, b, pid)
    &&& forall|i: int|
        0 <= i < a.len() ==> mid.contains_key((#[trigger] a[i]).srcref) && mid[a[i].srcref]
            == counts(a[i])
}

/// The last flow of `b` does not matter where it is not one of `pid`.
proof fn lemma_drop_other(
    prev: Map<u64, PrevCounts>,
    mid: Map<u64, PrevCounts>,
    a: Seq<Sample>,
    b: Seq<Sample>,
    pid: u32,
)
    requires
        goes_on_from(prev, mid, a, b, pid),
        b.len() > 0,
        owner(b.last()) != pid,
    ensures
        goes_on_from(prev, mid, a, b.drop_last(), pid),
{
    let earlier = b.drop_last();
    lemma_distinct_drop_last(b);
    assert forall|i: int| 0 <= i < a.len() && owner(#[trigger] a[i]) == pid implies has_flow(
        earlier,
        a[i].srcref,
        pid,
    ) by {
        let j = choose|j: int|
            0 <= j < b.len() && (#[trigger] b[j]).srcref == a[i].srcref && owner(b[j]) == pid;
        assert(earlier[j] == b[j]);
    }
    assert(keeps_flows(earlier, a, pid)) by {
        assert forall|i: int| 0 <= i < earlier.len() && owner(#[trigger] earlier[i])
            == pid implies has_flow(a, earlier[i].srcref, pid) by {
            assert(earlier[i] == b[i]);
        }
    }
    assert(advances(mid, earlier, pid)) by {
        assert forall|i: int| 0 <= i < earlier.len() && owner(#[trigger] earlier[i])
            == pid implies {
            &&& mid.contains_key(earlier[i].srcref)
            &&& mid[earlier[i].srcref].rx_bytes <= earlier[i].rx_bytes
            &&& mid[earlier[i].srcref].tx_bytes <= earlier[i].tx_bytes
        } by {
            assert(earlier[i] == b[i]);
        }
    }
}

/// The last flow of `b` and its report in `a` can be left out together.
proof fn lemma_drop_pair(
    prev: Map<u64, PrevCounts>,
    mid: Map<u64, PrevCounts>,
    a: Seq<Sample>,
    b: Seq<Sample>,
    k: int,
    pid: u32,
)
    requires
        goes_on_from(prev, mid, a, b, pid),
        b.len() > 0,
        0 <= k < a.len(),
        a[k].srcref == b.last().srcref,
        owner(a[k]) == pid,
    ensures
        goes_on_from(prev, mid, a.remove(k), b.drop_last(), pid),
{
    let earlier = b.drop_last();
    let n = b.len() - 1;
    let rest = a.remove(k);
    lemma_distinct_drop_last(b);
    lemma_take_out(prev, a, k, pid);
    assert forall|i: int| 0 <= i < rest.len() implies mid.contains_key((#[trigger] rest[i]).srcref)
        && mid[rest[i].srcref] == counts(rest[i]) by {
        assert(rest[i] == a[if i < k { i } else { i + 1 }]);
    }
    assert(advances(prev, rest, pid)) by {
        assert forall|i: int| 0 <= i < rest.len() && owner(#[trigger] rest[i]) == pid implies {
            &&& prev.contains_key(rest[i].srcref)
            &&& prev[rest[i].srcref].rx_bytes <= rest[i].rx_bytes
            &&& prev[rest[i].srcref].tx_bytes <= rest[i].tx_bytes
        } by {
            assert(rest[i] == a[if i < k { i } else { i + 1 }]);
        }
    }
    assert(keeps_flows(rest, earlier, pid)) by {
        assert forall|i: int| 0 <= i < rest.len() && owner(#[trigger] rest[i])
            == pid implies has_flow(earlier, rest[i].srcref, pid) by {
            let i0 = if i < k { i } else { i + 1 };
            assert(rest[i] == a[i0]);
            assert(a[i0].srcref != a[k].srcref);
            let j = choose|j: int|
                0 <= j < b.len() && (#[trigger] b[j]).srcref == a[i0].srcref && owner(b[j]) == pid;
            assert(j != n);
            assert(earlier[j] == b[j]);
        }
    }
    assert(keeps_flows(earlier, rest, pid)) by {
        assert forall|i: int| 0 <= i < earlier.len() && owner(#[trigger] earlier[i])
            == pid implies has_flow(rest, earlier[i].srcref, pid) by {
            assert(earlier[i] == b[i]);
            let j = choose|j: int|
                0 <= j < a.len() && (#[trigger] a[j]).srcref == b[i].srcref && owner(a[j]) == pid;
            assert(b[i].srcref != b[n].srcref);
            assert(j != k);
            assert(rest[if j < k { j } else { j - 1 }] == a[j]);
        }
    }
    assert(advances(mid, earlier, pid)) by {
        assert forall|i: int| 0 <= i < earlier.len() && owner(#[trigger] earlier[i])
            == pid implies {
            &&& mid.contains_key(earlier[i].srcref)
            &&& mid[earlier[i].srcref].rx_bytes <= earlier[i].rx_bytes
            &&& mid[earlier[i].srcref].tx_bytes <= earlier[i].tx_bytes
        } by {
            assert(earlier[i] == b[i]);
        }
    }
}

/// A poll in between splits what is counted, and neither adds to it nor takes from it.
proof fn lemma_split_poll(
    prev: Map<u64, PrevCounts>,
    mid: Map<u64, PrevCounts>,
    a: Seq<Sample>,
    b: Seq<Sample>,
    pid: u32,
)
    requires
        goes_on_from(prev, mid, a, b, pid),
    ensures
        received(prev, b, pid) == received(prev, a, pid) + received(mid, b, pid),
        sent(prev, b, pid) == sent(prev, a, pid) + sent(mid, b, pid),
    decreases b.len(),
{
    if b.len() == 0 {
        lemma_others_do_not_count(prev, a, pid);
    } else {
        let earlier = b.drop_last();
        let s = b[b.len() - 1];
        if owner(s) != pid {
            lemma_drop_other(prev, mid, a, b, pid);
            lemma_split_poll(prev, mid, a, earlier, pid);
        } else {
            let k = choose|k: int|
                0 <= k < a.len() && (#[trigger] a[k]).srcref == s.srcref && owner(a[k]) == pid;
            lemma_take_out(prev, a, k, pid);
            lemma_drop_pair(prev, mid, a, b, k, pid);
            lemma_split_poll(prev, mid, a.remove(k), earlier, pid);
            lemma_distinct_drop_last(b);
            lemma_latest_none(earlier, s.srcref);
        }
    }
}

/// The same bytes for a process, whatever its name.
pub open spec fn same_bytes(a: TrackerState, b: TrackerState, pid: u32) -> bool {
    &&& a.totals.contains_key(pid) <==> b.totals.contains_key(pid)
    &&& a.totals.contains_key(pid) ==> a.totals[pid].rx == b.totals[pid].rx && a.totals[pid].tx
        == b.totals[pid].tx
}

proof fn lemma_later_poll(st: TrackerState, a: Seq<Sample>, b: Seq<Sample>, pid: u32)
    requires
        distinct(a),
        distinct(b),
        keeps_flows(a, b, pid),
        keeps_flows(b, a, pid),
        advances(st.prev, a, pid),
        advances(st.recorded(a).prev, b, pid),
    ensures
        ({
            let mid = st.recorded(a).prev;
            &&& received(st.prev, b, pid) == received(st.prev, a, pid) + received(mid, b, pid)
            &&& sent(st.prev, b, pid) == sent(st.prev, a, pid) + sent(mid, b, pid)
        }),
{
    let mid = st.recorded(a).prev;
    assert forall|i: int| 0 <= i < a.len() implies mid.contains_key((#[trigger] a[i]).srcref)
        && mid[a[i].srcref] == counts(a[i]) by {
        reported_flows_are_remembered(st, a, i);
    }
    lemma_split_poll(st.prev, mid, a, b, pid);
}

/// An extra poll in between makes no difference to what a process has moved, as long as its flows
/// stay open: however many they are and in whatever order they are reported, and whatever the
/// other processes do. It holds as far as doubles count whole numbers exactly.
pub proof fn extra_poll_changes_nothing(st: TrackerState, a: Seq<Sample>, b: Seq<Sample>, pid: u32)
    requires
        distinct(a),
        distinct(b),
        keeps_flows(a, b, pid),
        keeps_flows(b, a, pid),
        advances(st.prev, a, pid),
        advances(st.recorded(a).prev, b, pid),
        st.rx(pid) + received(st.prev, b, pid) <= SIGNIFICANDS,
        st.tx(pid) + sent(st.prev, b, pid) <= SIGNIFICANDS,
    ensures
        st.recorded(a).recorded(b).prev == st.recorded(b).prev,
        same_bytes(st.recorded(a).recorded(b), st.recorded(b), pid),
{
    let mid = st.recorded(a).prev;
    lemma_later_poll(st, a, b, pid);
    totals_are_exact(st.rx(pid), st.tx(pid), st.prev, a, pid);
    totals_are_exact(st.rx(pid), st.tx(pid), st.prev, b, pid);
    totals_are_exact(st.recorded(a).rx(pid), st.recorded(a).tx(pid), mid, b, pid);
    lemma_named(a, pid);
    lemma_named(b, pid);
    assert(name_in(a, pid) is Some <==> name_in(b, pid) is Some) by {
        if name_in(a, pid) is Some {
            let i = choose|i: int| 0 <= i < a.len() && owner(#[trigger] a[i]) == pid;
            let j = choose|j: int|
                0 <= j < b.len() && (#[trigger] b[j]).srcref == a[i].srcref && owner(b[j]) == pid;
            assert(owner(b[j]) == pid);
        }
        if name_in(b, pid) is Some {
            let i = choose|i: int| 0 <= i < b.len() && owner(#[trigger] b[i]) == pid;
            let j = choose|j: int|
                0 <= j < a.len() && (#[trigger] a[j]).srcref == b[i].srcref && owner(a[j]) == pid;
            assert(owner(a[j]) == pid);
        }
    }
    assert(st.recorded(a).recorded(b).prev =~= st.recorded(b).prev);
}

proof fn lemma_named(samples: Seq<Sample>, pid: u32)
    ensures
        name_in(samples, pid) is Some <==> exists|i: int|
            0 <= i < samples.len() && owner(#[trigger] samples[i]) == pid,
    decreases samples.len(),
{
    if samples.len() > 0 {
        let earlier = samples.drop_last();
        lemma_named(earlier, pid);
        if name_in(earlier, pid) is Some {
            let i = choose|i: int| 0 <= i < earlier.len() && owner(#[trigger] earlier[i]) == pid;
            assert(owner(samples[i]) == pid);
        } else if owner(samples.last()) == pid {
            assert(owner(samples[samples.len() - 1]) == pid);
        } else {
            assert forall|i: int| 0 <= i < samples.len() implies owner(#[trigger] samples[i])
                != pid by {
                if i < earlier.len() {
                    assert(earlier[i] == samples[i]);
                }
            }
        }
    }
}

/// However often the flows of a process are polled, what it has moved is what the last poll alone
/// would have counted, as far as doubles count whole numbers exactly.
pub proof fn poll_cadence_does_not_matter(st: TrackerState, polls: Seq<Seq<Sample>>, pid: u32)
    requires
        polls.len() > 0,
        forall|i: int| 0 <= i < polls.len() ==> distinct(#[trigger] polls[i]),
        forall|i: int, j: int|
            0 <= i < polls.len() && 0 <= j < polls.len() ==> keeps_flows(
                #[trigger] polls[i],
                #[trigger] polls[j],
                pid,
            ),
        advances(st.prev, polls[0], pid),
        forall|i: int|
            0 < i < polls.len() ==> advances(
                recorded_all(st, polls.take(i)).prev,
                #[trigger] polls[i],
                pid,
            ),
        st.rx(pid) + received(st.prev, polls.last(), pid) <= SIGNIFICANDS,
        st.tx(pid) + sent(st.prev, polls.last(), pid) <= SIGNIFICANDS,
    ensures
        recorded_all(st, polls).prev == st.recorded(polls.last()).prev,
        same_bytes(recorded_all(st, polls), st.recorded(polls.last()), pid),
    decreases polls.len(),
{
    let n = polls.len() - 1;
    let ps = polls.drop_last();
    let last = polls[n];
    if n == 0 {
        assert(recorded_all(st, ps) == st);
    } else {
        assert(ps =~= polls.take(n));
        assert forall|i: int| 0 <= i < ps.len() implies distinct(#[trigger] ps[i]) by {
            assert(ps[i] == polls[i]);
        }
        assert forall|i: int, j: int| 0 <= i < ps.len() && 0 <= j < ps.len() implies keeps_flows(
            #[trigger] ps[i],
            #[trigger] ps[j],
            pid,
        ) by {
            assert(ps[i] == polls[i] && ps[j] == polls[j]);
        }
        assert forall|i: int| 0 < i < ps.len() implies advances(
            recorded_all(st, ps.take(i)).prev,
            #[trigger] ps[i],
            pid,
        ) by {
            assert(ps[i] == polls[i]);
            assert(ps.take(i) =~= polls.take(i));
        }
        assert(ps[0] == polls[0]);
        let a = polls[n - 1];
        assert(ps.last() == a);
        lemma_advances_at(st, polls, n - 1, pid);
        assert(advances(recorded_all(st, polls.take(n)).prev, last, pid));
        assert(recorded_all(st, ps).prev =~= st.recorded(a).prev);
        assert(keeps_flows(a, last, pid) && keeps_flows(last, a, pid));
        lemma_later_poll(st, a, last, pid);
        poll_cadence_does_not_matter(st, ps, pid);
        extra_poll_changes_nothing(st, a, last, pid);
    }
}

/// The counters of the polls only ever go up from where they were before the first.
proof fn lemma_advances_at(st: TrackerState, polls: Seq<Seq<Sample>>, k: int, pid: u32)
    requires
        0 <= k < polls.len(),
        forall|i: int| 0 <= i < polls.len() ==> distinct(#[trigger] polls[i]),
        forall|i: int, j: int|
            0 <= i < polls.len() && 0 <= j < polls.len() ==> keeps_flows(
                #[trigger] polls[i],
                #[trigger] polls[j],
                pid,
            ),
        advances(st.prev, polls[0], pid),
        forall|i: int|
            0 < i < polls.len() ==> advances(
                recorded_all(st, polls.take(i)).prev,
                #[trigger] polls[i],
                pid,
            ),
    ensures
        advances(st.prev, polls[k], pid),
    decreases k,
{
    if k > 0 {
        lemma_advances_at(st, polls, k - 1, pid);
        let a = polls[k - 1];
        let b = polls[k];
        let before = recorded_all(st, polls.take(k - 1));
        assert(polls.take(k).drop_last() =~= polls.take(k - 1));
        assert(polls.take(k).last() == a);
        assert(advances(recorded_all(st, polls.take(k)).prev, b, pid));
        assert(keeps_flows(b, a, pid));
        assert forall|i: int| 0 <= i < b.len() && owner(#[trigger] b[i]) == pid implies {
            &&& st.prev.contains_key(b[i].srcref)
            &&& st.prev[b[i].srcref].rx_bytes <= b[i].rx_bytes
            &&& st.prev[b[i].srcref].tx_bytes <= b[i].tx_bytes
        } by {
            let j = choose|j: int|
                0 <= j < a.len() && (#[trigger] a[j]).srcref == b[i].srcref && owner(a[j]) == pid;
            reported_flows_are_remembered(before, a, j);
        }
    }
}

/// A snapshot takes everything that has accumulated: right after one, no process has a current
/// rate, and only peaks are listed.
pub proof fn snapshot_starts_afresh(st: TrackerState, now: nat, later: nat, pid: u32)
    ensures
        ({
            let next = st.snapshotted(now);
            &&& next.listed(later, pid) ==> st.peaks_at(now).contains_key(pid)
            &&& next.row_at(later, pid).total_rate() == Binary64::zero()
        }),
{
}

/// Two snapshots with no poll between them: the second counts nothing again. It lists those
/// processes of the first whose peaks are still in the window, each with the same peak, older by
/// just the time between.
pub proof fn second_snapshot_only_ages(st: TrackerState, first: nat, second: nat, pid: u32)
    requires
        st.peaks_are_past(),
        st.last_snapshot <= first <= second,
    ensures
        ({
            let next = st.snapshotted(first);
            let before = st.row_at(first, pid);
            let after = next.row_at(second, pid);
            &&& next.listed(second, pid) <==> st.listed(first, pid) && before.peak_age + (second
                - first) <= PEAK_WINDOW
            &&& next.listed(second, pid) ==> {
                &&& after.rx == 0
                &&& after.tx == 0
                &&& after.rx_rate() == Binary64::zero()
                &&& after.tx_rate() == Binary64::zero()
                &&& after.total_rate() == Binary64::zero()
                &&& after.peak_rate == before.peak_rate
                &&& after.peak_age == before.peak_age + (second - first)
            }
        }),
{
}

/// A peak is never below the current rate.
pub proof fn peak_covers_current_rate(st: TrackerState, now: nat, pid: u32)
    requires
        st.listed(now, pid),
    ensures
        st.row_at(now, pid).peak_rate.at_least(st.row_at(now, pid).total_rate()),
{
}

/// A new high becomes the peak at once, and is then no nanosecond old.
pub proof fn new_high_becomes_the_peak(st: TrackerState, now: nat, pid: u32)
    requires
        st.is_new_high(now, pid),
    ensures
        st.row_at(now, pid).peak_rate == st.row_at(now, pid).total_rate(),
        st.row_at(now, pid).peak_age == 0,
{
}

/// A burst stays visible: a peak that is not reached again is shown unchanged, and grows older,
/// until the window closes, whether or not the process still has a flow.
pub proof fn burst_stays_visible(st: TrackerState, now: nat, pid: u32)
    requires
        st.peaks.contains_key(pid),
        !st.is_new_high(now, pid),
        age(now, st.peaks[pid].at) <= PEAK_WINDOW,
    ensures
        st.listed(now, pid),
        st.row_at(now, pid).peak_rate == st.peaks[pid].rate,
        st.row_at(now, pid).peak_age == age(now, st.peaks[pid].at),
        st.snapshotted(now).peaks[pid] == st.peaks[pid],
{
}

/// The same over two snapshots: after the one at `now` has measured a new high and the flow has
/// closed, the one at `later` still shows that rate, as old as it is.
pub proof fn burst_outlives_its_flow(st: TrackerState, now: nat, later: nat, pid: u32)
    requires
        st.is_new_high(now, pid),
        now <= later <= now + PEAK_WINDOW,
    ensures
        ({
            let row = st.snapshotted(now).row_at(later, pid);
            &&& st.snapshotted(now).listed(later, pid)
            &&& row.name == st.totals[pid].name
            &&& row.total_rate() == Binary64::zero()
            &&& row.peak_rate == st.total_rate(now, pid)
            &&& row.peak_age == later - now
        }),
{
}

/// A burst ages out: once the window has closed on its peak, a process without a flow is no longer
/// listed, and its peak is forgotten.
pub proof fn burst_ages_out(st: TrackerState, now: nat, pid: u32)
    requires
        !st.totals.contains_key(pid),
        st.peaks.contains_key(pid) ==> age(now, st.peaks[pid].at) > PEAK_WINDOW,
    ensures
        !st.listed(now, pid),
        !st.snapshotted(now).peaks.contains_key(pid),
{
}

/// Within its window a peak never goes down.
pub proof fn peak_is_a_high_water_mark(st: TrackerState, now: nat, pid: u32)
    requires
        st.has_fresh_peak(now, pid),
    ensures
        st.peaks_at(now).contains_key(pid),
        st.peaks_at(now)[pid].rate.at_least(st.peaks[pid].rate),
{
}

} // verus!
