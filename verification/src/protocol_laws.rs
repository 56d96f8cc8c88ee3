//! What holds of the protocol over several messages, datagrams and events.
use vstd::prelude::*;

use crate::bytes::{integers_read_back, u16_at, u16_bytes, u32_bytes, u64_bytes};
use crate::layout::{HDR_FLAGS, HDR_LENGTH, HDR_SIZE, UPDATE_SIZE};
use crate::message::{
    add_all_srcs_bytes, any_continued, errors_in, frames, get_update_bytes, hdr_bytes,
    is_continued, msg_type, raw_sample, samples_in, Sample, ADD_ALL_SRCS_SIZE,
    GET_UPDATE_SIZE, MSG_TYPE_ADD_ALL_SRCS, MSG_TYPE_GET_UPDATE,
};
use crate::ntstat::{
    poll_next, providers, subscribe_next, Event, PollState, PollStep, SubscribeState,
    SubscribeStep,
};

verus! {

/// Messages, one behind the other.
pub open spec fn joined(msgs: Seq<Seq<u8>>) -> Seq<u8>
    decreases msgs.len(),
{
    if msgs.len() == 0 {
        Seq::empty()
    } else {
        msgs[0] + joined(msgs.drop_first())
    }
}

/// Each message is as long as its own header says, and together they are the datagram up to where
/// it stops making sense.
pub proof fn frames_follow_their_own_lengths(d: Seq<u8>)
    ensures
        forall|i: int|
            0 <= i < frames(d).len() ==> {
                &&& (#[trigger] frames(d)[i]).len() >= HDR_SIZE
                &&& u16_at(frames(d)[i], HDR_LENGTH as int) == frames(d)[i].len()
            },
        joined(frames(d)).len() <= d.len(),
        joined(frames(d)) == d.take(joined(frames(d)).len() as int),
    decreases d.len(),
{
    if d.len() >= HDR_SIZE {
        let n = u16_at(d, HDR_LENGTH as int) as int;
        if HDR_SIZE <= n <= d.len() {
            let rest = d.skip(n);
            frames_follow_their_own_lengths(rest);
            assert(frames(d).drop_first() =~= frames(rest));
            assert(frames(d)[0] == d.take(n));
            assert forall|i: int| 0 <= i < frames(d).len() implies {
                &&& (#[trigger] frames(d)[i]).len() >= HDR_SIZE
                &&& u16_at(frames(d)[i], HDR_LENGTH as int) == frames(d)[i].len()
            } by {
                if i > 0 {
                    assert(frames(d)[i] == frames(rest)[i - 1]);
                }
            }
            assert(joined(frames(d)) =~= d.take(joined(frames(d)).len() as int));
        } else {
            assert(joined(frames(d)) =~= d.take(0));
        }
    } else {
        assert(joined(frames(d)) =~= d.take(0));
    }
}

proof fn lemma_frames_concat(a: Seq<u8>, b: Seq<u8>)
    requires
        joined(frames(a)) == a,
    ensures
        frames(a + b) == frames(a) + frames(b),
    decreases a.len(),
{
    if a.len() == 0 {
        assert(a + b =~= b);
        assert(frames(a) + frames(b) =~= frames(b));
    } else {
        assert(frames(a).len() > 0);
        let n = u16_at(a, HDR_LENGTH as int) as int;
        let rest = a.skip(n);
        assert(frames(a).drop_first() =~= frames(rest));
        assert(joined(frames(rest)) =~= rest) by {
            assert(a == a.take(n) + joined(frames(rest)));
        }
        lemma_frames_concat(rest, b);
        assert((a + b).take(n) =~= a.take(n));
        assert((a + b).skip(n) =~= rest + b);
        assert(u16_at(a + b, HDR_LENGTH as int) == n);
        assert(frames(a + b) =~= frames(a) + frames(b));
    }
}

proof fn lemma_contents_concat(x: Seq<Seq<u8>>, y: Seq<Seq<u8>>)
    ensures
        samples_in(x + y) == samples_in(x) + samples_in(y),
        errors_in(x + y) == errors_in(x) + errors_in(y),
        any_continued(x + y) == (any_continued(x) || any_continued(y)),
    decreases y.len(),
{
    if y.len() == 0 {
        assert(x + y =~= x);
        assert(samples_in(x) + samples_in(y) =~= samples_in(x));
        assert(errors_in(x) + errors_in(y) =~= errors_in(x));
    } else {
        lemma_contents_concat(x, y.drop_last());
        assert((x + y).drop_last() =~= x + y.drop_last());
        assert((x + y).last() == y.last());
        assert(samples_in(x + y) =~= samples_in(x) + samples_in(y));
        assert(errors_in(x + y) =~= errors_in(x) + errors_in(y));
        if any_continued(x) {
            let i = choose|i: int| 0 <= i < x.len() && is_continued(#[trigger] x[i]);
            assert((x + y)[i] == x[i]);
        }
        if any_continued(y) {
            let i = choose|i: int| 0 <= i < y.len() && is_continued(#[trigger] y[i]);
            assert((x + y)[x.len() + i] == y[i]);
        }
        if any_continued(x + y) {
            let i = choose|i: int| 0 <= i < (x + y).len() && is_continued(#[trigger] (x + y)[i]);
            if i < x.len() {
                assert(x[i] == (x + y)[i]);
            } else {
                assert(y[i - x.len()] == (x + y)[i]);
            }
        }
    }
}

/// It makes no difference whether messages come in one datagram or in two.
pub proof fn aggregation_is_transparent(a: Seq<u8>, b: Seq<u8>)
    requires
        joined(frames(a)) == a,
    ensures
        samples_in(frames(a + b)) == samples_in(frames(a)) + samples_in(frames(b)),
        errors_in(frames(a + b)) == errors_in(frames(a)) + errors_in(frames(b)),
        any_continued(frames(a + b)) == (any_continued(frames(a)) || any_continued(frames(b))),
{
    lemma_frames_concat(a, b);
    lemma_contents_concat(frames(a), frames(b));
}

/// Fields that a later system adds behind a descriptor change nothing.
pub proof fn descriptors_may_grow(msg: Seq<u8>, more: Seq<u8>)
    requires
        raw_sample(msg) is Some,
    ensures
        raw_sample(msg + more) == raw_sample(msg),
{
    let n = UPDATE_SIZE as int;
    let data = msg.skip(n);
    assert((msg + more).skip(n) =~= data + more);
    assert(forall|i: int, j: int|
        0 <= i <= j <= data.len() ==> #[trigger] (data + more).subrange(i, j) =~= data.subrange(
            i,
            j,
        ));
}

proof fn lemma_hdr_reads_back(context: u64, kind: u32, length: u16, body: Seq<u8>)
    ensures
        ({
            let msg = hdr_bytes(context, kind, length) + body;
            &&& msg.len() == HDR_SIZE + body.len()
            &&& msg_type(msg) == kind
            &&& u16_at(msg, HDR_LENGTH as int) == length
            &&& u16_at(msg, HDR_FLAGS as int) == 0
        }),
{
    let c = u64_bytes(context as nat);
    let k = u32_bytes(kind as nat);
    let l = u16_bytes(length as nat);
    let f = u16_bytes(0);
    let msg = hdr_bytes(context, kind, length) + body;
    integers_read_back(c, kind as nat, l + f + body);
    assert(msg =~= c + k + (l + f + body));
    integers_read_back(c + k, length as nat, f + body);
    assert(msg =~= c + k + l + (f + body));
    integers_read_back(c + k + l, 0, body);
    assert(msg =~= c + k + l + f + body);
}

/// A request is one message: its header gives its type and its true length.
pub proof fn requests_are_well_framed(context: u64, provider: u32)
    ensures
        frames(get_update_bytes(context)) == seq![get_update_bytes(context)],
        msg_type(get_update_bytes(context)) == MSG_TYPE_GET_UPDATE,
        frames(add_all_srcs_bytes(context, provider)) == seq![add_all_srcs_bytes(context, provider)],
        msg_type(add_all_srcs_bytes(context, provider)) == MSG_TYPE_ADD_ALL_SRCS,
{
    let get = get_update_bytes(context);
    let body = get.skip(HDR_SIZE as int);
    assert(get =~= hdr_bytes(context, MSG_TYPE_GET_UPDATE, GET_UPDATE_SIZE) + body);
    lemma_hdr_reads_back(context, MSG_TYPE_GET_UPDATE, GET_UPDATE_SIZE, body);
    assert(get.len() == GET_UPDATE_SIZE);
    assert(get.take(GET_UPDATE_SIZE as int) =~= get);
    assert(frames(get.skip(GET_UPDATE_SIZE as int)) =~= Seq::empty());
    assert(frames(get) =~= seq![get]);

    let req = add_all_srcs_bytes(context, provider);
    let body = req.skip(HDR_SIZE as int);
    assert(req =~= hdr_bytes(context, MSG_TYPE_ADD_ALL_SRCS, ADD_ALL_SRCS_SIZE) + body);
    lemma_hdr_reads_back(context, MSG_TYPE_ADD_ALL_SRCS, ADD_ALL_SRCS_SIZE, body);
    assert(req.len() == ADD_ALL_SRCS_SIZE);
    assert(req.take(ADD_ALL_SRCS_SIZE as int) =~= req);
    assert(frames(req.skip(ADD_ALL_SRCS_SIZE as int)) =~= Seq::empty());
    assert(frames(req) =~= seq![req]);
}

/// The state of a poll after some events.
pub open spec fn poll_run(st: PollState, events: Seq<Event>) -> PollState
    decreases events.len(),
{
    if events.len() == 0 {
        st
    } else {
        poll_next(poll_run(st, events.drop_last()), events.last()).0
    }
}

/// The samples in the datagrams among some events.
pub open spec fn received_samples(events: Seq<Event>) -> Seq<Sample>
    decreases events.len(),
{
    if events.len() == 0 {
        Seq::empty()
    } else {
        let earlier = received_samples(events.drop_last());
        match events.last() {
            Event::Received(d) => earlier + samples_in(frames(d)),
            _ => earlier,
        }
    }
}

/// Whether some datagram among the events announces more fragments.
pub open spec fn announced(events: Seq<Event>) -> bool {
    exists|i: int|
        0 <= i < events.len() && (#[trigger] events[i] matches Event::Received(d) && any_continued(
            frames(d),
        ))
}

/// Whether the poll goes on through all of the events.
pub open spec fn goes_on(st: PollState, events: Seq<Event>) -> bool
    decreases events.len(),
{
    events.len() == 0 || {
        let step = poll_next(poll_run(st, events.drop_last()), events.last()).1;
        &&& goes_on(st, events.drop_last())
        &&& !(step is Finish)
        &&& !(step is Fail)
    }
}

/// A poll loses nothing, adds nothing and keeps the order: however many datagrams and rounds it
/// takes, it holds the samples of all of them, one behind the other; and it repeats its request
/// under the same number.
pub proof fn poll_collects_everything(st: PollState, events: Seq<Event>)
    requires
        goes_on(st, events),
    ensures
        poll_run(st, events).samples == st.samples + received_samples(events),
        poll_run(st, events).context == st.context,
    decreases events.len(),
{
    if events.len() == 0 {
        assert(st.samples + Seq::<Sample>::empty() =~= st.samples);
    } else {
        let earlier = events.drop_last();
        poll_collects_everything(st, earlier);
        match events.last() {
            Event::Received(d) => {
                if d.len() == 0 {
                    assert(frames(d) =~= Seq::empty());
                    assert(samples_in(frames(d)) =~= Seq::empty());
                }
                assert(st.samples + received_samples(events) =~= (st.samples + received_samples(
                    earlier,
                )) + samples_in(frames(d)));
            },
            _ => {},
        }
    }
}

/// So what a poll hands over at its end is what it has received since its start.
pub proof fn poll_hands_over_everything(context: u64, events: Seq<Event>, end: Event)
    requires
        ({
            let start = PollState { context, samples: Seq::empty(), want_more: false };
            &&& goes_on(start, events)
            &&& poll_next(poll_run(start, events), end).1 is Finish
        }),
    ensures
        ({
            let start = PollState { context, samples: Seq::empty(), want_more: false };
            poll_next(poll_run(start, events), end).1 == PollStep::Finish(received_samples(events))
        }),
{
    let start = PollState { context, samples: Seq::empty(), want_more: false };
    poll_collects_everything(start, events);
    assert(start.samples + received_samples(events) =~= received_samples(events));
}

/// When the kernel falls silent, a poll asks again if and only if more fragments were announced
/// since its last request; otherwise it is over, with everything that it has received.
pub proof fn poll_round_ends(st: PollState, round: Seq<Event>, end: Event)
    requires
        !st.want_more,
        forall|i: int|
            0 <= i < round.len() ==> !(#[trigger] round[i]).is_quiet() && !round[i].is_failure(),
        end.is_quiet(),
    ensures
        poll_next(poll_run(st, round), end).1 == if announced(round) {
            PollStep::Send(get_update_bytes(st.context))
        } else {
            PollStep::Finish(st.samples + received_samples(round))
        },
        !poll_next(poll_run(st, round), end).0.want_more,
{
    lemma_round(st, round);
    poll_collects_everything(st, round);
}

proof fn lemma_round(st: PollState, round: Seq<Event>)
    requires
        !st.want_more,
        forall|i: int|
            0 <= i < round.len() ==> !(#[trigger] round[i]).is_quiet() && !round[i].is_failure(),
    ensures
        goes_on(st, round),
        poll_run(st, round).want_more == announced(round),
    decreases round.len(),
{
    if round.len() > 0 {
        let earlier = round.drop_last();
        let e = round[round.len() - 1];
        assert(!e.is_quiet() && !e.is_failure());
        assert forall|i: int| 0 <= i < earlier.len() implies !(#[trigger] earlier[i]).is_quiet()
            && !earlier[i].is_failure() by {
            assert(earlier[i] == round[i]);
        }
        lemma_round(st, earlier);
        if announced(earlier) {
            let i = choose|i: int|
                0 <= i < earlier.len() && (#[trigger] earlier[i] matches Event::Received(d)
                    && any_continued(frames(d)));
            assert(round[i] == earlier[i]);
        }
        if announced(round) {
            let i = choose|i: int|
                0 <= i < round.len() && (#[trigger] round[i] matches Event::Received(d)
                    && any_continued(frames(d)));
            if i < earlier.len() {
                assert(earlier[i] == round[i]);
            }
        }
    }
}

/// The state of a subscription after some events.
pub open spec fn subscribe_run(st: SubscribeState, events: Seq<Event>) -> SubscribeState
    decreases events.len(),
{
    if events.len() == 0 {
        st
    } else {
        subscribe_next(subscribe_run(st, events.drop_last()), events.last()).0
    }
}

/// How often the kernel fell silent.
pub open spec fn silences(events: Seq<Event>) -> nat
    decreases events.len(),
{
    if events.len() == 0 {
        0
    } else {
        silences(events.drop_last()) + if events.last().is_quiet() {
            1nat
        } else {
            0
        }
    }
}

/// A subscription asks for each provider once, in order, under consecutive numbers: at each silence
/// of the kernel for the next one, until all have been asked for.
pub proof fn subscription_asks_each_provider_once(context: nat, events: Seq<Event>, end: Event)
    requires
        forall|i: int| 0 <= i < events.len() ==> !(#[trigger] events[i]).is_failure(),
        silences(events) < providers().len(),
        end.is_quiet(),
    ensures
        ({
            let start = SubscribeState { position: 0, next_context: context };
            let st = subscribe_run(start, events);
            let k = silences(events);
            &&& st == (SubscribeState { position: k, next_context: context + k })
            &&& subscribe_next(st, end).1 == if k + 1 < providers().len() {
                SubscribeStep::Send(
                    add_all_srcs_bytes((context + k) as u64, providers()[k as int + 1]),
                )
            } else {
                SubscribeStep::Finish
            }
        }),
    decreases events.len(),
{
    if events.len() > 0 {
        let earlier = events.drop_last();
        assert forall|i: int| 0 <= i < earlier.len() implies !(
        #[trigger] earlier[i]).is_failure() by {
            assert(earlier[i] == events[i]);
        }
        assert(!events[events.len() - 1].is_failure());
        subscription_asks_each_provider_once(context, earlier, end);
    }
}

} // verus!
