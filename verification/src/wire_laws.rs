//! What is written is read back: integers, updates, headers, datagrams and requests, by the places
//! where their bytes stand.
use vstd::prelude::*;

use crate::bytes::{
    integers_read_back, u16_at, u16_bytes, u32_at, u32_bytes, u64_at, u64_bytes,
};
use crate::control::{ctl_info_bytes, sockaddr_ctl_bytes, timeval_of};
use crate::message::{
    add_all_srcs_bytes, any_continued, errors_in, frames, get_update_bytes, is_continued, msg_type,
    names_end_at_the_first_nul, raw_sample, sample_of, sample_views, samples_in, utf8_lossy,
    RawSample, Sample, SrcUpdate,
};
use crate::ntstat::{
    connect_run, poll_next, providers, subscribe_next, ConnectAction, ConnectAnswer, ConnectStep,
    Event, PollAction, PollState, PollStep, SocketEvent, SubscribeAction, SubscribeState,
    SubscribeStep,
};
use crate::protocol_laws::joined;

verus! {

/// What is said of an update, of an event and of an action is said of their own fields.
pub proof fn conversations_are_seen_as_they_are(
    u: SrcUpdate<'_>,
    event: SocketEvent<'_>,
    poll: PollAction,
    subscribe: SubscribeAction,
    connect: ConnectAction,
)
    ensures
        u@.srcref == u.srcref,
        u@.pid == u.pid,
        u@.epid == u.epid,
        u@.pname == u.pname@,
        u@.rx_bytes == u.rx_bytes,
        u@.tx_bytes == u.tx_bytes,
        event is Sent <==> event@ is Sent,
        event is SendFailed <==> event@ is SendFailed,
        event is WouldBlock <==> event@ is WouldBlock,
        event is RecvFailed <==> event@ is RecvFailed,
        event matches SocketEvent::Received(d) ==> event@ == Event::Received(d@),
        poll matches PollAction::Send(req) ==> poll@ == PollStep::Send(req@),
        poll matches PollAction::Receive(errors) ==> poll@ == PollStep::Receive(errors@),
        poll matches PollAction::Finish(samples) ==> poll@ == PollStep::Finish(
            sample_views(samples@),
        ),
        poll is Fail <==> poll@ is Fail,
        subscribe matches SubscribeAction::Send(req) ==> subscribe@ == SubscribeStep::Send(req@),
        subscribe is Receive <==> subscribe@ is Receive,
        subscribe is Finish <==> subscribe@ is Finish,
        subscribe is Fail <==> subscribe@ is Fail,
        connect matches ConnectAction::OpenSocket { family, protocol } ==> connect@ == (
        ConnectStep::OpenSocket { family: family as int, protocol: protocol as int }),
        connect matches ConnectAction::QueryControl { request, info } ==> connect@ == (
        ConnectStep::QueryControl { request: request as nat, info: info@ }),
        connect matches ConnectAction::Connect { address } ==> connect@ == (ConnectStep::Connect {
            address: address@,
        }),
        connect matches ConnectAction::SetTimeout { timeout } ==> connect@ == (
        ConnectStep::SetTimeout { timeout }),
        connect matches ConnectAction::Ready { client } ==> connect@ == (ConnectStep::Ready {
            next_context: client.spec_next_context(),
        }),
        connect matches ConnectAction::Fail { call, close } ==> connect@ == (ConnectStep::Fail {
            call: call@,
            close,
        }),
{
}

/// Integers are written with their lowest byte first.
pub proof fn integers_are_written_lowest_byte_first(x: nat)
    ensures
        u16_bytes(x).len() == 2,
        u32_bytes(x).len() == 4,
        u64_bytes(x).len() == 8,
        x < 0x1_0000 ==> x == u16_bytes(x)[0] + 0x100 * u16_bytes(x)[1],
        x < 0x1_0000_0000 ==> x == u32_bytes(x)[0] + 0x100 * u32_bytes(x)[1] + 0x1_0000
            * u32_bytes(x)[2] + 0x100_0000 * u32_bytes(x)[3],
        x < 0x1_0000_0000_0000_0000 ==> x == u64_bytes(x)[0] + 0x100 * u64_bytes(x)[1] + 0x1_0000
            * u64_bytes(x)[2] + 0x100_0000 * u64_bytes(x)[3] + 0x1_0000_0000 * u64_bytes(x)[4]
            + 0x100_0000_0000 * u64_bytes(x)[5] + 0x1_0000_0000_0000 * u64_bytes(x)[6]
            + 0x100_0000_0000_0000 * u64_bytes(x)[7],
{
    integers_read_back(Seq::empty(), x, Seq::empty());
    let none = Seq::<u8>::empty();
    assert(none + u16_bytes(x) + none =~= u16_bytes(x));
    assert(none + u32_bytes(x) + none =~= u32_bytes(x));
    assert(none + u64_bytes(x) + none =~= u64_bytes(x));
}

proof fn lemma_u16(s: Seq<u8>, i: int, x: nat)
    requires
        0 <= i,
        i + 2 <= s.len(),
        s.subrange(i, i + 2) == u16_bytes(x),
        x < 0x1_0000,
    ensures
        u16_at(s, i) == x,
{
    integers_read_back(s.take(i), x, s.skip(i + 2));
    assert(s =~= s.take(i) + s.subrange(i, i + 2) + s.skip(i + 2));
}

proof fn lemma_u32(s: Seq<u8>, i: int, x: nat)
    requires
        0 <= i,
        i + 4 <= s.len(),
        s.subrange(i, i + 4) == u32_bytes(x),
        x < 0x1_0000_0000,
    ensures
        u32_at(s, i) == x,
{
    integers_read_back(s.take(i), x, s.skip(i + 4));
    assert(s =~= s.take(i) + s.subrange(i, i + 4) + s.skip(i + 4));
}

proof fn lemma_u64(s: Seq<u8>, i: int, x: nat)
    requires
        0 <= i,
        i + 8 <= s.len(),
        s.subrange(i, i + 8) == u64_bytes(x),
        x < 0x1_0000_0000_0000_0000,
    ensures
        u64_at(s, i) == x,
{
    integers_read_back(s.take(i), x, s.skip(i + 8));
    assert(s =~= s.take(i) + s.subrange(i, i + 8) + s.skip(i + 8));
}

/// Whether the header of a source update holds these numbers, at the places of its C structure.
pub open spec fn update_holds(
    msg: Seq<u8>,
    provider: u32,
    srcref: u64,
    rx_bytes: u64,
    tx_bytes: u64,
) -> bool {
    &&& msg.len() >= 152
    &&& msg.subrange(16, 24) == u64_bytes(srcref as nat)
    &&& msg.subrange(40, 48) == u64_bytes(rx_bytes as nat)
    &&& msg.subrange(56, 64) == u64_bytes(tx_bytes as nat)
    &&& msg.subrange(144, 148) == u32_bytes(provider as nat)
}

proof fn lemma_update_holds(
    msg: Seq<u8>,
    provider: u32,
    srcref: u64,
    rx_bytes: u64,
    tx_bytes: u64,
)
    requires
        update_holds(msg, provider, srcref, rx_bytes, tx_bytes),
    ensures
        u64_at(msg, 16) == srcref,
        u64_at(msg, 40) == rx_bytes,
        u64_at(msg, 56) == tx_bytes,
        u32_at(msg, 144) == provider,
{
    lemma_u64(msg, 16, srcref as nat);
    lemma_u64(msg, 40, rx_bytes as nat);
    lemma_u64(msg, 56, tx_bytes as nat);
    lemma_u32(msg, 144, provider as nat);
}

/// An update about a TCP source is read back whole, whatever numbers it holds: its reference, both
/// 64-bit counters, both process numbers and the 64 bytes of the name.
pub proof fn tcp_updates_read_back(
    msg: Seq<u8>,
    provider: u32,
    srcref: u64,
    rx_bytes: u64,
    tx_bytes: u64,
    pid: u32,
    epid: u32,
)
    requires
        update_holds(msg, provider, srcref, rx_bytes, tx_bytes),
        provider == 2 || provider == 3,
        msg.len() >= 496,
        msg.subrange(268, 272) == u32_bytes(pid as nat),
        msg.subrange(272, 276) == u32_bytes(epid as nat),
    ensures
        raw_sample(msg) == Some(
            RawSample {
                srcref,
                pid,
                epid,
                pname: msg.subrange(348, 412),
                rx_bytes,
                tx_bytes,
            },
        ),
{
    lemma_update_holds(msg, provider, srcref, rx_bytes, tx_bytes);
    let data = msg.skip(152);
    assert(data.subrange(116, 120) =~= msg.subrange(268, 272));
    assert(data.subrange(120, 124) =~= msg.subrange(272, 276));
    assert(data.subrange(196, 260) =~= msg.subrange(348, 412));
    lemma_u32(data, 116, pid as nat);
    lemma_u32(data, 120, epid as nat);
}

/// The same of an update about a UDP source, whose descriptor has another shape.
pub proof fn udp_updates_read_back(
    msg: Seq<u8>,
    provider: u32,
    srcref: u64,
    rx_bytes: u64,
    tx_bytes: u64,
    pid: u32,
    epid: u32,
)
    requires
        update_holds(msg, provider, srcref, rx_bytes, tx_bytes),
        provider == 4 || provider == 5,
        msg.len() >= 432,
        msg.subrange(280, 284) == u32_bytes(pid as nat),
        msg.subrange(348, 352) == u32_bytes(epid as nat),
    ensures
        raw_sample(msg) == Some(
            RawSample {
                srcref,
                pid,
                epid,
                pname: msg.subrange(284, 348),
                rx_bytes,
                tx_bytes,
            },
        ),
{
    lemma_update_holds(msg, provider, srcref, rx_bytes, tx_bytes);
    let data = msg.skip(152);
    assert(data.subrange(128, 132) =~= msg.subrange(280, 284));
    assert(data.subrange(196, 200) =~= msg.subrange(348, 352));
    assert(data.subrange(132, 196) =~= msg.subrange(284, 348));
    lemma_u32(data, 128, pid as nat);
    lemma_u32(data, 196, epid as nat);
}

/// An update is refused if and only if it is cut short or about neither a TCP nor a UDP source.
pub proof fn updates_are_refused(msg: Seq<u8>, provider: u32)
    requires
        msg.len() >= 152 ==> msg.subrange(144, 148) == u32_bytes(provider as nat),
    ensures
        raw_sample(msg) is None <==> {
            ||| msg.len() < 152
            ||| !(2 <= provider <= 5)
            ||| provider <= 3 && msg.len() < 496
            ||| provider >= 4 && msg.len() < 432
        },
        sample_of(msg) is None <==> raw_sample(msg) is None,
{
    if msg.len() >= 152 {
        lemma_u32(msg, 144, provider as nat);
    }
}

/// A sample says what the update says, under the name that stands in front of the first zero byte of
/// the name field, or fills it.
pub proof fn samples_carry_the_update(msg: Seq<u8>, r: RawSample, name: Seq<u8>, rest: Seq<u8>)
    requires
        raw_sample(msg) == Some(r),
        !name.contains(0),
        r.pname == name || r.pname == name + seq![0u8] + rest,
    ensures
        sample_of(msg) matches Some(s) && {
            &&& s.srcref == r.srcref
            &&& s.pid == r.pid
            &&& s.epid == r.epid
            &&& s.rx_bytes == r.rx_bytes
            &&& s.tx_bytes == r.tx_bytes
            &&& s.pname == utf8_lossy(name)
        },
{
    names_end_at_the_first_nul(name, rest);
}

/// Whether a message starts with a header that holds this type, this length and these flags, at the
/// places of its C structure.
pub open spec fn header_holds(msg: Seq<u8>, kind: u32, length: u16, flags: u16) -> bool {
    &&& msg.len() >= 16
    &&& msg.subrange(8, 12) == u32_bytes(kind as nat)
    &&& msg.subrange(12, 14) == u16_bytes(length as nat)
    &&& msg.subrange(14, 16) == u16_bytes(flags as nat)
}

/// A header's type, length and flags are read back; more fragments are announced by the second bit
/// of the flags, whatever the others are.
pub proof fn headers_read_back(msg: Seq<u8>, kind: u32, length: u16, flags: u16)
    requires
        header_holds(msg, kind, length, flags),
    ensures
        msg_type(msg) == kind,
        u16_at(msg, 12) == length,
        is_continued(msg) <==> flags & 2 != 0,
{
    lemma_u32(msg, 8, kind as nat);
    lemma_u16(msg, 12, length as nat);
    lemma_u16(msg, 14, flags as nat);
    assert((flags & 2 != 0) == (flags / 2 % 2 == 1)) by (bit_vector);
}

/// Whether a message is as long as its header says.
pub open spec fn is_whole(msg: Seq<u8>) -> bool {
    &&& 16 <= msg.len() <= 0xffff
    &&& msg.subrange(12, 14) == u16_bytes(msg.len())
}

/// Messages that are put one behind the other are found again, all of them and nothing else: however
/// many they are and whatever they hold. What follows them is left out where it is too short for a
/// header, or gives a length that is too short for one or longer than what is there.
pub proof fn messages_are_found_again(msgs: Seq<Seq<u8>>, rest: Seq<u8>, length: u16)
    requires
        forall|i: int| 0 <= i < msgs.len() ==> is_whole(#[trigger] msgs[i]),
        rest.len() >= 16 ==> rest.subrange(12, 14) == u16_bytes(length as nat) && (length < 16
            || length > rest.len()),
    ensures
        frames(joined(msgs) + rest) == msgs,
    decreases msgs.len(),
{
    if msgs.len() == 0 {
        assert(joined(msgs) + rest =~= rest);
        if rest.len() >= 16 {
            lemma_u16(rest, 12, length as nat);
        }
        assert(frames(rest) =~= msgs);
    } else {
        let m = msgs[0];
        let more = msgs.drop_first();
        assert forall|i: int| 0 <= i < more.len() implies is_whole(#[trigger] more[i]) by {
            assert(more[i] == msgs[i + 1]);
        }
        messages_are_found_again(more, rest, length);
        let d = joined(msgs) + rest;
        assert(d =~= m + (joined(more) + rest));
        assert(d.subrange(12, 14) =~= m.subrange(12, 14));
        lemma_u16(d, 12, m.len());
        assert(d.take(m.len() as int) =~= m);
        assert(d.skip(m.len() as int) =~= joined(more) + rest);
        assert(frames(d) =~= msgs);
    }
}

/// A message counts for one sample where its type is that of an update and it can be read, and for
/// one error number where its type is that of an error and it has room for one; any other message
/// counts for nothing. It announces more fragments whatever its type.
pub proof fn each_message_counts_by_its_type(msgs: Seq<Seq<u8>>, msg: Seq<u8>, kind: u32, error: u32)
    requires
        msg.len() >= 16,
        msg.subrange(8, 12) == u32_bytes(kind as nat),
        msg.len() >= 20 ==> msg.subrange(16, 20) == u32_bytes(error as nat),
    ensures
        samples_in(msgs.push(msg)) == samples_in(msgs) + match sample_of(msg) {
            Some(s) => if kind == 10006 {
                seq![s]
            } else {
                Seq::<Sample>::empty()
            },
            None => Seq::<Sample>::empty(),
        },
        errors_in(msgs.push(msg)) == errors_in(msgs) + if kind == 1 && msg.len() >= 20 {
            seq![error]
        } else {
            Seq::<u32>::empty()
        },
        any_continued(msgs.push(msg)) <==> any_continued(msgs) || is_continued(msg),
        samples_in(Seq::empty()) == Seq::<Sample>::empty(),
        errors_in(Seq::empty()) == Seq::<u32>::empty(),
        !any_continued(Seq::empty()),
{
    let all = msgs.push(msg);
    lemma_u32(msg, 8, kind as nat);
    if msg.len() >= 20 {
        lemma_u32(msg, 16, error as nat);
    }
    assert(all.drop_last() =~= msgs);
    assert(samples_in(all) =~= samples_in(msgs) + match sample_of(msg) {
        Some(s) => if kind == 10006 {
            seq![s]
        } else {
            Seq::<Sample>::empty()
        },
        None => Seq::<Sample>::empty(),
    });
    assert(errors_in(all) =~= errors_in(msgs) + if kind == 1 && msg.len() >= 20 {
        seq![error]
    } else {
        Seq::<u32>::empty()
    });
    if any_continued(msgs) {
        let i = choose|i: int| 0 <= i < msgs.len() && is_continued(#[trigger] msgs[i]);
        assert(all[i] == msgs[i]);
    }
    if is_continued(msg) {
        assert(all[msgs.len() as int] == msg);
    }
    if any_continued(all) {
        let i = choose|i: int| 0 <= i < all.len() && is_continued(#[trigger] all[i]);
        if i < msgs.len() {
            assert(msgs[i] == all[i]);
        }
    }
}

/// The request to report every source holds its number, its type, its length and the provider; all
/// the rest is zero.
pub proof fn subscription_requests_hold_their_fields(context: u64, provider: u32)
    ensures
        ({
            let req = add_all_srcs_bytes(context, provider);
            &&& req.len() == 56
            &&& req.subrange(0, 8) == u64_bytes(context as nat)
            &&& req.subrange(8, 12) == u32_bytes(1002)
            &&& req.subrange(12, 14) == u16_bytes(56)
            &&& req.subrange(32, 36) == u32_bytes(provider as nat)
            &&& forall|i: int| 14 <= i < 32 || 36 <= i < 56 ==> #[trigger] req[i] == 0
        }),
{
    let req = add_all_srcs_bytes(context, provider);
    assert(req.subrange(0, 8) =~= u64_bytes(context as nat));
    assert(req.subrange(8, 12) =~= u32_bytes(1002));
    assert(req.subrange(12, 14) =~= u16_bytes(56));
    assert(req.subrange(32, 36) =~= u32_bytes(provider as nat));
}

/// The request for an update holds its number, its type, its length and the reference that stands
/// for every source.
pub proof fn poll_requests_hold_their_fields(context: u64)
    ensures
        ({
            let req = get_update_bytes(context);
            &&& req.len() == 24
            &&& req.subrange(0, 8) == u64_bytes(context as nat)
            &&& req.subrange(8, 12) == u32_bytes(1007)
            &&& req.subrange(12, 14) == u16_bytes(24)
            &&& forall|i: int| 14 <= i < 16 ==> #[trigger] req[i] == 0
            &&& forall|i: int| 16 <= i < 24 ==> #[trigger] req[i] == 0xff
        }),
{
    let req = get_update_bytes(context);
    assert(req.subrange(0, 8) =~= u64_bytes(context as nat));
    assert(req.subrange(8, 12) =~= u32_bytes(1007));
    assert(req.subrange(12, 14) =~= u16_bytes(24));
    assert(req.subrange(16, 24) =~= u64_bytes(0xffff_ffff_ffff_ffff));
    assert forall|i: int| 16 <= i < 24 implies #[trigger] req[i] == 0xff by {
        assert(req[i] == req.subrange(16, 24)[i - 16]);
    }
}

/// The address of a control holds its own length, the two families and the identifier; all the rest
/// is zero.
pub proof fn addresses_hold_their_fields(id: u32)
    ensures
        ({
            let addr = sockaddr_ctl_bytes(id);
            &&& addr.len() == 32
            &&& addr[0] == 32
            &&& addr[1] == 32
            &&& addr.subrange(2, 4) == u16_bytes(2)
            &&& addr.subrange(4, 8) == u32_bytes(id as nat)
            &&& forall|i: int| 8 <= i < 32 ==> #[trigger] addr[i] == 0
        }),
{
    let addr = sockaddr_ctl_bytes(id);
    assert(addr.subrange(2, 4) =~= u16_bytes(2));
    assert(addr.subrange(4, 8) =~= u32_bytes(id as nat));
}

/// A control is asked for by its name, behind four bytes for the answer; all the rest is zero.
pub proof fn controls_are_asked_for_by_name()
    ensures
        ({
            let info = ctl_info_bytes();
            let name = "com.apple.network.statistics"@;
            &&& info.len() == 100
            &&& forall|i: int| 0 <= i < 4 || 32 <= i < 100 ==> #[trigger] info[i] == 0
            &&& forall|i: int| 4 <= i < 32 ==> #[trigger] info[i] as int == name[i - 4] as int
        }),
{
    reveal_strlit("com.apple.network.statistics");
}

/// A timeout keeps its length to the microsecond; only what is less than one, but not nothing, is
/// made one.
pub proof fn timeouts_keep_their_length(nanos: nat)
    requires
        nanos <= u64::MAX,
    ensures
        ({
            let t = timeval_of(nanos);
            let micros = t.sec * 1_000_000 + t.usec;
            &&& 0 <= t.usec < 1_000_000
            &&& t.sec >= 0
            &&& nanos == 0 ==> micros == 0
            &&& 0 < nanos < 1000 ==> micros == 1
            &&& nanos >= 1000 ==> 1000 * micros <= nanos < 1000 * (micros + 1)
        }),
{
}

/// Connecting asks for the control by its name, connects to the one that was found and gives every
/// receive fifty milliseconds.
pub proof fn connecting_asks_and_connects(id: u32)
    ensures
        connect_run(Seq::empty()) == (ConnectStep::OpenSocket { family: 32, protocol: 2 }),
        connect_run(seq![ConnectAnswer::Done]) == (ConnectStep::QueryControl {
            request: 0xc064_4e03,
            info: ctl_info_bytes(),
        }),
        connect_run(seq![ConnectAnswer::Done, ConnectAnswer::Control(id)]) == (
        ConnectStep::Connect { address: sockaddr_ctl_bytes(id) }),
        connect_run(
            seq![ConnectAnswer::Done, ConnectAnswer::Control(id), ConnectAnswer::Done],
        ) matches ConnectStep::SetTimeout { timeout } && timeout.sec == 0 && timeout.usec == 50_000,
{
    let a = seq![ConnectAnswer::Done];
    let b = seq![ConnectAnswer::Done, ConnectAnswer::Control(id)];
    let c = seq![ConnectAnswer::Done, ConnectAnswer::Control(id), ConnectAnswer::Done];
    assert(a.drop_last() =~= Seq::empty());
    assert(b.drop_last() =~= a);
    assert(c.drop_last() =~= b);
}

/// A subscription drains whatever comes, gives up when the socket fails, and asks for the four kinds
/// of sources: TCP of the kernel and of user space, and UDP of both.
pub proof fn subscriptions_drain(st: SubscribeState, event: Event)
    ensures
        providers() == seq![2u32, 3, 4, 5],
        event is Sent ==> subscribe_next(st, event) == (st, SubscribeStep::Receive),
        event matches Event::Received(d) ==> d.len() > 0 ==> subscribe_next(st, event) == (
            st,
            SubscribeStep::Receive,
        ),
        event is SendFailed || event is RecvFailed ==> subscribe_next(st, event) == (
            st,
            SubscribeStep::Fail,
        ),
        event is WouldBlock ==> subscribe_next(st, event) == subscribe_next(
            st,
            Event::Received(Seq::empty()),
        ),
        event is WouldBlock && st.position >= 3 ==> subscribe_next(st, event).1 is Finish,
        event is WouldBlock && st.position < 3 ==> subscribe_next(st, event).1 is Send,
{
    assert(providers() =~= seq![2u32, 3, 4, 5]);
}

/// A poll reports every error number of a datagram as it takes it in, gives up when the socket fails,
/// and takes an empty datagram for silence.
pub proof fn polls_report_errors(st: PollState, event: Event)
    ensures
        event is Sent ==> poll_next(st, event) == (st, PollStep::Receive(Seq::empty())),
        event matches Event::Received(d) ==> d.len() > 0 ==> poll_next(st, event).1
            == PollStep::Receive(errors_in(frames(d))),
        event matches Event::Received(d) ==> d.len() > 0 ==> poll_next(st, event).0.samples
            == st.samples + samples_in(frames(d)),
        event is SendFailed || event is RecvFailed ==> poll_next(st, event) == (st, PollStep::Fail),
        event is WouldBlock ==> poll_next(st, event) == poll_next(
            st,
            Event::Received(Seq::empty()),
        ),
        poll_next(st, event).0.context == st.context,
{
}

} // verus!
