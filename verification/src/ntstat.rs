//! The client side of the `com.apple.network.statistics` kernel control: opening it, subscribing to
//! the TCP and UDP sources, and polling them.
//!
//! Nothing here touches the socket. Each conversation is a machine that is told what happened on
//! the socket and answers what to do next.
use vstd::prelude::*;

use crate::control::{
    ctl_info, ctl_info_bytes, ctliocginfo, sockaddr_ctl, sockaddr_ctl_bytes, timeval, timeval_of,
    TimeVal, PF_SYSTEM, SYSPROTO_CONTROL,
};
use crate::message::{
    add_all_srcs_bytes, add_all_srcs_request, any_continued, errors_in, frames, get_update_bytes,
    get_update_request, names_are_told, names_without_nul, read_datagram, sample_views, samples_in,
    Sample, PROVIDER_TCP_KERNEL, PROVIDER_TCP_USERLAND, PROVIDER_UDP_KERNEL, PROVIDER_UDP_USERLAND,
};

pub use crate::message::SourceSample;

verus! {

/// How long a receive waits outside of boost mode, in nanoseconds. It is also the least time that a
/// poll takes, since the last receive of a poll always runs out the clock.
pub const DEFAULT_RECV_TIMEOUT: u64 = 50_000_000;

/// What to do next to connect.
pub enum ConnectAction {
    /// Open a datagram socket.
    OpenSocket { family: i32, protocol: i32 },
    /// Make the `ioctl` request with this parameter, which the system fills in.
    QueryControl { request: u64, info: Vec<u8> },
    /// Connect the socket.
    Connect { address: Vec<u8> },
    /// Set the receive timeout.
    SetTimeout { timeout: TimeVal },
    /// The client is ready to be used.
    Ready { client: NtstatClient },
    /// Give up: `call` has failed. Where `close` is set, close the socket.
    Fail { call: &'static str, close: bool },
}

/// What a [`ConnectAction`] says.
pub enum ConnectStep {
    OpenSocket { family: int, protocol: int },
    QueryControl { request: nat, info: Seq<u8> },
    Connect { address: Seq<u8> },
    SetTimeout { timeout: TimeVal },
    Ready { next_context: nat },
    Fail { call: Seq<char>, close: bool },
}

impl View for ConnectAction {
    type V = ConnectStep;

    open spec fn view(&self) -> ConnectStep {
        match self {
            ConnectAction::OpenSocket { family, protocol } => ConnectStep::OpenSocket {
                family: *family as int,
                protocol: *protocol as int,
            },
            ConnectAction::QueryControl { request, info } => ConnectStep::QueryControl {
                request: *request as nat,
                info: info@,
            },
            ConnectAction::Connect { address } => ConnectStep::Connect { address: address@ },
            ConnectAction::SetTimeout { timeout } => ConnectStep::SetTimeout { timeout: *timeout },
            ConnectAction::Ready { client } => ConnectStep::Ready {
                next_context: client.spec_next_context(),
            },
            ConnectAction::Fail { call, close } => ConnectStep::Fail { call: call@, close: *close },
        }
    }
}

/// What the system answered to a [`ConnectAction`].
#[derive(Debug, Clone, Copy)]
pub enum ConnectAnswer {
    Done,
    /// The control's identifier, in answer to [`ConnectAction::QueryControl`].
    Control(u32),
    Failed,
}

/// The first thing to do to connect.
pub open spec fn connect_start() -> ConnectStep {
    ConnectStep::OpenSocket { family: PF_SYSTEM as int, protocol: SYSPROTO_CONTROL as int }
}

/// What to do once the system has answered to `last`. Whatever fails ends it, and closes the socket
/// if there is one; asking for the control fails unless its identifier comes back. The two ends are
/// left as they are.
pub open spec fn connect_next(last: ConnectStep, answer: ConnectAnswer) -> ConnectStep {
    match last {
        ConnectStep::OpenSocket { .. } => if answer is Failed {
            ConnectStep::Fail {
                call: "socket(PF_SYSTEM, SOCK_DGRAM, SYSPROTO_CONTROL)"@,
                close: false,
            }
        } else {
            ConnectStep::QueryControl { request: 0xc064_4e03, info: ctl_info_bytes() }
        },
        ConnectStep::QueryControl { .. } => match answer {
            ConnectAnswer::Control(id) => ConnectStep::Connect { address: sockaddr_ctl_bytes(id) },
            _ => ConnectStep::Fail { call: "ioctl(CTLIOCGINFO)"@, close: true },
        },
        ConnectStep::Connect { .. } => if answer is Failed {
            ConnectStep::Fail {
                call: "connect(AF_SYSTEM/com.apple.network.statistics)"@,
                close: true,
            }
        } else {
            ConnectStep::SetTimeout { timeout: timeval_of(DEFAULT_RECV_TIMEOUT as nat) }
        },
        ConnectStep::SetTimeout { .. } => if answer is Failed {
            ConnectStep::Fail { call: "setsockopt(SO_RCVTIMEO)"@, close: true }
        } else {
            ConnectStep::Ready { next_context: 1 }
        },
        _ => last,
    }
}

/// Where connecting has come to after some answers.
pub open spec fn connect_run(answers: Seq<ConnectAnswer>) -> ConnectStep
    decreases answers.len(),
{
    if answers.len() == 0 {
        connect_start()
    } else {
        connect_next(connect_run(answers.drop_last()), answers.last())
    }
}

/// Whether answer `i` of a run lets it go on: the second must bring the control's identifier.
pub open spec fn lets_go_on(answers: Seq<ConnectAnswer>, i: int) -> bool {
    if i == 1 {
        answers[i] is Control
    } else {
        !(answers[i] is Failed)
    }
}

/// A client comes into being if and only if all four calls succeed, in their order: socket, ioctl,
/// connect and setsockopt. The first that does not ends the run with an error that names it; and a
/// socket that was opened is then closed again.
pub proof fn connect_is_all_or_nothing(answers: Seq<ConnectAnswer>)
    ensures
        connect_run(answers) is Ready <==> answers.len() >= 4 && forall|i: int|
            0 <= i < 4 ==> #[trigger] lets_go_on(answers, i),
        connect_run(answers) is Fail <==> exists|i: int|
            0 <= i < 4 && i < answers.len() && !#[trigger] lets_go_on(answers, i),
        connect_run(answers) matches ConnectStep::Fail { call, close } ==> {
            &&& close == lets_go_on(answers, 0)
            &&& !lets_go_on(answers, 0) ==> call
                == "socket(PF_SYSTEM, SOCK_DGRAM, SYSPROTO_CONTROL)"@
            &&& lets_go_on(answers, 0) && !lets_go_on(answers, 1) ==> call
                == "ioctl(CTLIOCGINFO)"@
            &&& lets_go_on(answers, 0) && lets_go_on(answers, 1) && !lets_go_on(answers, 2) ==> call
                == "connect(AF_SYSTEM/com.apple.network.statistics)"@
            &&& lets_go_on(answers, 0) && lets_go_on(answers, 1) && lets_go_on(answers, 2) ==> call
                == "setsockopt(SO_RCVTIMEO)"@
        },
        connect_run(answers) matches ConnectStep::Connect { address } ==> {
            &&& answers[1] is Control
            &&& address == sockaddr_ctl_bytes(answers[1]->0)
        },
        connect_run(answers) matches ConnectStep::Ready { next_context } ==> next_context == 1,
{
    let n = answers.len() as int;
    lemma_connect_run(answers);
    assert(n > 0 ==> lets_go_on(answers, 0) || !lets_go_on(answers, 0));
    assert(n > 1 ==> lets_go_on(answers, 1) || !lets_go_on(answers, 1));
    assert(n > 2 ==> lets_go_on(answers, 2) || !lets_go_on(answers, 2));
    assert(n > 3 ==> lets_go_on(answers, 3) || !lets_go_on(answers, 3));
}

/// Where a run stands, by the first answer that does not let it go on.
spec fn connect_stands(answers: Seq<ConnectAnswer>) -> ConnectStep {
    let n = answers.len();
    if n >= 1 && !lets_go_on(answers, 0) {
        ConnectStep::Fail {
            call: "socket(PF_SYSTEM, SOCK_DGRAM, SYSPROTO_CONTROL)"@,
            close: false,
        }
    } else if n >= 2 && !lets_go_on(answers, 1) {
        ConnectStep::Fail { call: "ioctl(CTLIOCGINFO)"@, close: true }
    } else if n >= 3 && !lets_go_on(answers, 2) {
        ConnectStep::Fail {
            call: "connect(AF_SYSTEM/com.apple.network.statistics)"@,
            close: true,
        }
    } else if n >= 4 && !lets_go_on(answers, 3) {
        ConnectStep::Fail { call: "setsockopt(SO_RCVTIMEO)"@, close: true }
    } else if n == 0 {
        connect_start()
    } else if n == 1 {
        ConnectStep::QueryControl { request: 0xc064_4e03, info: ctl_info_bytes() }
    } else if n == 2 {
        ConnectStep::Connect { address: sockaddr_ctl_bytes(answers[1]->0) }
    } else if n == 3 {
        ConnectStep::SetTimeout { timeout: timeval_of(DEFAULT_RECV_TIMEOUT as nat) }
    } else {
        ConnectStep::Ready { next_context: 1 }
    }
}

proof fn lemma_connect_run(answers: Seq<ConnectAnswer>)
    ensures
        connect_run(answers) == connect_stands(answers),
    decreases answers.len(),
{
    if answers.len() > 0 {
        let earlier = answers.drop_last();
        lemma_connect_run(earlier);
        assert(forall|i: int| 0 <= i < earlier.len() ==> earlier[i] == answers[i]);
        assert(answers.last() == answers[answers.len() - 1]);
    }
}

impl ConnectAction {
    /// What to do once the system has answered to this action.
    pub fn step(self, answer: ConnectAnswer) -> (next: ConnectAction)
        ensures
            next@ == connect_next(self@, answer),
    {
        let failed: bool = match answer {
            ConnectAnswer::Failed => true,
            _ => false,
        };
        match self {
            ConnectAction::OpenSocket { .. } => if failed {
                ConnectAction::Fail {
                    call: "socket(PF_SYSTEM, SOCK_DGRAM, SYSPROTO_CONTROL)",
                    close: false,
                }
            } else {
                ConnectAction::QueryControl { request: ctliocginfo(), info: ctl_info() }
            },
            ConnectAction::QueryControl { .. } => match answer {
                ConnectAnswer::Control(id) => ConnectAction::Connect { address: sockaddr_ctl(id) },
                _ => ConnectAction::Fail { call: "ioctl(CTLIOCGINFO)", close: true },
            },
            ConnectAction::Connect { .. } => if failed {
                ConnectAction::Fail {
                    call: "connect(AF_SYSTEM/com.apple.network.statistics)",
                    close: true,
                }
            } else {
                ConnectAction::SetTimeout { timeout: timeval(DEFAULT_RECV_TIMEOUT) }
            },
            ConnectAction::SetTimeout { .. } => if failed {
                ConnectAction::Fail { call: "setsockopt(SO_RCVTIMEO)", close: true }
            } else {
                ConnectAction::Ready { client: NtstatClient { next_context: 1 } }
            },
            ConnectAction::Ready { client } => ConnectAction::Ready { client },
            ConnectAction::Fail { call, close } => ConnectAction::Fail { call, close },
        }
    }
}

/// What happened on the socket.
pub enum SocketEvent<'a> {
    Sent,
    SendFailed,
    /// A datagram was received.
    Received(&'a [u8]),
    /// Nothing came before the timeout.
    WouldBlock,
    RecvFailed,
}

/// What a [`SocketEvent`] says.
pub enum Event {
    Sent,
    SendFailed,
    Received(Seq<u8>),
    WouldBlock,
    RecvFailed,
}

impl<'a> View for SocketEvent<'a> {
    type V = Event;

    open spec fn view(&self) -> Event {
        match self {
            SocketEvent::Sent => Event::Sent,
            SocketEvent::SendFailed => Event::SendFailed,
            SocketEvent::Received(d) => Event::Received(d@),
            SocketEvent::WouldBlock => Event::WouldBlock,
            SocketEvent::RecvFailed => Event::RecvFailed,
        }
    }
}

impl Event {
    /// The kernel has nothing more to say for now.
    pub open spec fn is_quiet(self) -> bool {
        ||| self is WouldBlock
        ||| self matches Event::Received(d) && d.len() == 0
    }

    pub open spec fn is_failure(self) -> bool {
        self is SendFailed || self is RecvFailed
    }
}

/// The providers that are subscribed to, in order.
pub open spec fn providers() -> Seq<u32> {
    seq![
        PROVIDER_TCP_KERNEL,
        PROVIDER_TCP_USERLAND,
        PROVIDER_UDP_KERNEL,
        PROVIDER_UDP_USERLAND,
    ]
}

/// What to do next to subscribe.
pub enum SubscribeAction {
    Send(Vec<u8>),
    Receive,
    Finish,
    Fail,
}

/// What a [`SubscribeAction`] says.
pub enum SubscribeStep {
    Send(Seq<u8>),
    Receive,
    Finish,
    Fail,
}

impl View for SubscribeAction {
    type V = SubscribeStep;

    open spec fn view(&self) -> SubscribeStep {
        match self {
            SubscribeAction::Send(req) => SubscribeStep::Send(req@),
            SubscribeAction::Receive => SubscribeStep::Receive,
            SubscribeAction::Finish => SubscribeStep::Finish,
            SubscribeAction::Fail => SubscribeStep::Fail,
        }
    }
}

/// The state of a subscription: which provider it has come to, and the number of the next request.
pub struct SubscribeState {
    pub position: nat,
    pub next_context: nat,
}

/// What a subscription does when `event` happens. Whatever the kernel answers to a request is
/// drained and discarded; when it falls silent, the next provider's turn comes.
pub open spec fn subscribe_next(st: SubscribeState, event: Event) -> (
    SubscribeState,
    SubscribeStep,
) {
    if event.is_failure() {
        (st, SubscribeStep::Fail)
    } else if !event.is_quiet() {
        (st, SubscribeStep::Receive)
    } else if st.position + 1 < providers().len() {
        (
            SubscribeState { position: st.position + 1, next_context: st.next_context + 1 },
            SubscribeStep::Send(
                add_all_srcs_bytes(st.next_context as u64, providers()[st.position as int + 1]),
            ),
        )
    } else {
        (st, SubscribeStep::Finish)
    }
}

/// A subscription under way.
pub struct Subscription {
    position: usize,
}

impl Subscription {
    #[verifier::type_invariant]
    spec fn inv(self) -> bool {
        self.position < 4
    }

    /// Which of [`providers`] has been asked for.
    pub closed spec fn spec_position(self) -> nat {
        self.position as nat
    }

    /// Whether `event` leads to another request, which takes a number.
    pub fn needs_context(&self, event: &SocketEvent<'_>) -> (b: bool)
        ensures
            b == (event@.is_quiet() && self.spec_position() + 1 < providers().len()),
    {
        let quiet: bool = match event {
            SocketEvent::Received(d) => d.len() == 0,
            SocketEvent::WouldBlock => true,
            _ => false,
        };
        quiet && self.position < 3
    }

    /// What to do once `event` has happened.
    pub fn step(&mut self, client: &mut NtstatClient, event: SocketEvent<'_>) -> (action:
        SubscribeAction)
        requires
            event@.is_quiet() && old(self).spec_position() + 1 < providers().len() ==> old(
                client,
            ).spec_next_context() < u64::MAX,
        ensures
            ({
                let st = SubscribeState {
                    position: old(self).spec_position(),
                    next_context: old(client).spec_next_context(),
                };
                let (next, step) = subscribe_next(st, event@);
                &&& action@ == step
                &&& final(self).spec_position() == next.position
                &&& final(client).spec_next_context() == next.next_context
            }),
    {
        proof {
            use_type_invariant(&*self);
        }
        match event {
            SocketEvent::SendFailed | SocketEvent::RecvFailed => {
                return SubscribeAction::Fail;
            },
            SocketEvent::Sent => {
                return SubscribeAction::Receive;
            },
            SocketEvent::Received(d) => {
                if d.len() > 0 {
                    return SubscribeAction::Receive;
                }
            },
            SocketEvent::WouldBlock => {},
        }
        let next: usize = self.position + 1;
        if next < 4 {
            let provider: u32 = if next == 1 {
                PROVIDER_TCP_USERLAND
            } else if next == 2 {
                PROVIDER_UDP_KERNEL
            } else {
                PROVIDER_UDP_USERLAND
            };
            self.position = next;
            SubscribeAction::Send(client.add_all_sources(provider))
        } else {
            SubscribeAction::Finish
        }
    }
}

/// What to do next to poll.
pub enum PollAction {
    Send(Vec<u8>),
    /// Report these error numbers of the kernel, then receive.
    Receive(Vec<u32>),
    /// The poll is over; this is what it has brought.
    Finish(Vec<SourceSample>),
    Fail,
}

/// What a [`PollAction`] says.
pub enum PollStep {
    Send(Seq<u8>),
    Receive(Seq<u32>),
    Finish(Seq<Sample>),
    Fail,
}

impl View for PollAction {
    type V = PollStep;

    open spec fn view(&self) -> PollStep {
        match self {
            PollAction::Send(req) => PollStep::Send(req@),
            PollAction::Receive(errors) => PollStep::Receive(errors@),
            PollAction::Finish(samples) => PollStep::Finish(sample_views(samples@)),
            PollAction::Fail => PollStep::Fail,
        }
    }
}

/// The state of a poll.
pub struct PollState {
    pub context: u64,
    /// What has been received so far.
    pub samples: Seq<Sample>,
    /// Whether the kernel has announced more fragments since the last request.
    pub want_more: bool,
}

/// What a poll does when `event` happens. It takes datagrams until the kernel falls silent; then it
/// asks again if more fragments were announced, and is over if not.
pub open spec fn poll_next(st: PollState, event: Event) -> (PollState, PollStep) {
    if event.is_failure() {
        (st, PollStep::Fail)
    } else if event.is_quiet() {
        if st.want_more {
            (
                PollState { want_more: false, ..st },
                PollStep::Send(get_update_bytes(st.context)),
            )
        } else {
            (PollState { samples: Seq::empty(), ..st }, PollStep::Finish(st.samples))
        }
    } else {
        match event {
            Event::Received(d) => (
                PollState {
                    context: st.context,
                    samples: st.samples + samples_in(frames(d)),
                    want_more: st.want_more || any_continued(frames(d)),
                },
                PollStep::Receive(errors_in(frames(d))),
            ),
            _ => (st, PollStep::Receive(Seq::empty())),
        }
    }
}

/// A poll under way.
pub struct Poll {
    context: u64,
    samples: Vec<SourceSample>,
    want_more: bool,
}

impl View for Poll {
    type V = PollState;

    closed spec fn view(&self) -> PollState {
        PollState {
            context: self.context,
            samples: sample_views(self.samples@),
            want_more: self.want_more,
        }
    }
}

impl Poll {
    #[verifier::type_invariant]
    spec fn inv(self) -> bool {
        names_without_nul(sample_views(self.samples@))
    }

    /// What to do once `event` has happened.
    pub fn step(&mut self, event: SocketEvent<'_>) -> (action: PollAction)
        ensures
            (final(self)@, action@) == poll_next(old(self)@, event@),
            event@ matches Event::Received(d) ==> names_are_told(frames(d)),
            action@ matches PollStep::Finish(samples) ==> names_without_nul(samples),
    {
        proof {
            use_type_invariant(&*self);
        }
        let ghost start = self@;
        match event {
            SocketEvent::SendFailed | SocketEvent::RecvFailed => {
                return PollAction::Fail;
            },
            SocketEvent::Sent => {
                return PollAction::Receive(Vec::new());
            },
            SocketEvent::Received(d) => {
                if d.len() > 0 {
                    let mut read = read_datagram(d);
                    let ghost new = read.samples@;
                    let mut samples: Vec<SourceSample> = Vec::new();
                    std::mem::swap(&mut self.samples, &mut samples);
                    samples.append(&mut read.samples);
                    assert(sample_views(samples@) =~= start.samples + sample_views(new));
                    self.samples = samples;
                    if read.more {
                        self.want_more = true;
                    }
                    return PollAction::Receive(read.errors);
                }
            },
            SocketEvent::WouldBlock => {},
        }
        if self.want_more {
            self.want_more = false;
            PollAction::Send(get_update_request(self.context))
        } else {
            let mut samples: Vec<SourceSample> = Vec::new();
            std::mem::swap(&mut self.samples, &mut samples);
            assert(self@.samples =~= Seq::empty());
            PollAction::Finish(samples)
        }
    }
}

/// A connected client. Each request that it makes carries a number of its own.
pub struct NtstatClient {
    next_context: u64,
}

impl NtstatClient {
    /// The number of the next request.
    pub closed spec fn spec_next_context(self) -> nat {
        self.next_context as nat
    }

    /// The first step to open and connect the kernel control socket; follow [`ConnectAction::step`].
    /// It works for a user who observes their own processes' sources.
    pub fn connect() -> (action: ConnectAction)
        ensures
            action@ == connect_start(),
    {
        ConnectAction::OpenSocket { family: PF_SYSTEM, protocol: SYSPROTO_CONTROL }
    }

    /// The socket option that bounds how long a receive waits: however short the timeout, it is
    /// never rounded to nothing, which would mean to wait without limit. Callers that poll faster
    /// should shrink it to match, since every poll waits this long at its end.
    pub fn set_recv_timeout(&self, timeout: u64) -> (t: TimeVal)
        ensures
            t == timeval_of(timeout as nat),
            timeout > 0 ==> t.sec > 0 || t.usec > 0,
    {
        timeval(timeout)
    }

    /// Whether there is a number left for another request.
    pub fn has_context(&self) -> (b: bool)
        ensures
            b == (self.spec_next_context() < u64::MAX),
    {
        self.next_context < u64::MAX
    }

    fn next_context(&mut self) -> (c: u64)
        requires
            old(self).spec_next_context() < u64::MAX,
        ensures
            c == old(self).spec_next_context(),
            final(self).spec_next_context() == c + 1,
    {
        let c: u64 = self.next_context;
        self.next_context = c + 1;
        c
    }

    /// The request to be told of every existing and future source of a provider.
    pub fn add_all_sources(&mut self, provider: u32) -> (req: Vec<u8>)
        requires
            old(self).spec_next_context() < u64::MAX,
        ensures
            req@ == add_all_srcs_bytes(old(self).spec_next_context() as u64, provider),
            final(self).spec_next_context() == old(self).spec_next_context() + 1,
    {
        let context: u64 = self.next_context();
        add_all_srcs_request(context, provider)
    }

    /// Starts to subscribe to the TCP and UDP sources: send the request, then follow
    /// [`Subscription::step`].
    pub fn subscribe_tcp_udp(&mut self) -> (r: (Subscription, Vec<u8>))
        requires
            old(self).spec_next_context() < u64::MAX,
        ensures
            r.0.spec_position() == 0,
            r.1@ == add_all_srcs_bytes(old(self).spec_next_context() as u64, providers()[0]),
            final(self).spec_next_context() == old(self).spec_next_context() + 1,
    {
        (Subscription { position: 0 }, self.add_all_sources(PROVIDER_TCP_KERNEL))
    }

    /// Starts to poll every source that is subscribed to: send the request, then follow
    /// [`Poll::step`].
    pub fn poll_all(&mut self) -> (r: (Poll, Vec<u8>))
        requires
            old(self).spec_next_context() < u64::MAX,
        ensures
            r.0@ == (PollState {
                context: old(self).spec_next_context() as u64,
                samples: Seq::empty(),
                want_more: false,
            }),
            r.1@ == get_update_bytes(old(self).spec_next_context() as u64),
            final(self).spec_next_context() == old(self).spec_next_context() + 1,
    {
        let context: u64 = self.next_context();
        let poll = Poll { context, samples: Vec::new(), want_more: false };
        assert(poll@.samples =~= Seq::empty());
        (poll, get_update_request(context))
    }
}

} // verus!
