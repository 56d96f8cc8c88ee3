use pigtop::control::{ctl_info, sockaddr_ctl, TimeVal};
use pigtop::message::{add_all_srcs_request, get_update_request};
use pigtop::ntstat::{
    ConnectAction, ConnectAnswer, NtstatClient, Poll, PollAction, SocketEvent, SubscribeAction, Subscription,
    DEFAULT_RECV_TIMEOUT,
};

/// Where connecting has come to after some answers.
fn connect(answers: &[ConnectAnswer]) -> ConnectAction {
    let mut action = NtstatClient::connect();
    for answer in answers {
        action = action.step(*answer);
    }
    action
}

fn client() -> NtstatClient {
    match connect(&[ConnectAnswer::Done, ConnectAnswer::Control(7), ConnectAnswer::Done, ConnectAnswer::Done]) {
        ConnectAction::Ready { client } => client,
        _ => panic!("not ready"),
    }
}

fn failure(answers: &[ConnectAnswer]) -> (&'static str, bool) {
    match connect(answers) {
        ConnectAction::Fail { call, close } => (call, close),
        _ => panic!("did not fail"),
    }
}

fn sent(action: PollAction) -> Vec<u8> {
    match action {
        PollAction::Send(req) => req,
        _ => panic!("does not send"),
    }
}

fn errors(action: PollAction) -> Vec<u32> {
    match action {
        PollAction::Receive(errors) => errors,
        _ => panic!("does not receive"),
    }
}

fn finished(action: PollAction) -> Vec<u64> {
    match action {
        PollAction::Finish(samples) => samples.iter().map(|s| s.srcref).collect(),
        _ => panic!("is not over"),
    }
}

fn next_provider(s: &mut Subscription, c: &mut NtstatClient, e: SocketEvent<'_>) -> Vec<u8> {
    match s.step(c, e) {
        SubscribeAction::Send(req) => req,
        _ => panic!("does not send"),
    }
}

fn message(kind: u32, flags: u16, len: usize) -> Vec<u8> {
    let mut msg = vec![0u8; len];
    msg[8..12].copy_from_slice(&kind.to_le_bytes());
    msg[12..14].copy_from_slice(&(len as u16).to_le_bytes());
    msg[14..16].copy_from_slice(&flags.to_le_bytes());
    msg
}

/// A TCP source update.
fn update(srcref: u64, flags: u16) -> Vec<u8> {
    let mut msg = message(10006, flags, 152 + 344);
    msg[16..24].copy_from_slice(&srcref.to_le_bytes());
    msg[144] = 2;
    msg
}

fn start() -> Poll {
    let mut c = client();
    let (mut poll, _) = c.poll_all();
    assert_eq!(errors(poll.step(SocketEvent::Sent)), Vec::<u32>::new());
    poll
}

#[test]
fn connecting_goes_step_by_step() {
    match connect(&[]) {
        ConnectAction::OpenSocket { family, protocol } => assert_eq!((family, protocol), (32, 2)),
        _ => panic!("does not open a socket"),
    }
    match connect(&[ConnectAnswer::Done]) {
        ConnectAction::QueryControl { request, info } => {
            assert_eq!(request, 0xc064_4e03);
            assert_eq!(info, ctl_info());
        }
        _ => panic!("does not look the control up"),
    }
    match connect(&[ConnectAnswer::Done, ConnectAnswer::Control(7)]) {
        ConnectAction::Connect { address } => assert_eq!(address, sockaddr_ctl(7)),
        _ => panic!("does not connect"),
    }
    match connect(&[ConnectAnswer::Done, ConnectAnswer::Control(7), ConnectAnswer::Done]) {
        ConnectAction::SetTimeout { timeout } => {
            assert_eq!(timeout, TimeVal { sec: 0, usec: 50_000 });
        }
        _ => panic!("does not set the timeout"),
    }
    match connect(&[ConnectAnswer::Done, ConnectAnswer::Control(7), ConnectAnswer::Done, ConnectAnswer::Done, ConnectAnswer::Failed]) {
        ConnectAction::Ready { mut client } => {
            assert_eq!(client.poll_all().1, get_update_request(1));
        }
        _ => panic!("is not ready"),
    }
}

#[test]
fn each_failure_names_its_call_and_closes_what_is_open() {
    let socket = ("socket(PF_SYSTEM, SOCK_DGRAM, SYSPROTO_CONTROL)", false);
    assert_eq!(failure(&[ConnectAnswer::Failed]), socket);
    assert_eq!(failure(&[ConnectAnswer::Failed, ConnectAnswer::Control(7), ConnectAnswer::Done, ConnectAnswer::Done]), socket);
    assert_eq!(failure(&[ConnectAnswer::Done, ConnectAnswer::Failed]), ("ioctl(CTLIOCGINFO)", true));
    assert_eq!(failure(&[ConnectAnswer::Done, ConnectAnswer::Done]), ("ioctl(CTLIOCGINFO)", true));
    assert_eq!(
        failure(&[ConnectAnswer::Done, ConnectAnswer::Control(7), ConnectAnswer::Failed]),
        ("connect(AF_SYSTEM/com.apple.network.statistics)", true)
    );
    assert_eq!(failure(&[ConnectAnswer::Done, ConnectAnswer::Control(7), ConnectAnswer::Done, ConnectAnswer::Failed]), ("setsockopt(SO_RCVTIMEO)", true));
}

#[test]
fn the_timeout_can_be_changed() {
    let c = client();
    assert_eq!(c.set_recv_timeout(15_000_000), TimeVal { sec: 0, usec: 15_000 });
    assert_eq!(c.set_recv_timeout(500), TimeVal { sec: 0, usec: 1 });
    assert_eq!(c.set_recv_timeout(DEFAULT_RECV_TIMEOUT), TimeVal { sec: 0, usec: 50_000 });
}

#[test]
fn subscribing_asks_each_provider_once() {
    let mut c = client();
    assert!(c.has_context());
    let (mut s, first) = c.subscribe_tcp_udp();
    assert_eq!(first, add_all_srcs_request(1, 2));
    assert!(!s.needs_context(&SocketEvent::Sent));
    assert!(s.needs_context(&SocketEvent::WouldBlock));
    assert!(s.needs_context(&SocketEvent::Received(&[])));
    assert!(matches!(s.step(&mut c, SocketEvent::Sent), SubscribeAction::Receive));
    // The backlog is drained, whatever it holds.
    let datagram = update(9, 2);
    assert!(!s.needs_context(&SocketEvent::Received(&datagram)));
    for _ in 0..3 {
        let action = s.step(&mut c, SocketEvent::Received(&datagram));
        assert!(matches!(action, SubscribeAction::Receive));
    }
    let req = next_provider(&mut s, &mut c, SocketEvent::WouldBlock);
    assert_eq!(req, add_all_srcs_request(2, 3));
    // An empty datagram is silence, too.
    let req = next_provider(&mut s, &mut c, SocketEvent::Received(&[]));
    assert_eq!(req, add_all_srcs_request(3, 4));
    let req = next_provider(&mut s, &mut c, SocketEvent::WouldBlock);
    assert_eq!(req, add_all_srcs_request(4, 5));
    assert!(!s.needs_context(&SocketEvent::WouldBlock));
    assert!(matches!(s.step(&mut c, SocketEvent::WouldBlock), SubscribeAction::Finish));
    // The next request goes on counting.
    assert_eq!(c.poll_all().1, get_update_request(5));
}

#[test]
fn subscribing_fails_with_the_socket() {
    let mut c = client();
    let (mut s, _) = c.subscribe_tcp_udp();
    assert!(matches!(s.step(&mut c, SocketEvent::SendFailed), SubscribeAction::Fail));
    assert!(matches!(s.step(&mut c, SocketEvent::RecvFailed), SubscribeAction::Fail));
}

#[test]
fn a_single_provider_can_be_asked_for() {
    let mut c = client();
    assert_eq!(c.add_all_sources(5), add_all_srcs_request(1, 5));
    assert_eq!(c.add_all_sources(2), add_all_srcs_request(2, 2));
}

#[test]
fn a_poll_without_sources_is_empty() {
    let mut poll = start();
    assert_eq!(finished(poll.step(SocketEvent::WouldBlock)), Vec::<u64>::new());
}

#[test]
fn a_poll_collects_its_datagrams_in_order() {
    let mut poll = start();
    let mut two = update(1, 0);
    two.extend(update(2, 0));
    assert_eq!(errors(poll.step(SocketEvent::Received(&two))), Vec::<u32>::new());
    assert_eq!(errors(poll.step(SocketEvent::Received(&update(3, 0)))), Vec::<u32>::new());
    assert_eq!(finished(poll.step(SocketEvent::WouldBlock)), vec![1, 2, 3]);
}

#[test]
fn a_poll_asks_again_for_announced_fragments() {
    let mut c = client();
    let (mut poll, first) = c.poll_all();
    assert_eq!(first, get_update_request(1));
    poll.step(SocketEvent::Sent);
    poll.step(SocketEvent::Received(&update(1, 2)));
    poll.step(SocketEvent::Received(&update(2, 0)));
    // The same request, under the same number.
    assert_eq!(sent(poll.step(SocketEvent::WouldBlock)), get_update_request(1));
    poll.step(SocketEvent::Sent);
    poll.step(SocketEvent::Received(&update(3, 0)));
    assert_eq!(finished(poll.step(SocketEvent::Received(&[]))), vec![1, 2, 3]);
    assert_eq!(c.poll_all().1, get_update_request(2));
}

#[test]
fn a_poll_reports_the_errors_of_the_kernel() {
    let mut poll = start();
    let mut msg = message(1, 0, 24);
    msg[16] = 13;
    msg.extend(update(4, 0));
    assert_eq!(errors(poll.step(SocketEvent::Received(&msg))), vec![13]);
    assert_eq!(finished(poll.step(SocketEvent::WouldBlock)), vec![4]);
}

#[test]
fn a_poll_fails_with_the_socket() {
    let mut poll = start();
    assert!(matches!(poll.step(SocketEvent::SendFailed), PollAction::Fail));
    assert!(matches!(poll.step(SocketEvent::RecvFailed), PollAction::Fail));
}
