use pigtop::bytes::{push_u16, push_u32, push_u64, push_zeros, read_u16, read_u32, read_u64};
use pigtop::layout::{
    PNAME_SIZE, SOCKADDR_SIZE, TCP_EPID, TCP_PID, TCP_PNAME, TCP_SIZE, UDP_EPID, UDP_PID,
    UDP_PNAME, UDP_SIZE, UPDATE_PROVIDER, UPDATE_RXBYTES, UPDATE_SIZE, UPDATE_SRCREF,
    UPDATE_TXBYTES,
};
use pigtop::message::{
    add_all_srcs_request, cstr_bytes_to_string, get_update_request, parse_src_update,
    read_datagram, read_src_update, SourceSample, HDR_FLAG_CONTINUATION, MSG_TYPE_ERROR,
    MSG_TYPE_SRC_UPDATE, PROVIDER_TCP_KERNEL, PROVIDER_TCP_USERLAND, PROVIDER_UDP_KERNEL,
    PROVIDER_UDP_USERLAND,
};

fn put(msg: &mut [u8], at: usize, bytes: &[u8]) {
    msg[at..at + bytes.len()].copy_from_slice(bytes);
}

fn header(msg: &mut [u8], kind: u32, flags: u16) {
    let len = msg.len() as u16;
    put(msg, 8, &kind.to_le_bytes());
    put(msg, 12, &len.to_le_bytes());
    put(msg, 14, &flags.to_le_bytes());
}

fn update(provider: u32, srcref: u64, pid: u32, epid: u32, name: &[u8], extra: usize) -> Vec<u8> {
    let tcp = provider == PROVIDER_TCP_KERNEL || provider == PROVIDER_TCP_USERLAND;
    let size = if tcp { TCP_SIZE } else { UDP_SIZE };
    let mut msg = vec![0u8; UPDATE_SIZE + size + extra];
    header(&mut msg, MSG_TYPE_SRC_UPDATE, 0);
    put(&mut msg, UPDATE_SRCREF, &srcref.to_le_bytes());
    put(&mut msg, UPDATE_RXBYTES, &1111u64.to_le_bytes());
    put(&mut msg, UPDATE_TXBYTES, &2222u64.to_le_bytes());
    put(&mut msg, UPDATE_PROVIDER, &provider.to_le_bytes());
    let (p, e, n) = if tcp {
        (TCP_PID, TCP_EPID, TCP_PNAME)
    } else {
        (UDP_PID, UDP_EPID, UDP_PNAME)
    };
    put(&mut msg, UPDATE_SIZE + p, &pid.to_le_bytes());
    put(&mut msg, UPDATE_SIZE + e, &epid.to_le_bytes());
    put(&mut msg, UPDATE_SIZE + n, name);
    msg
}

fn error(errno: u32) -> Vec<u8> {
    let mut msg = vec![0u8; 24];
    header(&mut msg, MSG_TYPE_ERROR, 0);
    put(&mut msg, 16, &errno.to_le_bytes());
    msg
}

fn fields(s: &SourceSample) -> (u64, u32, u32, &str, u64, u64) {
    (s.srcref, s.pid, s.epid, s.pname.as_str(), s.rx_bytes, s.tx_bytes)
}

#[test]
fn integers_are_little_endian() {
    let mut out = vec![9u8];
    push_u16(&mut out, 0x0102);
    push_u32(&mut out, 0x0304_0506);
    push_u64(&mut out, 0x0708_090a_0b0c_0d0e);
    push_zeros(&mut out, 2);
    assert_eq!(
        out,
        vec![9, 2, 1, 6, 5, 4, 3, 0xe, 0xd, 0xc, 0xb, 0xa, 9, 8, 7, 0, 0]
    );
    assert_eq!(read_u16(&out, 1), 0x0102);
    assert_eq!(read_u32(&out, 3), 0x0304_0506);
    assert_eq!(read_u64(&out, 7), 0x0708_090a_0b0c_0d0e);
}

#[test]
fn integers_of_all_ones_read_back() {
    let mut out = Vec::new();
    push_u64(&mut out, u64::MAX);
    assert_eq!(read_u16(&out, 3), u16::MAX);
    assert_eq!(read_u32(&out, 2), u32::MAX);
    assert_eq!(read_u64(&out, 0), u64::MAX);
}

#[test]
fn the_address_union_is_as_large_as_its_larger_member() {
    assert_eq!(SOCKADDR_SIZE, std::mem::size_of::<libc::sockaddr_in6>());
    assert!(SOCKADDR_SIZE >= std::mem::size_of::<libc::sockaddr_in>());
    assert_eq!(std::mem::align_of::<libc::sockaddr_in6>(), 4);
}

#[test]
fn names_stop_at_the_first_nul() {
    assert_eq!(cstr_bytes_to_string(b"curl\0\0\0junk"), "curl");
    assert_eq!(cstr_bytes_to_string(b"curl"), "curl");
    assert_eq!(cstr_bytes_to_string(b"\0curl"), "");
    assert_eq!(cstr_bytes_to_string(b""), "");
}

#[test]
fn names_are_decoded() {
    assert_eq!(cstr_bytes_to_string("Café 🐷\0".as_bytes()), "Café 🐷");
    assert_eq!(cstr_bytes_to_string(b"ab\xffcd\0"), "ab\u{fffd}cd");
    assert_eq!(cstr_bytes_to_string(b"\xe2\x82"), "\u{fffd}");
}

#[test]
fn what_follows_the_first_nul_makes_no_difference() {
    for name in [&b"curl"[..], "Café".as_bytes(), b"a\xffb", b""] {
        let whole = cstr_bytes_to_string(name);
        assert!(!whole.contains('\0'));
        for rest in [&b""[..], b"\0\0", b"junk", b"\xff\0x"] {
            let mut field = name.to_vec();
            field.push(0);
            field.extend(rest);
            assert_eq!(cstr_bytes_to_string(&field), whole);
        }
    }
    assert_eq!(cstr_bytes_to_string("Café".as_bytes()).as_bytes(), "Café".as_bytes());
}

#[test]
fn tcp_updates_are_read() {
    for provider in [PROVIDER_TCP_KERNEL, PROVIDER_TCP_USERLAND] {
        let msg = update(provider, 77, 501, 502, b"ssh", 0);
        let s = parse_src_update(&msg).unwrap();
        assert_eq!(fields(&s), (77, 501, 502, "ssh", 1111, 2222));
    }
}

#[test]
fn udp_updates_are_read() {
    for provider in [PROVIDER_UDP_KERNEL, PROVIDER_UDP_USERLAND] {
        let msg = update(provider, 78, 601, 602, b"mDNSResponder", 0);
        let s = parse_src_update(&msg).unwrap();
        assert_eq!(fields(&s), (78, 601, 602, "mDNSResponder", 1111, 2222));
    }
}

#[test]
fn a_name_that_fills_its_field_has_no_nul() {
    let msg = update(PROVIDER_TCP_KERNEL, 1, 2, 3, &[b'x'; PNAME_SIZE], 0);
    assert_eq!(parse_src_update(&msg).unwrap().pname, "x".repeat(64));
}

#[test]
fn raw_updates_keep_the_name_in_bytes() {
    let msg = update(PROVIDER_UDP_KERNEL, 78, 601, 602, b"a\xff\0b", 0);
    let u = read_src_update(&msg).unwrap();
    assert_eq!((u.srcref, u.pid, u.epid, u.rx_bytes, u.tx_bytes), (78, 601, 602, 1111, 2222));
    assert_eq!(u.pname.len(), PNAME_SIZE);
    assert_eq!(&u.pname[..5], b"a\xff\0b\0");
    let s = u.named("z".to_string());
    assert_eq!(fields(&s), (78, 601, 602, "z", 1111, 2222));
}

#[test]
fn short_updates_are_refused() {
    let tcp = update(PROVIDER_TCP_KERNEL, 1, 2, 3, b"a", 0);
    assert!(parse_src_update(&tcp[..tcp.len() - 1]).is_none());
    assert!(parse_src_update(&tcp[..UPDATE_SIZE]).is_none());
    assert!(parse_src_update(&tcp[..UPDATE_SIZE - 1]).is_none());
    assert!(parse_src_update(&[]).is_none());
    let udp = update(PROVIDER_UDP_USERLAND, 1, 2, 3, b"a", 0);
    assert!(parse_src_update(&udp[..udp.len() - 1]).is_none());
    assert!(parse_src_update(&udp).is_some());
}

#[test]
fn other_providers_are_refused() {
    for provider in [0u32, 1, 6, 258] {
        let mut msg = update(PROVIDER_TCP_KERNEL, 1, 2, 3, b"a", 0);
        put(&mut msg, UPDATE_PROVIDER, &provider.to_le_bytes());
        assert!(parse_src_update(&msg).is_none());
    }
}

#[test]
fn longer_descriptors_are_read_the_same() {
    let msg = update(PROVIDER_TCP_USERLAND, 77, 501, 502, b"ssh", 40);
    let s = parse_src_update(&msg).unwrap();
    assert_eq!(fields(&s), (77, 501, 502, "ssh", 1111, 2222));
}

#[test]
fn a_datagram_may_carry_several_messages() {
    let mut d = update(PROVIDER_TCP_KERNEL, 1, 10, 0, b"a", 3);
    d.extend(error(13));
    d.extend(update(PROVIDER_UDP_KERNEL, 2, 20, 0, b"b", 0));
    d.extend(error(22));
    let read = read_datagram(&d);
    assert_eq!(read.samples.len(), 2);
    assert_eq!(fields(&read.samples[0]), (1, 10, 0, "a", 1111, 2222));
    assert_eq!(fields(&read.samples[1]), (2, 20, 0, "b", 1111, 2222));
    assert_eq!(read.errors, vec![13, 22]);
    assert!(!read.more);
}

#[test]
fn names_in_a_datagram_are_decoded() {
    let mut d = update(PROVIDER_TCP_KERNEL, 1, 10, 0, "Café\0x".as_bytes(), 0);
    d.extend(update(PROVIDER_UDP_KERNEL, 2, 20, 0, b"a\xffb\0\xff", 0));
    let names: Vec<String> = read_datagram(&d).samples.into_iter().map(|s| s.pname).collect();
    assert_eq!(names, vec!["Café", "a\u{fffd}b"]);
}

#[test]
fn one_datagram_or_two_makes_no_difference() {
    let first = update(PROVIDER_TCP_KERNEL, 1, 10, 0, b"a", 0);
    let second = update(PROVIDER_UDP_KERNEL, 2, 20, 0, b"b", 0);
    let mut both = first.clone();
    both.extend(&second);
    let (a, b, ab) = (read_datagram(&first), read_datagram(&second), read_datagram(&both));
    assert_eq!(ab.samples.len(), a.samples.len() + b.samples.len());
    assert_eq!(fields(&ab.samples[0]), fields(&a.samples[0]));
    assert_eq!(fields(&ab.samples[1]), fields(&b.samples[0]));
}

#[test]
fn the_continuation_flag_is_seen_on_any_message() {
    let mut d = error(13);
    let mut other = vec![0u8; 16];
    header(&mut other, 10001, HDR_FLAG_CONTINUATION | 4);
    d.extend(&other);
    d.extend(error(14));
    assert!(read_datagram(&d).more);
    header(&mut other, 10001, 0xfffd);
    assert!(!read_datagram(&other).more);
    header(&mut other, 10001, 0xffff);
    assert!(read_datagram(&other).more);
}

#[test]
fn a_length_that_cannot_be_ends_the_datagram() {
    let mut d = error(13);
    let mut short = error(14);
    put(&mut short, 12, &15u16.to_le_bytes());
    d.extend(&short);
    d.extend(error(15));
    assert_eq!(read_datagram(&d).errors, vec![13]);

    let mut d = error(13);
    let mut long = error(14);
    put(&mut long, 12, &25u16.to_le_bytes());
    d.extend(&long);
    assert_eq!(read_datagram(&d).errors, vec![13]);

    let mut zero = vec![0u8; 64];
    header(&mut zero, MSG_TYPE_ERROR, 0);
    put(&mut zero, 12, &0u16.to_le_bytes());
    assert_eq!(read_datagram(&zero).errors, Vec::<u32>::new());
}

#[test]
fn what_is_left_of_a_header_is_ignored() {
    let mut d = error(13);
    d.extend(&error(14)[..15]);
    assert_eq!(read_datagram(&d).errors, vec![13]);
    let empty = read_datagram(&[]);
    assert_eq!((empty.samples.len(), empty.errors.len(), empty.more), (0, 0, false));
}

#[test]
fn an_error_message_needs_room_for_its_number() {
    let mut msg = vec![7u8; 19];
    header(&mut msg, MSG_TYPE_ERROR, 0);
    assert_eq!(read_datagram(&msg).errors, Vec::<u32>::new());
    let mut msg = vec![7u8; 20];
    header(&mut msg, MSG_TYPE_ERROR, 0);
    assert_eq!(read_datagram(&msg).errors, vec![0x0707_0707]);
}

#[test]
fn an_update_that_cannot_be_read_does_not_stop_the_others() {
    let mut broken = update(PROVIDER_TCP_KERNEL, 1, 10, 0, b"a", 0);
    put(&mut broken, UPDATE_PROVIDER, &9u32.to_le_bytes());
    let mut d = broken;
    d.extend(update(PROVIDER_TCP_KERNEL, 2, 20, 0, b"b", 0));
    let read = read_datagram(&d);
    assert_eq!(read.samples.len(), 1);
    assert_eq!(fields(&read.samples[0]), (2, 20, 0, "b", 1111, 2222));
}

#[test]
fn the_subscription_request_byte_for_byte() {
    let mut want = vec![
        8, 7, 6, 5, 4, 3, 2, 1, // context
        0xea, 3, 0, 0, // type
        56, 0, // length
        0, 0, // flags
    ];
    want.extend([0u8; 16]);
    want.extend([3, 0, 0, 0]);
    want.extend([0u8; 20]);
    assert_eq!(add_all_srcs_request(0x0102_0304_0506_0708, PROVIDER_TCP_USERLAND), want);
}

#[test]
fn the_poll_request_byte_for_byte() {
    let mut want = vec![5, 0, 0, 0, 0, 0, 0, 0, 0xef, 3, 0, 0, 24, 0, 0, 0];
    want.extend([0xffu8; 8]);
    assert_eq!(get_update_request(5), want);
}

#[test]
fn requests_give_their_own_length() {
    for req in [add_all_srcs_request(1, PROVIDER_UDP_KERNEL), get_update_request(2)] {
        assert_eq!(read_u16(&req, 12) as usize, req.len());
    }
}
