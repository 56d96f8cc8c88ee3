use pigtop::control::{
    ctl_id, ctl_info, ctliocginfo, io_err, ioc, sockaddr_ctl, timeval, TimeVal, IOC_INOUT,
};

#[test]
fn request_numbers() {
    assert_eq!(ctliocginfo(), 0xc064_4e03);
    assert_eq!(IOC_INOUT, 0xc000_0000);
    assert_eq!(ioc(0x4000_0000, b't', 0x77, 0), 0x4000_7477);
    // Only thirteen bits of the length have room.
    assert_eq!(ioc(0, 0, 0, 0x2001), 0x1_0000);
}

#[test]
fn request_fields_read_back() {
    let request = ioc(IOC_INOUT, 0xab, 0xcd, 0x1fff);
    assert_eq!(request & 0xff, 0xcd);
    assert_eq!((request >> 8) & 0xff, 0xab);
    assert_eq!((request >> 16) & 0x1fff, 0x1fff);
    assert_eq!(request & !0x1fff_ffff, IOC_INOUT);
    let request = ioc(0x2000_0000, 1, 2, 0xffff);
    assert_eq!((request >> 16) & 0x1fff, 0x1fff);
    assert_eq!(request & !0x1fff_ffff, 0x2000_0000);
}

#[test]
fn the_control_is_asked_for_by_name() {
    let info = ctl_info();
    assert_eq!(info.len(), 100);
    assert_eq!(&info[..4], &[0; 4]);
    assert_eq!(&info[4..32], b"com.apple.network.statistics");
    assert!(info[32..].iter().all(|b| *b == 0));
}

#[test]
fn the_identifier_is_read_back() {
    let mut info = ctl_info();
    info[..4].copy_from_slice(&0x0a0b_0c0du32.to_le_bytes());
    assert_eq!(ctl_id(&info), 0x0a0b_0c0d);
}

#[test]
fn the_address_byte_for_byte() {
    let mut want = vec![32, 32, 2, 0, 0x0d, 0x0c, 0x0b, 0x0a];
    want.extend([0u8; 24]);
    assert_eq!(sockaddr_ctl(0x0a0b_0c0d), want);
}

#[test]
fn spans_of_time() {
    assert_eq!(timeval(0), TimeVal { sec: 0, usec: 0 });
    assert_eq!(timeval(1000), TimeVal { sec: 0, usec: 1 });
    assert_eq!(timeval(1999), TimeVal { sec: 0, usec: 1 });
    assert_eq!(timeval(15_000_000), TimeVal { sec: 0, usec: 15_000 });
    assert_eq!(timeval(2_000_001_999), TimeVal { sec: 2, usec: 1 });
    assert_eq!(timeval(u64::MAX), TimeVal { sec: 18_446_744_073, usec: 709_551 });
}

#[test]
fn a_span_of_less_than_a_microsecond_is_not_nothing() {
    for nanos in [1, 500, 999] {
        assert_eq!(timeval(nanos), TimeVal { sec: 0, usec: 1 });
    }
}

#[test]
fn errors_name_the_call() {
    assert_eq!(
        io_err("send", "Broken pipe (os error 32)"),
        "send: Broken pipe (os error 32)"
    );
    assert_eq!(io_err("", ""), ": ");
}
