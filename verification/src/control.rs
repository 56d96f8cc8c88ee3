//! The kernel control socket: what is asked of the system to open one.
use vstd::prelude::*;

use crate::bytes::{push_u16, push_u32, push_zeros, read_u32, u16_bytes, u32_at, u32_bytes, zeros};

verus! {

pub const PF_SYSTEM: i32 = 32;

pub const AF_SYSTEM: u8 = 32;

pub const AF_SYS_CONTROL: u16 = 2;

pub const SYSPROTO_CONTROL: i32 = 2;

pub const MAX_KCTL_NAME: usize = 96;

/// Size of `struct ctl_info`: an identifier, then a name.
pub const CTL_INFO_SIZE: usize = 100;

/// Size of `struct sockaddr_ctl`.
pub const SOCKADDR_CTL_SIZE: usize = 32;

pub const IOCPARM_MASK: u64 = 0x1fff;

pub const IOC_OUT: u64 = 0x4000_0000;

pub const IOC_IN: u64 = 0x8000_0000;

pub const IOC_INOUT: u64 = IOC_IN | IOC_OUT;

/// The number of an `ioctl` request: direction, length of its parameter, group and number.
pub fn ioc(inout: u64, group: u8, num: u8, len: usize) -> (request: u64)
    ensures
        request == inout | ((len as u64 & IOCPARM_MASK) << 16) | ((group as u64) << 8) | (
        num as u64),
        inout & 0x1fff_ffff == 0 ==> {
            &&& request & 0xff == num
            &&& (request >> 8) & 0xff == group
            &&& (request >> 16) & 0x1fff == len as u64 & 0x1fff
            &&& request & !0x1fff_ffffu64 == inout
        },
{
    proof {
        if inout & 0x1fff_ffff == 0 {
            ioc_fields_read_back(inout, group, num, len as u64);
        }
    }
    inout | ((len as u64 & IOCPARM_MASK) << 16) | ((group as u64) << 8) | (num as u64)
}

/// Direction, length, group and number do not get in each other's way: each is read back from the
/// request, the length as far as there is room for it.
pub proof fn ioc_fields_read_back(inout: u64, group: u8, num: u8, len: u64)
    requires
        inout & 0x1fff_ffff == 0,
    ensures
        ({
            let request = inout | ((len & IOCPARM_MASK) << 16) | ((group as u64) << 8) | (
            num as u64);
            &&& request & 0xff == num
            &&& (request >> 8) & 0xff == group
            &&& (request >> 16) & IOCPARM_MASK == len & IOCPARM_MASK
            &&& request & !0x1fff_ffffu64 == inout
        }),
{
    let request = inout | ((len & 0x1fff) << 16) | ((group as u64) << 8) | (num as u64);
    assert(request & 0xff == num && (request >> 8) & 0xff == group && (request >> 16) & 0x1fff
        == len & 0x1fff && request & !0x1fff_ffffu64 == inout) by (bit_vector)
        requires
            inout & 0x1fff_ffff == 0,
            request == inout | ((len & 0x1fff) << 16) | ((group as u64) << 8) | (num as u64),
    ;
}

/// The request for the identifier of a kernel control, by its name; its group is `N`.
pub fn ctliocginfo() -> (request: u64)
    ensures
        request == 0xc064_4e03,
{
    let request = ioc(IOC_INOUT, 0x4e, 3, CTL_INFO_SIZE);
    assert((0x8000_0000u64 | 0x4000_0000u64) | ((100u64 & 0x1fff) << 16) | (78u64 << 8) | 3u64 == 0xc064_4e03)
        by (bit_vector);
    request
}

/// The control's name in ASCII.
pub open spec fn control_name() -> Seq<u8> {
    let name = "com.apple.network.statistics"@;
    Seq::new(name.len(), |i: int| name[i] as u8)
}

/// A `ctl_info` that asks for the control's identifier: the name, padded with NULs.
pub open spec fn ctl_info_bytes() -> Seq<u8> {
    u32_bytes(0) + control_name() + zeros((MAX_KCTL_NAME - control_name().len()) as nat)
}

pub fn ctl_info() -> (info: Vec<u8>)
    ensures
        info@ == ctl_info_bytes(),
        info@.len() == CTL_INFO_SIZE,
{
    let name = "com.apple.network.statistics";
    proof {
        reveal_strlit("com.apple.network.statistics");
        assert(vstd::string::is_ascii(name));
        vstd::string::is_ascii_spec_bytes(name);
    }
    let mut info: Vec<u8> = Vec::new();
    push_u32(&mut info, 0);
    let ascii = name.as_bytes();
    assert(ascii@ =~= control_name());
    info.extend_from_slice(ascii);
    push_zeros(&mut info, MAX_KCTL_NAME - ascii.len());
    assert(info@ =~= ctl_info_bytes());
    info
}

/// The identifier that the system has filled in.
pub fn ctl_id(info: &[u8]) -> (id: u32)
    requires
        info@.len() >= 4,
    ensures
        id == u32_at(info@, 0),
{
    read_u32(info, 0)
}

/// The `sockaddr_ctl` of the control `id`, any unit.
pub open spec fn sockaddr_ctl_bytes(id: u32) -> Seq<u8> {
    seq![SOCKADDR_CTL_SIZE as u8, AF_SYSTEM] + u16_bytes(AF_SYS_CONTROL as nat) + u32_bytes(
        id as nat,
    ) + u32_bytes(0) + zeros(20)
}

pub fn sockaddr_ctl(id: u32) -> (addr: Vec<u8>)
    ensures
        addr@ == sockaddr_ctl_bytes(id),
        addr@.len() == SOCKADDR_CTL_SIZE,
{
    let mut addr: Vec<u8> = Vec::new();
    addr.push(SOCKADDR_CTL_SIZE as u8);
    addr.push(AF_SYSTEM);
    push_u16(&mut addr, AF_SYS_CONTROL);
    push_u32(&mut addr, id);
    push_u32(&mut addr, 0);
    push_zeros(&mut addr, 20);
    assert(addr@ =~= sockaddr_ctl_bytes(id));
    addr
}

/// A span of time as socket options take it.
#[derive(Debug, Clone, Copy, PartialEq, Eq, Structural)]
pub struct TimeVal {
    pub sec: i64,
    pub usec: i32,
}

/// Whole microseconds of a span of time. What is less than one, but not nothing, counts as one:
/// a timeout of nothing would be none at all.
pub open spec fn micros_of(nanos: nat) -> nat {
    if 0 < nanos < 1000 {
        1
    } else {
        nanos / 1000
    }
}

pub open spec fn timeval_of(nanos: nat) -> TimeVal {
    TimeVal {
        sec: (micros_of(nanos) / 1_000_000) as i64,
        usec: (micros_of(nanos) % 1_000_000) as i32,
    }
}

/// A span of time in nanoseconds as whole seconds and microseconds.
pub fn timeval(nanos: u64) -> (t: TimeVal)
    ensures
        t == timeval_of(nanos as nat),
        t.sec * 1_000_000 + t.usec == micros_of(nanos as nat),
        0 <= t.usec < 1_000_000,
        nanos > 0 ==> t.sec > 0 || t.usec > 0,
{
    let micros: u64 = if 0 < nanos && nanos < 1000 {
        1
    } else {
        nanos / 1000
    };
    TimeVal { sec: (micros / 1_000_000) as i64, usec: (micros % 1_000_000) as i32 }
}

/// What an error says: the call that failed, and the system's own words.
pub fn io_err(msg: &str, os_error: &str) -> (text: String)
    ensures
        text@ == msg@ + ": "@ + os_error@,
{
    let mut text = msg.to_owned();
    text.append(": ");
    text.append(os_error);
    text
}

} // verus!
