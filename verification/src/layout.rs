//! Where the fields of the kernel's C structures stand.
//!
//! The structures are given field by field, in the order of the kernel header, and the offsets that
//! the parser uses are proved to be those that the C layout rules give.
use vstd::prelude::*;

verus! {

/// Size and alignment of a field.
pub struct Field {
    pub size: nat,
    pub align: nat,
}

/// The least multiple of `align` that is no less than `n`; alignments here are 1, 2, 4 or 8.
pub open spec fn align_up(n: nat, align: nat) -> nat {
    if align == 8 {
        (n + 7) / 8 * 8
    } else if align == 4 {
        (n + 3) / 4 * 4
    } else if align == 2 {
        (n + 1) / 2 * 2
    } else {
        n
    }
}

/// The first byte behind field `i`.
pub open spec fn end_of(fields: Seq<Field>, i: int) -> nat
    decreases i + 1,
{
    if i < 0 {
        0
    } else {
        align_up(end_of(fields, i - 1), fields[i].align) + fields[i].size
    }
}

/// The first byte of field `i`.
pub open spec fn offset_of(fields: Seq<Field>, i: int) -> nat {
    align_up(end_of(fields, i - 1), fields[i].align)
}

/// The size of a structure with a field of 8-byte alignment, and none of more.
pub open spec fn size_of_struct(fields: Seq<Field>) -> nat {
    align_up(end_of(fields, fields.len() - 1), 8)
}

pub open spec fn u8s(n: nat) -> Field {
    Field { size: n, align: 1 }
}

pub open spec fn u16_field() -> Field {
    Field { size: 2, align: 2 }
}

pub open spec fn u32_field() -> Field {
    Field { size: 4, align: 4 }
}

pub open spec fn u64_field() -> Field {
    Field { size: 8, align: 8 }
}

/// `struct { u64 start; u64 bitmap[2]; }`
pub open spec fn activity_bitmap() -> Field {
    Field { size: 24, align: 8 }
}

/// The union of `sockaddr_in` and `sockaddr_in6`; the latter is the larger.
pub open spec fn sockaddr_in_or_in6() -> Field {
    Field { size: SOCKADDR_SIZE as nat, align: 4 }
}

/// Size of a `sockaddr_in6`.
pub const SOCKADDR_SIZE: usize = 28;

pub open spec fn msg_hdr() -> Seq<Field> {
    seq![
        u64_field(),  // context
        u32_field(),  // type
        u16_field(),  // length
        u16_field(),  // flags
    ]
}

pub const HDR_CONTEXT: usize = 0;

pub const HDR_TYPE: usize = 8;

pub const HDR_LENGTH: usize = 12;

pub const HDR_FLAGS: usize = 14;

pub const HDR_SIZE: usize = 16;

/// The header's fields stand where the parser reads them.
pub proof fn msg_hdr_layout()
    ensures
        offset_of(msg_hdr(), 0) == HDR_CONTEXT,
        offset_of(msg_hdr(), 1) == HDR_TYPE,
        offset_of(msg_hdr(), 2) == HDR_LENGTH,
        offset_of(msg_hdr(), 3) == HDR_FLAGS,
        size_of_struct(msg_hdr()) == HDR_SIZE,
{
    reveal_with_fuel(end_of, 5);
}

pub open spec fn counts_fields() -> Seq<Field> {
    seq![
        u64_field(),  // rxpackets
        u64_field(),  // rxbytes
        u64_field(),  // txpackets
        u64_field(),  // txbytes
        u64_field(),  // cell_rxbytes
        u64_field(),  // cell_txbytes
        u64_field(),  // wifi_rxbytes
        u64_field(),  // wifi_txbytes
        u64_field(),  // wired_rxbytes
        u64_field(),  // wired_txbytes
        u32_field(),  // rxduplicatebytes
        u32_field(),  // rxoutoforderbytes
        u32_field(),  // txretransmit
        u32_field(),  // connectattempts
        u32_field(),  // connectsuccesses
        u32_field(),  // min_rtt
        u32_field(),  // avg_rtt
        u32_field(),  // var_rtt
    ]
}

pub const COUNTS_RXBYTES: usize = 8;

pub const COUNTS_TXBYTES: usize = 24;

pub const COUNTS_SIZE: usize = 112;

pub proof fn counts_layout()
    ensures
        offset_of(counts_fields(), 1) == COUNTS_RXBYTES,
        offset_of(counts_fields(), 3) == COUNTS_TXBYTES,
        size_of_struct(counts_fields()) == COUNTS_SIZE,
{
    reveal_with_fuel(end_of, 19);
}

pub open spec fn src_update_header() -> Seq<Field> {
    seq![
        Field { size: HDR_SIZE as nat, align: 8 },  // hdr
        u64_field(),  // srcref
        u64_field(),  // event_flags
        Field { size: COUNTS_SIZE as nat, align: 8 },  // counts
        u32_field(),  // provider
        u8s(4),  // reserved
    ]
}

pub const UPDATE_SRCREF: usize = 16;

pub const UPDATE_RXBYTES: usize = 40;

pub const UPDATE_TXBYTES: usize = 56;

pub const UPDATE_PROVIDER: usize = 144;

pub const UPDATE_SIZE: usize = 152;

pub proof fn src_update_layout()
    ensures
        offset_of(src_update_header(), 1) == UPDATE_SRCREF,
        offset_of(src_update_header(), 3) + COUNTS_RXBYTES == UPDATE_RXBYTES,
        offset_of(src_update_header(), 3) + COUNTS_TXBYTES == UPDATE_TXBYTES,
        offset_of(src_update_header(), 4) == UPDATE_PROVIDER,
        size_of_struct(src_update_header()) == UPDATE_SIZE,
{
    reveal_with_fuel(end_of, 7);
}

pub open spec fn tcp_descriptor() -> Seq<Field> {
    seq![
        u64_field(),  // upid
        u64_field(),  // eupid
        u64_field(),  // start_timestamp
        u64_field(),  // timestamp
        u64_field(),  // rx_transfer_size
        u64_field(),  // tx_transfer_size
        activity_bitmap(),
        u32_field(),  // ifindex
        u32_field(),  // state
        u32_field(),  // sndbufsize
        u32_field(),  // sndbufused
        u32_field(),  // rcvbufsize
        u32_field(),  // rcvbufused
        u32_field(),  // txunacked
        u32_field(),  // txwindow
        u32_field(),  // txcwindow
        u32_field(),  // traffic_class
        u32_field(),  // traffic_mgt_flags
        u32_field(),  // pid
        u32_field(),  // epid
        sockaddr_in_or_in6(),  // local
        sockaddr_in_or_in6(),  // remote
        u8s(16),  // cc_algo
        u8s(64),  // pname
        u8s(16),  // uuid
        u8s(16),  // euuid
        u8s(16),  // vuuid
        u8s(16),  // fuuid
        u32_field(),  // persona_id
        u32_field(),  // uid
        u8s(4),  // connstatus
        u32_field(),  // ifnet_properties
        u8s(1),  // fallback_mode
        u8s(3),  // reserved
    ]
}

pub const TCP_PID: usize = 116;

pub const TCP_EPID: usize = 120;

pub const TCP_PNAME: usize = 196;

pub const TCP_SIZE: usize = 344;

pub proof fn tcp_descriptor_layout()
    ensures
        offset_of(tcp_descriptor(), 18) == TCP_PID,
        offset_of(tcp_descriptor(), 19) == TCP_EPID,
        offset_of(tcp_descriptor(), 23) == TCP_PNAME,
        tcp_descriptor()[23].size == PNAME_SIZE,
        size_of_struct(tcp_descriptor()) == TCP_SIZE,
{
    reveal_with_fuel(end_of, 35);
}

pub open spec fn udp_descriptor() -> Seq<Field> {
    seq![
        u64_field(),  // upid
        u64_field(),  // eupid
        u64_field(),  // start_timestamp
        u64_field(),  // timestamp
        activity_bitmap(),
        sockaddr_in_or_in6(),  // local
        sockaddr_in_or_in6(),  // remote
        u32_field(),  // ifindex
        u32_field(),  // rcvbufsize
        u32_field(),  // rcvbufused
        u32_field(),  // traffic_class
        u32_field(),  // pid
        u8s(64),  // pname
        u32_field(),  // epid
        u8s(16),  // uuid
        u8s(16),  // euuid
        u8s(16),  // vuuid
        u8s(16),  // fuuid
        u32_field(),  // persona_id
        u32_field(),  // uid
        u32_field(),  // ifnet_properties
        u8s(1),  // fallback_mode
        u8s(3),  // reserved
    ]
}

pub const UDP_PID: usize = 128;

pub const UDP_PNAME: usize = 132;

pub const UDP_EPID: usize = 196;

pub const UDP_SIZE: usize = 280;

/// Length of the process name field of both descriptors.
pub const PNAME_SIZE: usize = 64;

pub proof fn udp_descriptor_layout()
    ensures
        offset_of(udp_descriptor(), 11) == UDP_PID,
        offset_of(udp_descriptor(), 12) == UDP_PNAME,
        udp_descriptor()[12].size == PNAME_SIZE,
        offset_of(udp_descriptor(), 13) == UDP_EPID,
        size_of_struct(udp_descriptor()) == UDP_SIZE,
{
    reveal_with_fuel(end_of, 24);
}

} // verus!
