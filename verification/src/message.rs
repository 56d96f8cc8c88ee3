//! The messages of the kernel's network statistics protocol, revision 9.
use vstd::prelude::*;

use crate::bytes::{
    push_u16, push_u32, push_u64, push_zeros, read_u16, read_u32, read_u64, u16_at, u16_bytes,
    u32_at, u32_bytes, u64_at, u64_bytes, zeros,
};
use crate::layout::{
    HDR_FLAGS, HDR_LENGTH, HDR_SIZE, HDR_TYPE, PNAME_SIZE, TCP_EPID, TCP_PID, TCP_PNAME, TCP_SIZE,
    UDP_EPID, UDP_PID, UDP_PNAME, UDP_SIZE, UPDATE_PROVIDER, UPDATE_RXBYTES, UPDATE_SIZE,
    UPDATE_SRCREF, UPDATE_TXBYTES,
};

verus! {

pub const PROVIDER_TCP_KERNEL: u32 = 2;

pub const PROVIDER_TCP_USERLAND: u32 = 3;

pub const PROVIDER_UDP_KERNEL: u32 = 4;

pub const PROVIDER_UDP_USERLAND: u32 = 5;

pub const MSG_TYPE_ERROR: u32 = 1;

pub const MSG_TYPE_ADD_ALL_SRCS: u32 = 1002;

pub const MSG_TYPE_GET_UPDATE: u32 = 1007;

pub const MSG_TYPE_SRC_UPDATE: u32 = 10006;

/// Stands for every source in a request.
pub const SRC_REF_ALL: u64 = 0xffff_ffff_ffff_ffff;

/// More fragments follow for the same request.
pub const HDR_FLAG_CONTINUATION: u16 = 2;

/// The most that the kernel sends at once.
pub const MAX_MSG_SIZE: usize = 4096;

pub const ADD_ALL_SRCS_SIZE: u16 = 56;

pub const GET_UPDATE_SIZE: u16 = 24;

/// One source's data from a single poll: a TCP or UDP flow attributed to a process.
#[derive(Debug, Clone)]
pub struct SourceSample {
    pub srcref: u64,
    pub pid: u32,
    pub epid: u32,
    pub pname: String,
    pub rx_bytes: u64,
    pub tx_bytes: u64,
}

/// What a [`SourceSample`] says.
pub struct Sample {
    pub srcref: u64,
    pub pid: u32,
    pub epid: u32,
    pub pname: Seq<char>,
    pub rx_bytes: u64,
    pub tx_bytes: u64,
}

impl View for SourceSample {
    type V = Sample;

    open spec fn view(&self) -> Sample {
        Sample {
            srcref: self.srcref,
            pid: self.pid,
            epid: self.epid,
            pname: self.pname@,
            rx_bytes: self.rx_bytes,
            tx_bytes: self.tx_bytes,
        }
    }
}

/// The samples of a list, in its order.
pub open spec fn sample_views(samples: Seq<SourceSample>) -> Seq<Sample> {
    Seq::new(samples.len(), |i: int| samples[i]@)
}

/// The number of bytes before the first NUL, or all of them.
pub open spec fn nul_index(bytes: Seq<u8>) -> nat
    decreases bytes.len(),
{
    if bytes.len() == 0 || bytes[0] == 0 {
        0
    } else {
        1 + nul_index(bytes.drop_first())
    }
}

/// What a C string in a field of fixed size holds.
pub open spec fn c_string(bytes: Seq<u8>) -> Seq<u8> {
    bytes.take(nul_index(bytes) as int)
}

proof fn lemma_nul_index(bytes: Seq<u8>, n: int)
    requires
        0 <= n <= bytes.len(),
        forall|i: int| 0 <= i < n ==> bytes[i] != 0,
        n < bytes.len() ==> bytes[n] == 0,
    ensures
        nul_index(bytes) == n,
    decreases bytes.len(),
{
    if n > 0 {
        let rest = bytes.drop_first();
        assert forall|i: int| 0 <= i < n - 1 implies rest[i] != 0 by {
            assert(rest[i] == bytes[i + 1]);
        }
        lemma_nul_index(rest, n - 1);
    }
}

/// The text that the standard library makes of bytes that need not be UTF-8.
pub uninterp spec fn utf8_lossy(bytes: Seq<u8>) -> Seq<char>;

/// Calls `String::from_utf8_lossy`. Its result depends on the bytes alone; bytes that are valid
/// UTF-8 are decoded as they are, and in others a replacement character stands for what is invalid,
/// so that a NUL comes from a zero byte only. How many replacement characters there are, and where,
/// is left to the name.
#[verifier::external_body]
fn string_from_utf8_lossy(bytes: &[u8]) -> (s: String)
    ensures
        s@ == utf8_lossy(bytes@),
        vstd::utf8::valid_utf8(bytes@) ==> s@ == vstd::utf8::decode_utf8(bytes@),
        !vstd::utf8::valid_utf8(bytes@) ==> s@.contains('\u{fffd}'),
        !vstd::utf8::valid_utf8(bytes@) && !bytes@.contains(0) ==> !s@.contains('\0'),
{
    String::from_utf8_lossy(bytes).into_owned()
}

/// UTF-8 without a zero byte decodes to text without a NUL.
proof fn lemma_decodes_without_nul(bytes: Seq<u8>)
    requires
        vstd::utf8::valid_utf8(bytes),
        forall|i: int| 0 <= i < bytes.len() ==> bytes[i] != 0,
    ensures
        !vstd::utf8::decode_utf8(bytes).contains('\0'),
    decreases bytes.len(),
{
    if bytes.len() > 0 {
        let rest = vstd::utf8::pop_first_scalar(bytes);
        let n = vstd::utf8::length_of_first_scalar(bytes);
        assert forall|i: int| 0 <= i < rest.len() implies rest[i] != 0 by {
            assert(rest[i] == bytes[n + i]);
        }
        lemma_decodes_without_nul(rest);
        vstd::utf8::decode_utf8_first_scalar(bytes);
        assert(vstd::utf8::take_first_scalar(bytes)[0] == bytes[0]);
        assert(0u32 & 0x7f == 0) by (bit_vector);
        assert(vstd::utf8::encode_scalar(0)[0] == 0);
        let text = vstd::utf8::decode_utf8(bytes);
        let tail = vstd::utf8::decode_utf8(rest);
        assert forall|i: int| 0 <= i < text.len() implies text[i] != '\0' by {
            if i > 0 {
                assert(text[i] == tail[i - 1]);
                assert(tail.contains(tail[i - 1]));
            }
        }
    }
}

/// A name stops in front of its first NUL, and only there. Where it is valid UTF-8 its text is its
/// own bytes decoded, and holds no NUL.
pub proof fn names_hold_no_nul(bytes: Seq<u8>)
    ensures
        nul_index(bytes) <= bytes.len(),
        forall|i: int| 0 <= i < c_string(bytes).len() ==> #[trigger] c_string(bytes)[i] != 0,
        c_string(bytes).len() < bytes.len() ==> bytes[c_string(bytes).len() as int] == 0,
        vstd::utf8::valid_utf8(c_string(bytes)) ==> {
            let text = vstd::utf8::decode_utf8(c_string(bytes));
            &&& !text.contains('\0')
            &&& vstd::utf8::encode_utf8(text) == c_string(bytes)
        },
{
    lemma_c_string(bytes);
    if vstd::utf8::valid_utf8(c_string(bytes)) {
        lemma_decodes_without_nul(c_string(bytes));
        vstd::utf8::decode_utf8_encode_utf8(c_string(bytes));
    }
}

proof fn lemma_c_string(bytes: Seq<u8>)
    ensures
        nul_index(bytes) <= bytes.len(),
        forall|i: int| 0 <= i < c_string(bytes).len() ==> #[trigger] c_string(bytes)[i] != 0,
        c_string(bytes).len() < bytes.len() ==> bytes[c_string(bytes).len() as int] == 0,
    decreases bytes.len(),
{
    if bytes.len() > 0 && bytes[0] != 0 {
        let rest = bytes.drop_first();
        lemma_c_string(rest);
        assert forall|i: int| 0 <= i < c_string(bytes).len() implies #[trigger] c_string(bytes)[i]
            != 0 by {
            if i > 0 {
                assert(c_string(bytes)[i] == c_string(rest)[i - 1]);
            }
        }
    }
}

/// What follows the first NUL makes no difference to a name, and a field without a NUL is kept
/// whole.
pub proof fn names_end_at_the_first_nul(name: Seq<u8>, rest: Seq<u8>)
    requires
        !name.contains(0),
    ensures
        c_string(name) == name,
        c_string(name + seq![0u8] + rest) == name,
        utf8_lossy(c_string(name + seq![0u8] + rest)) == utf8_lossy(c_string(name)),
{
    let field = name + seq![0u8] + rest;
    assert forall|i: int| 0 <= i < name.len() implies name[i] != 0 by {
        assert(name.contains(name[i]));
    }
    lemma_nul_index(name, name.len() as int);
    lemma_nul_index(field, name.len() as int);
    assert(c_string(name) =~= name);
    assert(c_string(field) =~= name);
}

/// What there is to say of the text of a name that holds no zero byte: valid UTF-8 is decoded as it
/// is, and can be encoded again; in other names something is replaced; no text holds a NUL.
pub open spec fn is_told_by(text: Seq<char>, name: Seq<u8>) -> bool {
    &&& text == utf8_lossy(name)
    &&& vstd::utf8::valid_utf8(name) ==> text == vstd::utf8::decode_utf8(name)
    &&& vstd::utf8::valid_utf8(name) ==> vstd::utf8::encode_utf8(text) == name
    &&& !vstd::utf8::valid_utf8(name) ==> text.contains('\u{fffd}')
    &&& !text.contains('\0')
}

/// The text in front of the first NUL.
pub fn cstr_bytes_to_string(bytes: &[u8]) -> (s: String)
    ensures
        is_told_by(s@, c_string(bytes@)),
{
    let mut end: usize = 0;
    while end < bytes.len() && bytes[end] != 0
        invariant
            end <= bytes.len(),
            forall|i: int| 0 <= i < end ==> bytes@[i] != 0,
        decreases bytes.len() - end,
    {
        end += 1;
    }
    proof {
        lemma_nul_index(bytes@, end as int);
    }
    let text = vstd::slice::slice_subrange(bytes, 0, end);
    assert(text@ =~= c_string(bytes@));
    proof {
        names_hold_no_nul(bytes@);
    }
    string_from_utf8_lossy(text)
}

/// The fields that matter of a source update, with the process name as the kernel wrote it.
#[derive(Debug, Clone, Copy)]
pub struct SrcUpdate<'a> {
    pub srcref: u64,
    pub pid: u32,
    pub epid: u32,
    pub pname: &'a [u8],
    pub rx_bytes: u64,
    pub tx_bytes: u64,
}

/// What a [`SrcUpdate`] says.
pub struct RawSample {
    pub srcref: u64,
    pub pid: u32,
    pub epid: u32,
    pub pname: Seq<u8>,
    pub rx_bytes: u64,
    pub tx_bytes: u64,
}

impl<'a> View for SrcUpdate<'a> {
    type V = RawSample;

    open spec fn view(&self) -> RawSample {
        RawSample {
            srcref: self.srcref,
            pid: self.pid,
            epid: self.epid,
            pname: self.pname@,
            rx_bytes: self.rx_bytes,
            tx_bytes: self.tx_bytes,
        }
    }
}

impl RawSample {
    /// The sample, once its name is known.
    pub open spec fn named(self, pname: Seq<char>) -> Sample {
        Sample {
            srcref: self.srcref,
            pid: self.pid,
            epid: self.epid,
            pname,
            rx_bytes: self.rx_bytes,
            tx_bytes: self.tx_bytes,
        }
    }
}

impl<'a> SrcUpdate<'a> {
    /// The sample, once its name is known.
    pub fn named(&self, pname: String) -> (s: SourceSample)
        ensures
            s@ == self@.named(pname@),
    {
        SourceSample {
            srcref: self.srcref,
            pid: self.pid,
            epid: self.epid,
            pname,
            rx_bytes: self.rx_bytes,
            tx_bytes: self.tx_bytes,
        }
    }
}

pub open spec fn is_tcp(provider: nat) -> bool {
    provider == PROVIDER_TCP_KERNEL || provider == PROVIDER_TCP_USERLAND
}

pub open spec fn is_udp(provider: nat) -> bool {
    provider == PROVIDER_UDP_KERNEL || provider == PROVIDER_UDP_USERLAND
}

/// What a source update says, if it is whole and about a TCP or UDP source: a header that holds the
/// counters, then the provider's descriptor.
pub open spec fn raw_sample(msg: Seq<u8>) -> Option<RawSample> {
    if msg.len() < UPDATE_SIZE {
        None
    } else {
        let data = msg.skip(UPDATE_SIZE as int);
        let provider = u32_at(msg, UPDATE_PROVIDER as int);
        let (size, pid, epid, pname) = if is_tcp(provider) {
            (TCP_SIZE, TCP_PID, TCP_EPID, TCP_PNAME)
        } else {
            (UDP_SIZE, UDP_PID, UDP_EPID, UDP_PNAME)
        };
        if !is_tcp(provider) && !is_udp(provider) || data.len() < size {
            None
        } else {
            Some(
                RawSample {
                    srcref: u64_at(msg, UPDATE_SRCREF as int) as u64,
                    pid: u32_at(data, pid as int) as u32,
                    epid: u32_at(data, epid as int) as u32,
                    pname: data.subrange(pname as int, pname + PNAME_SIZE),
                    rx_bytes: u64_at(msg, UPDATE_RXBYTES as int) as u64,
                    tx_bytes: u64_at(msg, UPDATE_TXBYTES as int) as u64,
                },
            )
        }
    }
}

/// The same with the name as text.
pub open spec fn sample_of(msg: Seq<u8>) -> Option<Sample> {
    match raw_sample(msg) {
        Some(r) => Some(r.named(utf8_lossy(c_string(r.pname)))),
        None => None,
    }
}

/// Reads a source update, but for the process name, which stays in bytes.
pub fn read_src_update(msg: &[u8]) -> (r: Option<SrcUpdate<'_>>)
    ensures
        match r {
            Some(u) => raw_sample(msg@) == Some(u@),
            None => raw_sample(msg@) is None,
        },
{
    if msg.len() < UPDATE_SIZE {
        return None;
    }
    let data = vstd::slice::slice_subrange(msg, UPDATE_SIZE, msg.len());
    assert(data@ =~= msg@.skip(UPDATE_SIZE as int));
    let provider = read_u32(msg, UPDATE_PROVIDER);
    let (pid, epid, pname): (u32, u32, &[u8]) = match provider {
        PROVIDER_TCP_KERNEL | PROVIDER_TCP_USERLAND => {
            if data.len() < TCP_SIZE {
                return None;
            }
            (
                read_u32(data, TCP_PID),
                read_u32(data, TCP_EPID),
                vstd::slice::slice_subrange(data, TCP_PNAME, TCP_PNAME + PNAME_SIZE),
            )
        },
        PROVIDER_UDP_KERNEL | PROVIDER_UDP_USERLAND => {
            if data.len() < UDP_SIZE {
                return None;
            }
            (
                read_u32(data, UDP_PID),
                read_u32(data, UDP_EPID),
                vstd::slice::slice_subrange(data, UDP_PNAME, UDP_PNAME + PNAME_SIZE),
            )
        },
        _ => return None,
    };
    Some(
        SrcUpdate {
            srcref: read_u64(msg, UPDATE_SRCREF),
            pid,
            epid,
            pname,
            rx_bytes: read_u64(msg, UPDATE_RXBYTES),
            tx_bytes: read_u64(msg, UPDATE_TXBYTES),
        },
    )
}

/// Reads a source update.
pub fn parse_src_update(msg: &[u8]) -> (r: Option<SourceSample>)
    ensures
        match r {
            Some(s) => sample_of(msg@) == Some(s@),
            None => sample_of(msg@) is None,
        },
        r matches Some(s) ==> is_told_by(s.pname@, c_string(raw_sample(msg@).unwrap().pname)),
{
    match read_src_update(msg) {
        Some(u) => {
            let pname = cstr_bytes_to_string(u.pname);
            Some(u.named(pname))
        },
        None => None,
    }
}

/// The messages that a datagram carries one behind the other. Each is as long as its own header
/// says; what follows a length that cannot be is left out.
pub open spec fn frames(datagram: Seq<u8>) -> Seq<Seq<u8>>
    decreases datagram.len(),
{
    if datagram.len() < HDR_SIZE {
        Seq::empty()
    } else {
        let n = u16_at(datagram, HDR_LENGTH as int) as int;
        if n < HDR_SIZE || n > datagram.len() {
            Seq::empty()
        } else {
            seq![datagram.take(n)] + frames(datagram.skip(n))
        }
    }
}

pub open spec fn msg_type(msg: Seq<u8>) -> nat {
    u32_at(msg, HDR_TYPE as int)
}

/// Whether a message announces more fragments.
pub open spec fn is_continued(msg: Seq<u8>) -> bool {
    u16_at(msg, HDR_FLAGS as int) / 2 % 2 == 1
}

/// The sample in a message, if any.
pub open spec fn sample_in(msg: Seq<u8>) -> Option<Sample> {
    if msg_type(msg) == MSG_TYPE_SRC_UPDATE {
        sample_of(msg)
    } else {
        None
    }
}

/// The error number in a message, if any.
pub open spec fn error_in(msg: Seq<u8>) -> Option<u32> {
    if msg_type(msg) == MSG_TYPE_ERROR && msg.len() >= 20 {
        Some(u32_at(msg, 16) as u32)
    } else {
        None
    }
}

/// The samples in some messages, in their order.
pub open spec fn samples_in(msgs: Seq<Seq<u8>>) -> Seq<Sample>
    decreases msgs.len(),
{
    if msgs.len() == 0 {
        Seq::empty()
    } else {
        let earlier = samples_in(msgs.drop_last());
        match sample_in(msgs.last()) {
            Some(s) => earlier.push(s),
            None => earlier,
        }
    }
}

/// The error numbers in some messages, in their order.
pub open spec fn errors_in(msgs: Seq<Seq<u8>>) -> Seq<u32>
    decreases msgs.len(),
{
    if msgs.len() == 0 {
        Seq::empty()
    } else {
        let earlier = errors_in(msgs.drop_last());
        match error_in(msgs.last()) {
            Some(e) => earlier.push(e),
            None => earlier,
        }
    }
}

/// Whether any of some messages announces more fragments.
pub open spec fn any_continued(msgs: Seq<Seq<u8>>) -> bool {
    exists|i: int| 0 <= i < msgs.len() && is_continued(#[trigger] msgs[i])
}

/// Whether the name in each message that holds a sample is told by its bytes.
pub open spec fn names_are_told(msgs: Seq<Seq<u8>>) -> bool {
    forall|i: int|
        0 <= i < msgs.len() && sample_in(#[trigger] msgs[i]) is Some ==> is_told_by(
            sample_in(msgs[i]).unwrap().pname,
            c_string(raw_sample(msgs[i]).unwrap().pname),
        )
}

/// Whether no name holds a NUL.
pub open spec fn names_without_nul(samples: Seq<Sample>) -> bool {
    forall|i: int| 0 <= i < samples.len() ==> !(#[trigger] samples[i]).pname.contains('\0')
}

/// What one datagram says.
pub struct Datagram {
    pub samples: Vec<SourceSample>,
    /// The error numbers of the kernel's error messages.
    pub errors: Vec<u32>,
    /// Whether more fragments follow.
    pub more: bool,
}

/// Walks the messages of a datagram.
pub fn read_datagram(datagram: &[u8]) -> (d: Datagram)
    ensures
        sample_views(d.samples@) == samples_in(frames(datagram@)),
        d.errors@ == errors_in(frames(datagram@)),
        d.more == any_continued(frames(datagram@)),
        names_are_told(frames(datagram@)),
        names_without_nul(samples_in(frames(datagram@))),
{
    let mut samples: Vec<SourceSample> = Vec::new();
    let mut errors: Vec<u32> = Vec::new();
    let mut more = false;
    let mut offset: usize = 0;
    let ghost mut done: Seq<Seq<u8>> = Seq::empty();
    let n: usize = datagram.len();
    assert(datagram@.skip(0) =~= datagram@);
    assert(done + frames(datagram@) =~= frames(datagram@));
    assert(sample_views(samples@) =~= samples_in(done));
    while n - offset >= HDR_SIZE
        invariant
            n == datagram@.len(),
            offset <= n,
            done + frames(datagram@.skip(offset as int)) == frames(datagram@),
            sample_views(samples@) == samples_in(done),
            errors@ == errors_in(done),
            more == any_continued(done),
            names_are_told(done),
            names_without_nul(samples_in(done)),
        ensures
            done == frames(datagram@),
            sample_views(samples@) == samples_in(done),
            errors@ == errors_in(done),
            more == any_continued(done),
            names_are_told(done),
            names_without_nul(samples_in(done)),
        decreases n - offset,
    {
        let rest = vstd::slice::slice_subrange(datagram, offset, n);
        assert(rest@ =~= datagram@.skip(offset as int));
        let msg_len: usize = read_u16(rest, HDR_LENGTH) as usize;
        if msg_len < HDR_SIZE || msg_len > n - offset {
            assert(done + Seq::<Seq<u8>>::empty() =~= done);
            break;
        }
        let msg = vstd::slice::slice_subrange(rest, 0, msg_len);
        let ghost before = done;
        proof {
            assert(msg@ =~= rest@.take(msg_len as int));
            done = before.push(msg@);
            assert(done.drop_last() =~= before);
            assert(done + frames(rest@.skip(msg_len as int)) =~= before + (seq![msg@] + frames(
                rest@.skip(msg_len as int),
            )));
            assert(rest@.skip(msg_len as int) =~= datagram@.skip(offset + msg_len));
        }
        let flags: u16 = read_u16(msg, HDR_FLAGS);
        assert((flags & 2 != 0) == (flags / 2 % 2 == 1)) by (bit_vector);
        if flags & HDR_FLAG_CONTINUATION != 0 {
            more = true;
        }
        proof {
            assert(is_continued(msg@) == (flags & 2 != 0));
            assert(done[done.len() - 1] == msg@);
            if any_continued(before) {
                let i = choose|i: int|
                    0 <= i < before.len() && is_continued(#[trigger] before[i]);
                assert(done[i] == before[i]);
            }
            if any_continued(done) && !is_continued(msg@) {
                let i = choose|i: int| 0 <= i < done.len() && is_continued(#[trigger] done[i]);
                assert(before[i] == done[i]);
            }
        }
        let kind: u32 = read_u32(msg, HDR_TYPE);
        if kind == MSG_TYPE_SRC_UPDATE {
            if let Some(sample) = parse_src_update(msg) {
                samples.push(sample);
            }
        } else if kind == MSG_TYPE_ERROR && msg_len >= 20 {
            errors.push(read_u32(msg, 16));
        }
        assert(sample_views(samples@) =~= samples_in(done));
        proof {
            assert forall|i: int| 0 <= i < done.len() && sample_in(
                #[trigger] done[i],
            ) is Some implies is_told_by(
                sample_in(done[i]).unwrap().pname,
                c_string(raw_sample(done[i]).unwrap().pname),
            ) by {
                if i < before.len() {
                    assert(done[i] == before[i]);
                }
            }
            assert forall|i: int| 0 <= i < samples_in(done).len() implies !(
            #[trigger] samples_in(done)[i]).pname.contains('\0') by {
                if i < samples_in(before).len() {
                    assert(samples_in(done)[i] == samples_in(before)[i]);
                }
            }
        }
        offset += msg_len;
    }
    Datagram { samples, errors, more }
}

/// A message header.
pub open spec fn hdr_bytes(context: u64, kind: u32, length: u16) -> Seq<u8> {
    u64_bytes(context as nat) + u32_bytes(kind as nat) + u16_bytes(length as nat) + u16_bytes(0)
}

/// The request to report every source of a provider: no filter, no events, any process.
pub open spec fn add_all_srcs_bytes(context: u64, provider: u32) -> Seq<u8> {
    hdr_bytes(context, MSG_TYPE_ADD_ALL_SRCS, ADD_ALL_SRCS_SIZE) + u64_bytes(0) + u64_bytes(0)
        + u32_bytes(provider as nat) + u32_bytes(0) + zeros(16)
}

/// The request for the counters and descriptors of every source.
pub open spec fn get_update_bytes(context: u64) -> Seq<u8> {
    hdr_bytes(context, MSG_TYPE_GET_UPDATE, GET_UPDATE_SIZE) + u64_bytes(SRC_REF_ALL as nat)
}

fn push_hdr(out: &mut Vec<u8>, context: u64, kind: u32, length: u16)
    ensures
        final(out)@ == old(out)@ + hdr_bytes(context, kind, length),
{
    push_u64(out, context);
    push_u32(out, kind);
    push_u16(out, length);
    push_u16(out, 0);
    assert(out@ =~= old(out)@ + hdr_bytes(context, kind, length));
}

pub fn add_all_srcs_request(context: u64, provider: u32) -> (req: Vec<u8>)
    ensures
        req@ == add_all_srcs_bytes(context, provider),
        req@.len() == ADD_ALL_SRCS_SIZE,
{
    let mut req: Vec<u8> = Vec::new();
    push_hdr(&mut req, context, MSG_TYPE_ADD_ALL_SRCS, ADD_ALL_SRCS_SIZE);
    push_u64(&mut req, 0);
    push_u64(&mut req, 0);
    push_u32(&mut req, provider);
    push_u32(&mut req, 0);
    push_zeros(&mut req, 16);
    assert(req@ =~= add_all_srcs_bytes(context, provider));
    req
}

pub fn get_update_request(context: u64) -> (req: Vec<u8>)
    ensures
        req@ == get_update_bytes(context),
        req@.len() == GET_UPDATE_SIZE,
{
    let mut req: Vec<u8> = Vec::new();
    push_hdr(&mut req, context, MSG_TYPE_GET_UPDATE, GET_UPDATE_SIZE);
    push_u64(&mut req, SRC_REF_ALL);
    assert(req@ =~= get_update_bytes(context));
    req
}

} // verus!
