//! Little-endian integers in byte strings: the byte order of every machine that the kernel
//! interface exists on.
use vstd::prelude::*;

verus! {

pub open spec fn u16_at(s: Seq<u8>, i: int) -> nat {
    s[i] as nat + 0x100 * s[i + 1] as nat
}

pub open spec fn u32_at(s: Seq<u8>, i: int) -> nat {
    u16_at(s, i) + 0x1_0000 * u16_at(s, i + 2)
}

pub open spec fn u64_at(s: Seq<u8>, i: int) -> nat {
    u32_at(s, i) + 0x1_0000_0000 * u32_at(s, i + 4)
}

pub open spec fn u16_bytes(x: nat) -> Seq<u8> {
    seq![(x % 0x100) as u8, (x / 0x100 % 0x100) as u8]
}

pub open spec fn u32_bytes(x: nat) -> Seq<u8> {
    u16_bytes(x % 0x1_0000) + u16_bytes(x / 0x1_0000)
}

pub open spec fn u64_bytes(x: nat) -> Seq<u8> {
    u32_bytes(x % 0x1_0000_0000) + u32_bytes(x / 0x1_0000_0000)
}

pub open spec fn zeros(n: nat) -> Seq<u8> {
    Seq::new(n, |i: int| 0u8)
}

/// An integer that was written is read back, wherever it stands.
pub proof fn integers_read_back(before: Seq<u8>, x: nat, after: Seq<u8>)
    ensures
        x < 0x1_0000 ==> u16_at(before + u16_bytes(x) + after, before.len() as int) == x,
        x < 0x1_0000_0000 ==> u32_at(before + u32_bytes(x) + after, before.len() as int) == x,
        x < 0x1_0000_0000_0000_0000 ==> u64_at(
            before + u64_bytes(x) + after,
            before.len() as int,
        ) == x,
{
    lemma_u16_reads_back(before, x, after);
    if x < 0x1_0000_0000 {
        lemma_u32_reads_back(before, x, after);
    }
    if x < 0x1_0000_0000_0000_0000 {
        let lo = x % 0x1_0000_0000;
        let hi = x / 0x1_0000_0000;
        lemma_u32_reads_back(before, lo, u32_bytes(hi) + after);
        lemma_u32_reads_back(before + u32_bytes(lo), hi, after);
        assert(before + u64_bytes(x) + after =~= before + u32_bytes(lo) + (u32_bytes(hi) + after));
        assert(before + u64_bytes(x) + after =~= (before + u32_bytes(lo)) + u32_bytes(hi) + after);
    }
}

proof fn lemma_u16_reads_back(before: Seq<u8>, x: nat, after: Seq<u8>)
    ensures
        x < 0x1_0000 ==> u16_at(before + u16_bytes(x) + after, before.len() as int) == x,
{
    let s = before + u16_bytes(x) + after;
    assert(s[before.len() as int] == u16_bytes(x)[0]);
    assert(s[before.len() as int + 1] == u16_bytes(x)[1]);
}

proof fn lemma_u32_reads_back(before: Seq<u8>, x: nat, after: Seq<u8>)
    requires
        x < 0x1_0000_0000,
    ensures
        u32_at(before + u32_bytes(x) + after, before.len() as int) == x,
{
    let lo = x % 0x1_0000;
    let hi = x / 0x1_0000;
    lemma_u16_reads_back(before, lo, u16_bytes(hi) + after);
    lemma_u16_reads_back(before + u16_bytes(lo), hi, after);
    assert(before + u32_bytes(x) + after =~= before + u16_bytes(lo) + (u16_bytes(hi) + after));
    assert(before + u32_bytes(x) + after =~= (before + u16_bytes(lo)) + u16_bytes(hi) + after);
}

pub fn read_u16(s: &[u8], i: usize) -> (x: u16)
    requires
        i + 2 <= s@.len(),
    ensures
        x == u16_at(s@, i as int),
{
    s[i] as u16 + 0x100 * s[i + 1] as u16
}

pub fn read_u32(s: &[u8], i: usize) -> (x: u32)
    requires
        i + 4 <= s@.len(),
    ensures
        x == u32_at(s@, i as int),
{
    assert(s.len() <= usize::MAX);
    read_u16(s, i) as u32 + 0x1_0000 * read_u16(s, i + 2) as u32
}

pub fn read_u64(s: &[u8], i: usize) -> (x: u64)
    requires
        i + 8 <= s@.len(),
    ensures
        x == u64_at(s@, i as int),
{
    assert(s.len() <= usize::MAX);
    read_u32(s, i) as u64 + 0x1_0000_0000 * read_u32(s, i + 4) as u64
}

pub fn push_u16(out: &mut Vec<u8>, x: u16)
    ensures
        final(out)@ == old(out)@ + u16_bytes(x as nat),
{
    out.push((x % 0x100) as u8);
    out.push((x / 0x100) as u8);
    assert(out@ =~= old(out)@ + u16_bytes(x as nat));
}

pub fn push_u32(out: &mut Vec<u8>, x: u32)
    ensures
        final(out)@ == old(out)@ + u32_bytes(x as nat),
{
    push_u16(out, (x % 0x1_0000) as u16);
    push_u16(out, (x / 0x1_0000) as u16);
    assert(out@ =~= old(out)@ + u32_bytes(x as nat));
}

pub fn push_u64(out: &mut Vec<u8>, x: u64)
    ensures
        final(out)@ == old(out)@ + u64_bytes(x as nat),
{
    push_u32(out, (x % 0x1_0000_0000) as u32);
    push_u32(out, (x / 0x1_0000_0000) as u32);
    assert(out@ =~= old(out)@ + u64_bytes(x as nat));
}

pub fn push_zeros(out: &mut Vec<u8>, n: usize)
    ensures
        final(out)@ == old(out)@ + zeros(n as nat),
{
    let ghost start = out@;
    let mut i: usize = 0;
    assert(out@ =~= start + zeros(0));
    while i < n
        invariant
            i <= n,
            out@ == start + zeros(i as nat),
        decreases n - i,
    {
        out.push(0);
        i += 1;
        assert(out@ =~= start + zeros(i as nat));
    }
}

} // verus!
