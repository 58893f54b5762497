//! Little-endian integer encodings, stated byte by byte and proved to invert.

use vstd::prelude::*;

verus! {

/// The two bytes of `v`, least significant first.
pub open spec fn le16(v: u16) -> Seq<u8> {
    seq![v as u8, (v >> 8) as u8]
}

/// The four bytes of `v`, least significant first.
pub open spec fn le32(v: u32) -> Seq<u8> {
    seq![v as u8, (v >> 8) as u8, (v >> 16) as u8, (v >> 24) as u8]
}

/// The eight bytes of `v`, least significant first.
pub open spec fn le64(v: u64) -> Seq<u8> {
    le32(v as u32) + le32((v >> 32) as u32)
}

/// The sixteen bytes of `v`, least significant first.
pub open spec fn le128(v: u128) -> Seq<u8> {
    le64(v as u64) + le64((v >> 64) as u64)
}

/// The integer whose little-endian bytes are the first two of `b`.
#[verifier::opaque]
pub open spec fn u16_at(b: Seq<u8>) -> u16 {
    (b[0] as u16) | ((b[1] as u16) << 8)
}

/// The integer whose little-endian bytes are the first four of `b`.
#[verifier::opaque]
pub open spec fn u32_at(b: Seq<u8>) -> u32 {
    (b[0] as u32) | ((b[1] as u32) << 8) | ((b[2] as u32) << 16) | ((b[3] as u32) << 24)
}

/// The integer whose little-endian bytes are the first eight of `b`.
#[verifier::opaque]
pub open spec fn u64_at(b: Seq<u8>) -> u64 {
    (u32_at(b) as u64) | ((u32_at(b.subrange(4, 8)) as u64) << 32)
}

/// The integer whose little-endian bytes are the first sixteen of `b`.
#[verifier::opaque]
pub open spec fn u128_at(b: Seq<u8>) -> u128 {
    (u64_at(b) as u128) | ((u64_at(b.subrange(8, 16)) as u128) << 64)
}

pub proof fn lemma_u16_round_trip(v: u16)
    ensures
        u16_at(le16(v)) == v,
{
    reveal(u16_at);
    let b = le16(v);
    let (b0, b1) = (b[0], b[1]);
    assert(b0 == v as u8 && b1 == (v >> 8) as u8);
    assert(((b0 as u16) | ((b1 as u16) << 8)) == v) by (bit_vector)
        requires
            b0 == v as u8,
            b1 == (v >> 8) as u8,
    ;
}

pub proof fn lemma_u32_round_trip(v: u32)
    ensures
        u32_at(le32(v)) == v,
{
    reveal(u32_at);
    let b = le32(v);
    let (b0, b1, b2, b3) = (b[0], b[1], b[2], b[3]);
    assert(((b0 as u32) | ((b1 as u32) << 8) | ((b2 as u32) << 16) | ((b3 as u32) << 24)) == v)
        by (bit_vector)
        requires
            b0 == v as u8,
            b1 == (v >> 8) as u8,
            b2 == (v >> 16) as u8,
            b3 == (v >> 24) as u8,
    ;
}

pub proof fn lemma_u64_round_trip(v: u64)
    ensures
        u64_at(le64(v)) == v,
{
    reveal(u64_at);
    reveal(u32_at);
    let b = le64(v);
    let lo = v as u32;
    let hi = (v >> 32) as u32;
    lemma_u32_round_trip(lo);
    lemma_u32_round_trip(hi);
    assert(b.subrange(4, 8) =~= le32(hi));
    assert(u32_at(b) == u32_at(le32(lo)));
    assert(((lo as u64) | ((hi as u64) << 32)) == v) by (bit_vector)
        requires
            lo == v as u32,
            hi == (v >> 32) as u32,
    ;
}

pub proof fn lemma_u128_round_trip(v: u128)
    ensures
        u128_at(le128(v)) == v,
{
    reveal(u128_at);
    reveal(u64_at);
    reveal(u32_at);
    let b = le128(v);
    let lo = v as u64;
    let hi = (v >> 64) as u64;
    lemma_u64_round_trip(lo);
    lemma_u64_round_trip(hi);
    assert(b.subrange(8, 16) =~= le64(hi));
    assert(b.subrange(0, 8) =~= le64(lo));
    assert(u64_at(b) == u64_at(le64(lo))) by {
        assert(b.subrange(4, 8) =~= le64(lo).subrange(4, 8));
    }
    assert(((lo as u128) | ((hi as u128) << 64)) == v) by (bit_vector)
        requires
            lo == v as u64,
            hi == (v >> 64) as u64,
    ;
}

/// Four bytes are the encoding of the integer they decode to.
pub proof fn lemma_u32_bytes(b: Seq<u8>)
    requires
        b.len() == 4,
    ensures
        le32(u32_at(b)) == b,
{
    reveal(u32_at);
    let (b0, b1, b2, b3) = (b[0], b[1], b[2], b[3]);
    let v = u32_at(b);
    assert(v as u8 == b0 && (v >> 8) as u8 == b1 && (v >> 16) as u8 == b2 && (v >> 24) as u8 == b3)
        by (bit_vector)
        requires
            v == (b0 as u32) | ((b1 as u32) << 8) | ((b2 as u32) << 16) | ((b3 as u32) << 24),
    ;
    assert(le32(v) =~= b);
}

/// Appends the little-endian bytes of `v`.
pub fn push_u16(out: &mut Vec<u8>, v: u16)
    ensures
        final(out)@ == old(out)@ + le16(v),
{
    out.push(v as u8);
    out.push((v >> 8) as u8);
    assert(final(out)@ =~= old(out)@ + le16(v));
}

/// Appends the little-endian bytes of `v`.
pub fn push_u32(out: &mut Vec<u8>, v: u32)
    ensures
        final(out)@ == old(out)@ + le32(v),
{
    out.push(v as u8);
    out.push((v >> 8) as u8);
    out.push((v >> 16) as u8);
    out.push((v >> 24) as u8);
    assert(final(out)@ =~= old(out)@ + le32(v));
}

/// Appends the little-endian bytes of `v`.
pub fn push_u64(out: &mut Vec<u8>, v: u64)
    ensures
        final(out)@ == old(out)@ + le64(v),
{
    push_u32(out, v as u32);
    push_u32(out, (v >> 32) as u32);
    assert(final(out)@ =~= old(out)@ + le64(v));
}

/// Appends the little-endian bytes of `v`.
pub fn push_u128(out: &mut Vec<u8>, v: u128)
    ensures
        final(out)@ == old(out)@ + le128(v),
{
    push_u64(out, v as u64);
    push_u64(out, (v >> 64) as u64);
    assert(final(out)@ =~= old(out)@ + le128(v));
}

/// The integer stored little-endian at `b[pos..pos + 2]`.
pub fn read_u16(b: &[u8], pos: usize) -> (r: u16)
    requires
        pos + 2 <= b@.len(),
    ensures
        r == u16_at(b@.subrange(pos as int, pos + 2)),
{
    reveal(u16_at);
    (b[pos] as u16) | ((b[pos + 1] as u16) << 8)
}

/// The integer stored little-endian at `b[pos..pos + 4]`.
pub fn read_u32(b: &[u8], pos: usize) -> (r: u32)
    requires
        pos + 4 <= b@.len(),
    ensures
        r == u32_at(b@.subrange(pos as int, pos + 4)),
{
    reveal(u32_at);
    (b[pos] as u32) | ((b[pos + 1] as u32) << 8) | ((b[pos + 2] as u32) << 16) | ((b[pos + 3]
        as u32) << 24)
}

/// The integer stored little-endian at `b[pos..pos + 8]`.
pub fn read_u64(b: &[u8], pos: usize) -> (r: u64)
    requires
        pos + 8 <= b@.len(),
    ensures
        r == u64_at(b@.subrange(pos as int, pos + 8)),
{
    reveal(u64_at);
    reveal(u32_at);
    let lo = read_u32(b, pos);
    assert(b@.len() == b.len());
    let hi = read_u32(b, pos + 4);
    assert(b@.subrange(pos as int, pos + 8).subrange(4, 8) =~= b@.subrange(pos + 4, pos + 8));
    assert(b@.subrange(pos as int, pos + 8).subrange(0, 4) =~= b@.subrange(pos as int, pos + 4));
    (lo as u64) | ((hi as u64) << 32)
}

/// The integer stored little-endian at `b[pos..pos + 16]`.
pub fn read_u128(b: &[u8], pos: usize) -> (r: u128)
    requires
        pos + 16 <= b@.len(),
    ensures
        r == u128_at(b@.subrange(pos as int, pos + 16)),
{
    reveal(u128_at);
    reveal(u64_at);
    reveal(u32_at);
    let lo = read_u64(b, pos);
    assert(b@.len() == b.len());
    let hi = read_u64(b, pos + 8);
    let ghost s = b@.subrange(pos as int, pos + 16);
    assert(s.subrange(8, 16) =~= b@.subrange(pos + 8, pos + 16));
    assert(s.subrange(0, 4) =~= b@.subrange(pos as int, pos + 4));
    assert(s.subrange(4, 8) =~= b@.subrange(pos + 4, pos + 8));
    assert(b@.subrange(pos as int, pos + 8).subrange(4, 8) =~= b@.subrange(pos + 4, pos + 8));
    assert(b@.subrange(pos as int, pos + 8).subrange(0, 4) =~= b@.subrange(pos as int, pos + 4));
    (lo as u128) | ((hi as u128) << 64)
}

/// Overwrites `out[pos..pos + 8]` with the little-endian bytes of `v`.
pub fn set_u64(out: &mut Vec<u8>, pos: usize, v: u64)
    requires
        pos + 8 <= old(out)@.len(),
    ensures
        final(out)@ == old(out)@.subrange(0, pos as int) + le64(v) + old(out)@.subrange(
            pos + 8,
            old(out)@.len() as int,
        ),
{
    let _len = out.len();
    let lo = v as u32;
    let hi = (v >> 32) as u32;
    out.set(pos, lo as u8);
    out.set(pos + 1, (lo >> 8) as u8);
    out.set(pos + 2, (lo >> 16) as u8);
    out.set(pos + 3, (lo >> 24) as u8);
    out.set(pos + 4, hi as u8);
    out.set(pos + 5, (hi >> 8) as u8);
    out.set(pos + 6, (hi >> 16) as u8);
    out.set(pos + 7, (hi >> 24) as u8);
    assert(out@ =~= old(out)@.subrange(0, pos as int) + le64(v) + old(out)@.subrange(
        pos + 8,
        old(out)@.len() as int,
    ));
}

/// Whether two byte strings are equal.
pub fn same_bytes(a: &[u8], b: &[u8]) -> (r: bool)
    ensures
        r == (a@ == b@),
{
    if a.len() != b.len() {
        return false;
    }
    let mut i: usize = 0;
    while i < a.len()
        invariant
            a@.len() == b@.len(),
            i <= a@.len(),
            forall|k: int| 0 <= k < i ==> a@[k] == b@[k],
        decreases a@.len() - i,
    {
        if a[i] != b[i] {
            return false;
        }
        i = i + 1;
    }
    assert(a@ =~= b@);
    true
}

} // verus!
