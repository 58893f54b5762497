//! The on-disk format of a cube: a fixed header followed by checksummed
//! record frames.
//!
//! Header (16 bytes): `AKLA`, version `1` (u16), the next id to assign (u64),
//! two zero bytes. Frame: `len_total` (u32, bytes of payload and checksum),
//! the payload, then the CRC-32 of the payload (u32). Payload: timestamp
//! (u128), id (u64), phenomenon length (u16), noumenon length (u16), then the
//! two strings as UTF-8. Every integer is little-endian.

use vstd::prelude::*;
use vstd::slice::slice_subrange;
use vstd::utf8::*;

use crate::bytes::{
    le128, le16, le32, le64, lemma_u128_round_trip, lemma_u16_round_trip, lemma_u32_round_trip,
    lemma_u64_round_trip, push_u128, push_u16, push_u32, push_u64, read_u128, read_u16, read_u32,
    read_u64, u128_at, u16_at, u32_at, u64_at,
};
use crate::event::{Event, EventModel};

verus! {

/// Length of the header in bytes.
pub const HEADER_LEN: usize = 16;

/// Offset of the persisted next id within the header.
pub const NEXT_ID_OFFSET: usize = 6;

/// The one format version understood here.
pub const VERSION: u16 = 1;

/// Fixed part of a payload: timestamp, id and the two string lengths.
pub const PAYLOAD_FIXED: usize = 28;

/// Shortest acceptable `len_total`: the fixed payload and the checksum.
pub const MIN_LEN_TOTAL: u32 = 32;

/// Longest string a record can hold, in bytes.
pub const MAX_FIELD: usize = 65535;

/// The CRC-32 (ISO-HDLC polynomial) of a byte sequence.
pub uninterp spec fn crc32_of(b: Seq<u8>) -> u32;

/// Relies on `crc32fast::hash`: the CRC-32 (ISO-HDLC) checksum of `b`, which
/// depends on the bytes alone.
#[verifier::external_body]
pub(crate) fn crc32(b: &[u8]) -> (r: u32)
    ensures
        r == crc32_of(b@),
{
    crc32fast::hash(b)
}

/// Relies on `std::str::from_utf8`: it accepts exactly the valid UTF-8 byte
/// sequences, and the string slice it gives back has those bytes.
#[verifier::external_body]
fn utf8_str(b: &[u8]) -> (r: Option<&str>)
    ensures
        r is Some <==> valid_utf8(b@),
        r matches Some(s) ==> encode_utf8(s@) == b@,
{
    std::str::from_utf8(b).ok()
}

/// The string whose UTF-8 encoding `b` is, if `b` is valid UTF-8.
pub fn utf8_string(b: &[u8]) -> (r: Option<String>)
    ensures
        r is Some <==> valid_utf8(b@),
        r matches Some(s) ==> encode_utf8(s@) == b@,
{
    match utf8_str(b) {
        Some(s) => Some(s.to_owned()),
        None => None,
    }
}

/// The file-type tag `AKLA`.
pub open spec fn magic() -> Seq<u8> {
    seq![0x41u8, 0x4Bu8, 0x4Cu8, 0x41u8]
}

/// A fresh header recording `next_id`.
pub open spec fn header(next_id: u64) -> Seq<u8> {
    magic() + le16(VERSION) + le64(next_id) + seq![0u8, 0u8]
}

/// `b` starts with a header of this format: the tag and version 1.
pub open spec fn header_valid(b: Seq<u8>) -> bool {
    &&& b.len() >= HEADER_LEN
    &&& b.subrange(0, 4) == magic()
    &&& u16_at(b.subrange(4, 6)) == VERSION
}

/// The next id that the header of `b` records.
pub open spec fn stored_next_id(b: Seq<u8>) -> u64 {
    u64_at(b.subrange(6, 14))
}

/// `b` with the header's next id replaced by `n`.
pub open spec fn with_next_id(b: Seq<u8>, n: u64) -> Seq<u8> {
    b.subrange(0, 6) + le64(n) + b.subrange(14, b.len() as int)
}

/// Both strings fit a record's 16-bit length fields.
pub open spec fn fields_fit(phenomenon: Seq<char>, noumenon: Seq<char>) -> bool {
    &&& encode_utf8(phenomenon).len() <= MAX_FIELD
    &&& encode_utf8(noumenon).len() <= MAX_FIELD
}

/// Both strings of `e` fit their 16-bit length fields.
pub open spec fn fits(e: EventModel) -> bool {
    fields_fit(e.phenomenon, e.noumenon)
}

/// The payload bytes of a record.
pub open spec fn payload(e: EventModel) -> Seq<u8> {
    let ph = encode_utf8(e.phenomenon);
    let no = encode_utf8(e.noumenon);
    le128(e.timestamp) + le64(e.id) + le16(ph.len() as u16) + le16(no.len() as u16) + ph + no
}

/// The complete frame of a record: length prefix, payload, checksum.
pub open spec fn frame(e: EventModel) -> Seq<u8> {
    let p = payload(e);
    le32((p.len() + 4) as u32) + p + le32(crc32_of(p))
}

/// The record a payload describes, or `None` when its lengths overrun it or a
/// string is not UTF-8. Bytes after the noumenon are ignored.
pub open spec fn parse_payload(p: Seq<u8>) -> Option<EventModel> {
    if p.len() < PAYLOAD_FIXED {
        None
    } else {
        let ph_len = u16_at(p.subrange(24, 26)) as int;
        let no_len = u16_at(p.subrange(26, 28)) as int;
        let ph = p.subrange(28, 28 + ph_len);
        let no = p.subrange(28 + ph_len, 28 + ph_len + no_len);
        if 28 + ph_len + no_len > p.len() || !valid_utf8(ph) || !valid_utf8(no) {
            None
        } else {
            Some(
                EventModel {
                    timestamp: u128_at(p.subrange(0, 16)),
                    id: u64_at(p.subrange(16, 24)),
                    phenomenon: decode_utf8(ph),
                    noumenon: decode_utf8(no),
                },
            )
        }
    }
}

/// The `len_total` field of a frame starting at `off`.
pub open spec fn len_total_at(b: Seq<u8>, off: int) -> int {
    u32_at(b.subrange(off, off + 4)) as int
}

/// The record whose frame starts at `off` in `b`, and the offset where that
/// frame ends; `None` when the frame is cut short, too short to hold a
/// payload, fails its checksum, or holds a malformed payload.
pub open spec fn parse_frame(b: Seq<u8>, off: int) -> Option<(EventModel, int)> {
    if off < 0 || off + 4 > b.len() {
        None
    } else {
        let len = len_total_at(b, off);
        let end = off + 4 + len;
        if len < MIN_LEN_TOTAL || end > b.len() {
            None
        } else {
            let p = b.subrange(off + 4, end - 4);
            if u32_at(b.subrange(end - 4, end)) != crc32_of(p) {
                None
            } else {
                match parse_payload(p) {
                    Some(e) => Some((e, end)),
                    None => None,
                }
            }
        }
    }
}

/// Parsing a frame reads only the bytes of that frame: bytes elsewhere may
/// differ without changing the result.
pub proof fn lemma_parse_frame_local(b: Seq<u8>, c: Seq<u8>, off: int)
    requires
        parse_frame(b, off) is Some,
        c.len() >= parse_frame(b, off).unwrap().1,
        c.subrange(off, parse_frame(b, off).unwrap().1) == b.subrange(
            off,
            parse_frame(b, off).unwrap().1,
        ),
    ensures
        parse_frame(c, off) == parse_frame(b, off),
{
    let end = parse_frame(b, off).unwrap().1;
    let w = b.subrange(off, end);
    let n = end - off;
    assert(c.subrange(off, off + 4) =~= b.subrange(off, off + 4)) by {
        assert(c.subrange(off, off + 4) =~= c.subrange(off, end).subrange(0, 4));
        assert(b.subrange(off, off + 4) =~= w.subrange(0, 4));
    }
    assert(c.subrange(off + 4, end - 4) =~= b.subrange(off + 4, end - 4)) by {
        assert(c.subrange(off + 4, end - 4) =~= c.subrange(off, end).subrange(4, n - 4));
        assert(b.subrange(off + 4, end - 4) =~= w.subrange(4, n - 4));
    }
    assert(c.subrange(end - 4, end) =~= b.subrange(end - 4, end)) by {
        assert(c.subrange(end - 4, end) =~= c.subrange(off, end).subrange(n - 4, n));
        assert(b.subrange(end - 4, end) =~= w.subrange(n - 4, n));
    }
}

/// A payload reads back as the record it was made from.
pub proof fn lemma_payload_round_trip(e: EventModel)
    requires
        fits(e),
    ensures
        parse_payload(payload(e)) == Some(e),
{
    let p = payload(e);
    let ph = encode_utf8(e.phenomenon);
    let no = encode_utf8(e.noumenon);
    let phl = ph.len() as u16;
    let nol = no.len() as u16;
    lemma_u128_round_trip(e.timestamp);
    lemma_u64_round_trip(e.id);
    lemma_u16_round_trip(phl);
    lemma_u16_round_trip(nol);
    assert(p.subrange(0, 16) =~= le128(e.timestamp));
    assert(p.subrange(16, 24) =~= le64(e.id));
    assert(p.subrange(24, 26) =~= le16(phl));
    assert(p.subrange(26, 28) =~= le16(nol));
    let a = 28 + ph.len() as int;
    assert(p.subrange(28, a) =~= ph);
    assert(p.subrange(a, a + no.len()) =~= no);
    encode_utf8_valid_utf8(e.phenomenon);
    encode_utf8_valid_utf8(e.noumenon);
    encode_utf8_decode_utf8(e.phenomenon);
    encode_utf8_decode_utf8(e.noumenon);
}

/// The three parts of a frame, located.
proof fn lemma_frame_parts(e: EventModel)
    ensures
        frame(e).len() == payload(e).len() + 8,
        frame(e).subrange(0, 4) == le32((payload(e).len() + 4) as u32),
        frame(e).subrange(4, frame(e).len() - 4) == payload(e),
        frame(e).subrange(frame(e).len() - 4, frame(e).len() as int) == le32(
            crc32_of(payload(e)),
        ),
{
    let p = payload(e);
    let f = frame(e);
    assert(f.subrange(0, 4) =~= le32((p.len() + 4) as u32));
    assert(f.subrange(4, f.len() - 4) =~= p);
    assert(f.subrange(f.len() - 4, f.len() as int) =~= le32(crc32_of(p)));
}

/// A frame written at `off` reads back as its record, ending where it ends.
pub proof fn lemma_frame_round_trip(b: Seq<u8>, off: int, e: EventModel)
    requires
        fits(e),
        0 <= off,
        off + frame(e).len() <= b.len(),
        b.subrange(off, off + frame(e).len()) == frame(e),
    ensures
        parse_frame(b, off) == Some((e, off + frame(e).len())),
{
    let p = payload(e);
    let f = frame(e);
    let flen = f.len() as int;
    let n = (p.len() + 4) as u32;
    let end = off + flen;
    lemma_frame_parts(e);
    lemma_payload_round_trip(e);
    lemma_u32_round_trip(n);
    lemma_u32_round_trip(crc32_of(p));
    assert(p.len() >= 28);
    let w = b.subrange(off, end);
    assert(b.subrange(off, off + 4) =~= w.subrange(0, 4));
    assert(b.subrange(off + 4, end - 4) =~= w.subrange(4, flen - 4));
    assert(b.subrange(end - 4, end) =~= w.subrange(flen - 4, flen));
    assert(len_total_at(b, off) == n as int);
    assert(u32_at(b.subrange(end - 4, end)) == crc32_of(p));
}

/// The frame of a record with the given fields.
pub fn encode_frame(timestamp: u128, id: u64, phenomenon: &str, noumenon: &str) -> (r: Vec<u8>)
    requires
        fields_fit(phenomenon@, noumenon@),
    ensures
        r@ == frame(EventModel { id, timestamp, phenomenon: phenomenon@, noumenon: noumenon@ }),
{
    let ghost e = EventModel { id, timestamp, phenomenon: phenomenon@, noumenon: noumenon@ };
    let ph = phenomenon.as_bytes();
    let no = noumenon.as_bytes();
    let mut p: Vec<u8> = Vec::new();
    push_u128(&mut p, timestamp);
    push_u64(&mut p, id);
    push_u16(&mut p, ph.len() as u16);
    push_u16(&mut p, no.len() as u16);
    p.extend_from_slice(ph);
    p.extend_from_slice(no);
    assert(p@ =~= payload(e));
    let crc = crc32(p.as_slice());
    let mut out: Vec<u8> = Vec::new();
    push_u32(&mut out, (p.len() + 4) as u32);
    out.append(&mut p);
    push_u32(&mut out, crc);
    assert(out@ =~= frame(e));
    out
}

/// The record a payload describes; `None` exactly when `parse_payload` finds
/// it malformed.
pub fn decode_payload(p: &[u8]) -> (r: Option<Event>)
    ensures
        r is None <==> parse_payload(p@) is None,
        r matches Some(e) ==> parse_payload(p@) == Some(e@),
{
    if p.len() < PAYLOAD_FIXED {
        return None;
    }
    let timestamp = read_u128(p, 0);
    let id = read_u64(p, 16);
    let ph_len = read_u16(p, 24) as usize;
    let no_len = read_u16(p, 26) as usize;
    if p.len() - PAYLOAD_FIXED < ph_len + no_len {
        return None;
    }
    let ph_end = PAYLOAD_FIXED + ph_len;
    let phenomenon = utf8_string(slice_subrange(p, PAYLOAD_FIXED, ph_end));
    let noumenon = utf8_string(slice_subrange(p, ph_end, ph_end + no_len));
    match (phenomenon, noumenon) {
        (Some(phenomenon), Some(noumenon)) => {
            proof {
                encode_utf8_decode_utf8(phenomenon@);
                encode_utf8_decode_utf8(noumenon@);
            }
            Some(Event { id, phenomenon, noumenon, timestamp })
        },
        _ => None,
    }
}

/// The record whose frame starts at `off`, with the offset just past that
/// frame; `None` exactly when `parse_frame` rejects the frame.
pub fn decode_frame(b: &[u8], off: usize) -> (r: Option<(Event, usize)>)
    ensures
        r is None <==> parse_frame(b@, off as int) is None,
        r matches Some((e, end)) ==> parse_frame(b@, off as int) == Some((e@, end as int)),
{
    if off > b.len() || b.len() - off < 4 {
        return None;
    }
    let len = read_u32(b, off);
    if len < MIN_LEN_TOTAL || b.len() - off - 4 < len as usize {
        return None;
    }
    let end = off + 4 + len as usize;
    let stored = read_u32(b, end - 4);
    let p = slice_subrange(b, off + 4, end - 4);
    if crc32(p) != stored {
        return None;
    }
    match decode_payload(p) {
        Some(e) => Some((e, end)),
        None => None,
    }
}

} // verus!
