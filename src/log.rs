//! The cube itself: an in-memory image of the file, kept in step with the
//! bytes that the caller persists, with the id counter that its header holds.

use vstd::prelude::*;

use crate::bytes::{le64, push_u16, push_u64, read_u16, read_u64, set_u64};
use crate::clock::now_nanos;
use crate::codec::{
    encode_frame, fields_fit, frame, header, header_valid, len_total_at, parse_frame, stored_next_id,
    with_next_id, HEADER_LEN, NEXT_ID_OFFSET, VERSION,
};
use crate::event::{Event, EventModel};
use crate::scan::{events, located, models, records, scan_records};

verus! {

broadcast use vstd::laws_cmp::group_laws_cmp;

/// Why an operation on a cube failed.
#[derive(Debug, Clone, Copy, PartialEq, Eq, Structural)]
pub enum LogError {
    /// The file does not start with a header of this format and version.
    InvalidHeader,
    /// A frame fails its checksum or holds a malformed payload.
    Corruption,
    /// The bytes end before the frame does.
    UnexpectedEof,
    /// The system clock reads a time before the Unix epoch.
    ClockSkew,
    /// The id after the one to assign cannot be represented.
    IdOverflow,
}

/// The largest id among located records, if there is any record.
pub open spec fn max_id(s: Seq<(int, EventModel)>) -> Option<u64>
    decreases s.len(),
{
    if s.len() == 0 {
        None
    } else {
        let id = s.last().1.id;
        match max_id(s.drop_last()) {
            Some(m) => Some(if m >= id { m } else { id }),
            None => Some(id),
        }
    }
}

/// The next id recomputed from the records of `b`: one past the largest id,
/// or 1 when there is no record. When the largest id is the largest
/// representable, the counter stays there, so that the next append fails
/// rather than reuse an id.
pub open spec fn recovered_next_id(b: Seq<u8>) -> u64 {
    match max_id(records(b)) {
        Some(m) => if m < u64::MAX { (m + 1) as u64 } else { u64::MAX },
        None => 1,
    }
}

/// The cube and next id that opening a file with contents `b` yields.
pub open spec fn opened(b: Seq<u8>) -> Result<(Seq<u8>, u64), LogError> {
    if b.len() == 0 {
        Ok((header(1), 1))
    } else if !header_valid(b) {
        Err(LogError::InvalidHeader)
    } else if stored_next_id(b) != 0 {
        Ok((b, stored_next_id(b)))
    } else {
        Ok((with_next_id(b, recovered_next_id(b)), recovered_next_id(b)))
    }
}

/// The cube `b` after appending the record `e`: the frame goes at the end
/// and the header records the id after `e`'s.
pub open spec fn appended(b: Seq<u8>, e: EventModel) -> Seq<u8> {
    with_next_id(b, (e.id + 1) as u64) + frame(e)
}

/// What reading the frame at `off` gives: the record, or why there is none.
pub open spec fn read_at(b: Seq<u8>, off: int) -> Result<EventModel, LogError> {
    match parse_frame(b, off) {
        Some((e, _)) => Ok(e),
        None => if off + 4 > b.len() || off + 4 + len_total_at(b, off) > b.len() {
            Err(LogError::UnexpectedEof)
        } else {
            Err(LogError::Corruption)
        },
    }
}

/// Each record id mapped to the offset of the last frame that carries it.
pub open spec fn index_of(s: Seq<(int, EventModel)>) -> Map<u64, u64>
    decreases s.len(),
{
    if s.len() == 0 {
        Map::empty()
    } else {
        index_of(s.drop_last()).insert(s.last().1.id, s.last().0 as u64)
    }
}

/// An open cube: the file's bytes and the next id to assign.
pub struct Writer {
    data: Vec<u8>,
    next_id: u64,
}

impl Writer {
    /// The bytes of the cube.
    pub closed spec fn bytes(&self) -> Seq<u8> {
        self.data@
    }

    /// The next id to assign.
    pub closed spec fn next(&self) -> u64 {
        self.next_id
    }

    /// The header is valid and records the next id to assign.
    pub open spec fn wf(&self) -> bool {
        &&& header_valid(self.bytes())
        &&& stored_next_id(self.bytes()) == self.next()
    }

    /// Opens a cube from the current contents of its file, empty for a new
    /// file. An empty file gets a fresh header with next id 1. Otherwise the
    /// header must be valid; a recorded next id of zero is recomputed from
    /// the records and written back into the header.
    pub fn create(contents: Vec<u8>) -> (r: Result<Writer, LogError>)
        ensures
            match (r, opened(contents@)) {
                (Ok(w), Ok((b, n))) => w.bytes() == b && w.next() == n && w.wf(),
                (Err(e1), Err(e2)) => e1 == e2,
                _ => false,
            },
    {
        if contents.len() == 0 {
            let data = fresh_header(1);
            proof {
                lemma_header_fields(1);
            }
            return Ok(Writer { data, next_id: 1 });
        }
        if !check_header(&contents) {
            return Err(LogError::InvalidHeader);
        }
        let stored = read_u64(contents.as_slice(), NEXT_ID_OFFSET);
        if stored != 0 {
            return Ok(Writer { data: contents, next_id: stored });
        }
        let n = match max_record_id(contents.as_slice()) {
            Some(m) => if m < u64::MAX {
                m + 1
            } else {
                u64::MAX
            },
            None => 1,
        };
        let mut data = contents;
        set_u64(&mut data, NEXT_ID_OFFSET, n);
        proof {
            lemma_with_next_id_header(contents@, n);
        }
        Ok(Writer { data, next_id: n })
    }

    /// The bytes of the cube, as they are to stand in its file.
    pub fn contents(&self) -> (r: &Vec<u8>)
        ensures
            r@ == self.bytes(),
    {
        &self.data
    }

    /// The id that the next appended record gets.
    pub fn next_id(&self) -> (r: u64)
        ensures
            r == self.next(),
    {
        self.next_id
    }

    /// Appends a record stamped `timestamp`, with the next id, and returns
    /// the offset of its frame. Fails, changing nothing, when the id after
    /// it cannot be represented.
    pub fn append_at(&mut self, phenomenon: &str, noumenon: &str, timestamp: u128) -> (r: Result<
        u64,
        LogError,
    >)
        requires
            old(self).wf(),
            fields_fit(phenomenon@, noumenon@),
        ensures
            final(self).wf(),
            old(self).next() == u64::MAX ==> r == Err::<u64, LogError>(LogError::IdOverflow)
                && final(self).bytes() == old(self).bytes() && final(self).next() == old(
                self,
            ).next(),
            old(self).next() < u64::MAX ==> r == Ok::<u64, LogError>(
                old(self).bytes().len() as u64,
            ) && final(self).next() == old(self).next() + 1 && final(self).bytes() == appended(
                old(self).bytes(),
                EventModel {
                    id: old(self).next(),
                    timestamp,
                    phenomenon: phenomenon@,
                    noumenon: noumenon@,
                },
            ),
    {
        if self.next_id == u64::MAX {
            return Err(LogError::IdOverflow);
        }
        let id = self.next_id;
        let start = self.data.len() as u64;
        let ghost before = self.data@;
        let mut f = encode_frame(timestamp, id, phenomenon, noumenon);
        set_u64(&mut self.data, NEXT_ID_OFFSET, id + 1);
        self.data.append(&mut f);
        self.next_id = id + 1;
        proof {
            lemma_with_next_id_header(before, (id + 1) as u64);
            let b2 = with_next_id(before, (id + 1) as u64);
            assert(self.data@.subrange(0, b2.len() as int) =~= b2);
            assert(self.data@.subrange(0, 16) =~= b2.subrange(0, 16));
            assert(self.data@.subrange(0, 4) =~= b2.subrange(0, 4));
            assert(self.data@.subrange(4, 6) =~= b2.subrange(4, 6));
            assert(self.data@.subrange(6, 14) =~= b2.subrange(6, 14));
        }
        Ok(start)
    }

    /// Appends a record stamped with the current time, with the next id, and
    /// returns the offset of its frame. Fails, changing nothing, when the
    /// clock reads before the Unix epoch or the id after the record's cannot
    /// be represented.
    pub fn append(&mut self, phenomenon: &str, noumenon: &str) -> (r: Result<u64, LogError>)
        requires
            old(self).wf(),
            fields_fit(phenomenon@, noumenon@),
        ensures
            final(self).wf(),
            r == Err::<u64, LogError>(LogError::ClockSkew) ==> final(self).bytes() == old(self).bytes()
                && final(self).next() == old(self).next(),
            old(self).next() == u64::MAX ==> final(self).bytes() == old(self).bytes()
                && final(self).next() == old(self).next() && r is Err,
            r is Err ==> r == Err::<u64, LogError>(LogError::ClockSkew) || (r == Err::<u64, LogError>(
                LogError::IdOverflow,
            ) && old(self).next() == u64::MAX),
            old(self).next() < u64::MAX && r != Err::<u64, LogError>(LogError::ClockSkew) ==> exists|
                timestamp: u128,
            |
                r == Ok::<u64, LogError>(old(self).bytes().len() as u64) && final(self).next() == old(
                    self,
                ).next() + 1 && final(self).bytes() == appended(
                    old(self).bytes(),
                    EventModel {
                        id: old(self).next(),
                        timestamp,
                        phenomenon: phenomenon@,
                        noumenon: noumenon@,
                    },
                ),
    {
        match now_nanos() {
            Some(timestamp) => self.append_at(phenomenon, noumenon, timestamp),
            None => Err(LogError::ClockSkew),
        }
    }

    /// Every record that reads back, in file order; reading stops at the
    /// first frame that does not.
    pub fn read_all(&self) -> (r: Vec<Event>)
        ensures
            models(r@) == events(self.bytes()),
    {
        crate::scan::scan_events(self.data.as_slice(), HEADER_LEN)
    }

    /// Maps each record id to the offset of its frame (the last one, should
    /// an id occur twice).
    pub fn rebuild_index(&self) -> (r: std::collections::BTreeMap<u64, u64>)
        ensures
            r@ == index_of(records(self.bytes())),
    {
        let found = scan_records(self.data.as_slice(), HEADER_LEN);
        let mut idx: std::collections::BTreeMap<u64, u64> = std::collections::BTreeMap::new();
        let mut i: usize = 0;
        while i < found.len()
            invariant
                located(found@) == records(self.bytes()),
                i <= found@.len(),
                idx@ == index_of(located(found@).subrange(0, i as int)),
            decreases found@.len() - i,
        {
            let id = found[i].1.id;
            let off = found[i].0;
            idx.insert(id, off);
            assert(located(found@).subrange(0, i + 1).drop_last() =~= located(found@).subrange(
                0,
                i as int,
            ));
            i = i + 1;
        }
        assert(located(found@).subrange(0, i as int) =~= located(found@));
        idx
    }

    /// Reads the record whose frame starts at `offset` in the cube's bytes
    /// `contents`. Fails with `UnexpectedEof` when the bytes end before the
    /// frame does, and with `Corruption` when the frame fails its checksum or
    /// holds a malformed payload.
    pub fn read_one_at(contents: &[u8], offset: u64) -> (r: Result<Event, LogError>)
        ensures
            match (r, read_at(contents@, offset as int)) {
                (Ok(e1), Ok(e2)) => e1@ == e2,
                (Err(e1), Err(e2)) => e1 == e2,
                _ => false,
            },
    {
        let n = contents.len();
        if offset > n as u64 || (n as u64) - offset < 4 {
            return Err(LogError::UnexpectedEof);
        }
        let off = offset as usize;
        match crate::codec::decode_frame(contents, off) {
            Some((e, _)) => Ok(e),
            None => {
                let len = crate::bytes::read_u32(contents, off);
                if n - off - 4 < len as usize {
                    Err(LogError::UnexpectedEof)
                } else {
                    Err(LogError::Corruption)
                }
            },
        }
    }
}

/// A fresh header recording `next_id`.
fn fresh_header(next_id: u64) -> (r: Vec<u8>)
    ensures
        r@ == header(next_id),
{
    let mut h: Vec<u8> = Vec::new();
    h.push(0x41u8);
    h.push(0x4Bu8);
    h.push(0x4Cu8);
    h.push(0x41u8);
    push_u16(&mut h, VERSION);
    push_u64(&mut h, next_id);
    h.push(0u8);
    h.push(0u8);
    assert(h@ =~= header(next_id));
    h
}

/// Whether `b` starts with a valid header.
fn check_header(b: &Vec<u8>) -> (r: bool)
    ensures
        r == header_valid(b@),
{
    if b.len() < HEADER_LEN {
        return false;
    }
    let version = read_u16(b.as_slice(), 4);
    let ok = b[0] == 0x41u8 && b[1] == 0x4Bu8 && b[2] == 0x4Cu8 && b[3] == 0x41u8 && version == VERSION;
    proof {
        assert(b@.subrange(0, 4) == crate::codec::magic() <==> (b@[0] == 0x41u8 && b@[1] == 0x4Bu8
            && b@[2] == 0x4Cu8 && b@[3] == 0x41u8)) by {
            if b@[0] == 0x41u8 && b@[1] == 0x4Bu8 && b@[2] == 0x4Cu8 && b@[3] == 0x41u8 {
                assert(b@.subrange(0, 4) =~= crate::codec::magic());
            }
            if b@.subrange(0, 4) == crate::codec::magic() {
                assert(b@[0] == b@.subrange(0, 4)[0]);
                assert(b@[1] == b@.subrange(0, 4)[1]);
                assert(b@[2] == b@.subrange(0, 4)[2]);
                assert(b@[3] == b@.subrange(0, 4)[3]);
            }
        }
    }
    ok
}

/// The largest id among the records of `b`.
fn max_record_id(b: &[u8]) -> (r: Option<u64>)
    ensures
        r == max_id(records(b@)),
{
    let found = scan_records(b, HEADER_LEN);
    let mut best: Option<u64> = None;
    let mut i: usize = 0;
    while i < found.len()
        invariant
            located(found@) == records(b@),
            i <= found@.len(),
            best == max_id(located(found@).subrange(0, i as int)),
        decreases found@.len() - i,
    {
        let id = found[i].1.id;
        best = match best {
            Some(m) => Some(if m >= id { m } else { id }),
            None => Some(id),
        };
        assert(located(found@).subrange(0, i + 1).drop_last() =~= located(found@).subrange(
            0,
            i as int,
        ));
        i = i + 1;
    }
    assert(located(found@).subrange(0, i as int) =~= located(found@));
    best
}

/// A fresh header is valid and records its next id.
proof fn lemma_header_fields(n: u64)
    ensures
        header_valid(header(n)),
        stored_next_id(header(n)) == n,
{
    let h = header(n);
    crate::bytes::lemma_u16_round_trip(VERSION);
    crate::bytes::lemma_u64_round_trip(n);
    assert(h.subrange(0, 4) =~= crate::codec::magic());
    assert(h.subrange(4, 6) =~= crate::bytes::le16(VERSION));
    assert(h.subrange(6, 14) =~= le64(n));
}

/// Replacing the next id keeps a valid header valid and records the new id;
/// the bytes after the header are untouched.
pub proof fn lemma_with_next_id_header(b: Seq<u8>, n: u64)
    requires
        header_valid(b),
    ensures
        header_valid(with_next_id(b, n)),
        stored_next_id(with_next_id(b, n)) == n,
        with_next_id(b, n).len() == b.len(),
        with_next_id(b, n).subrange(HEADER_LEN as int, b.len() as int) == b.subrange(
            HEADER_LEN as int,
            b.len() as int,
        ),
{
    let c = with_next_id(b, n);
    crate::bytes::lemma_u64_round_trip(n);
    assert(c.subrange(0, 4) =~= b.subrange(0, 4));
    assert(c.subrange(4, 6) =~= b.subrange(4, 6));
    assert(c.subrange(6, 14) =~= le64(n));
    assert(c.subrange(16, b.len() as int) =~= b.subrange(16, b.len() as int));
}

} // verus!
