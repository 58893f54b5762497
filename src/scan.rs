//! Sequential reading of a cube: frames are read one after another from the
//! end of the header until one fails to parse; everything from there on is a
//! torn tail.

use vstd::prelude::*;

use crate::codec::{decode_frame, lemma_parse_frame_local, parse_frame, HEADER_LEN};
use crate::event::{Event, EventModel};

verus! {

/// The records read from `off` on, each with the offset of its frame.
pub open spec fn scan_from(b: Seq<u8>, off: int) -> Seq<(int, EventModel)>
    decreases b.len() - off,
{
    if off < 0 || off >= b.len() {
        seq![]
    } else {
        match parse_frame(b, off) {
            Some((e, end)) => seq![(off, e)] + scan_from(b, end),
            None => seq![],
        }
    }
}

/// The offset at which reading from `off` stops.
pub open spec fn scan_end(b: Seq<u8>, off: int) -> int
    decreases b.len() - off,
{
    if off < 0 || off >= b.len() {
        off
    } else {
        match parse_frame(b, off) {
            Some((e, end)) => scan_end(b, end),
            None => off,
        }
    }
}

/// The records of a cube, each with the offset of its frame.
pub open spec fn records(b: Seq<u8>) -> Seq<(int, EventModel)> {
    scan_from(b, HEADER_LEN as int)
}

/// The events of located records, in order.
pub open spec fn bodies(s: Seq<(int, EventModel)>) -> Seq<EventModel> {
    s.map_values(|r: (int, EventModel)| r.1)
}

/// The views of a sequence of events.
pub open spec fn models(v: Seq<Event>) -> Seq<EventModel> {
    v.map_values(|e: Event| e@)
}

/// The events of a cube, in file order.
pub open spec fn events(b: Seq<u8>) -> Seq<EventModel> {
    bodies(records(b))
}

/// Every byte of the cube after the header belongs to a record that reads
/// back: there is no torn tail.
pub open spec fn no_torn_tail(b: Seq<u8>) -> bool {
    scan_end(b, HEADER_LEN as int) == b.len()
}

/// The exec view of located events.
pub open spec fn located(v: Seq<(u64, Event)>) -> Seq<(int, EventModel)> {
    v.map_values(|r: (u64, Event)| (r.0 as int, r.1@))
}

/// Reading depends only on the bytes from `off` on.
pub proof fn lemma_scan_suffix(b: Seq<u8>, c: Seq<u8>, off: int)
    requires
        0 <= off <= b.len(),
        b.len() == c.len(),
        b.subrange(off, b.len() as int) == c.subrange(off, c.len() as int),
    ensures
        scan_from(c, off) == scan_from(b, off),
        scan_end(c, off) == scan_end(b, off),
    decreases b.len() - off,
{
    if off < b.len() {
        if let Some((e, end)) = parse_frame(b, off) {
            assert(c.subrange(off, end) =~= b.subrange(off, end)) by {
                assert(c.subrange(off, end) =~= c.subrange(off, c.len() as int).subrange(0, end - off));
                assert(b.subrange(off, end) =~= b.subrange(off, b.len() as int).subrange(0, end - off));
            }
            lemma_parse_frame_local(b, c, off);
            assert(b.subrange(end, b.len() as int) =~= c.subrange(end, c.len() as int)) by {
                assert(c.subrange(end, c.len() as int) =~= c.subrange(off, c.len() as int).subrange(end - off, c.len() - off));
                assert(b.subrange(end, b.len() as int) =~= b.subrange(off, b.len() as int).subrange(end - off, b.len() - off));
            }
            lemma_scan_suffix(b, c, end);
        } else {
            if let Some((e, end)) = parse_frame(c, off) {
                assert(c.subrange(off, end) =~= b.subrange(off, end)) by {
                    assert(c.subrange(off, end) =~= c.subrange(off, c.len() as int).subrange(0, end - off));
                    assert(b.subrange(off, end) =~= b.subrange(off, b.len() as int).subrange(0, end - off));
                }
                lemma_parse_frame_local(c, b, off);
            }
        }
    }
}

/// Bytes appended after a cube without a torn tail are read after its
/// records, from where they begin.
pub proof fn lemma_scan_extend(b: Seq<u8>, c: Seq<u8>, off: int)
    requires
        0 <= off <= b.len(),
        scan_end(b, off) == b.len(),
        b.len() <= c.len(),
        c.subrange(0, b.len() as int) == b,
    ensures
        scan_from(c, off) == scan_from(b, off) + scan_from(c, b.len() as int),
        scan_end(c, off) == scan_end(c, b.len() as int),
    decreases b.len() - off,
{
    if off == b.len() {
        assert(scan_from(b, off) =~= seq![]);
        assert(scan_from(c, off) =~= scan_from(b, off) + scan_from(c, b.len() as int));
    } else {
        let (e, end) = parse_frame(b, off).unwrap();
        assert(c.subrange(off, end) =~= b.subrange(off, end)) by {
            assert(c.subrange(off, end) =~= c.subrange(0, b.len() as int).subrange(off, end));
        }
        lemma_parse_frame_local(b, c, off);
        lemma_scan_extend(b, c, end);
        assert(scan_from(c, off) =~= scan_from(b, off) + scan_from(c, b.len() as int));
    }
}

/// The records of `b` read from `off` on, each with its frame offset.
pub fn scan_records(b: &[u8], off: usize) -> (r: Vec<(u64, Event)>)
    ensures
        located(r@) == scan_from(b@, off as int),
{
    let mut out: Vec<(u64, Event)> = Vec::new();
    let mut pos = off;
    if pos > b.len() {
        return out;
    }
    while pos < b.len()
        invariant
            off <= pos <= b@.len(),
            located(out@) + scan_from(b@, pos as int) == scan_from(b@, off as int),
        decreases b@.len() - pos,
    {
        match decode_frame(b, pos) {
            Some((e, end)) => {
                let ghost before = out@;
                out.push((pos as u64, e));
                assert(located(out@) =~= located(before) + seq![(pos as int, e@)]);
                assert(located(out@) + scan_from(b@, end as int) =~= located(before) + scan_from(b@, pos as int));
                pos = end;
            },
            None => {
                assert(located(out@) =~= located(out@) + scan_from(b@, pos as int));
                return out;
            },
        }
    }
    assert(located(out@) =~= located(out@) + scan_from(b@, pos as int));
    out
}

/// The events of `b` read from `off` on.
pub fn scan_events(b: &[u8], off: usize) -> (r: Vec<Event>)
    ensures
        models(r@) == bodies(scan_from(b@, off as int)),
{
    let mut out: Vec<Event> = Vec::new();
    let mut pos = off;
    if pos > b.len() {
        return out;
    }
    while pos < b.len()
        invariant
            off <= pos <= b@.len(),
            models(out@) + bodies(scan_from(b@, pos as int)) == bodies(scan_from(b@, off as int)),
        decreases b@.len() - pos,
    {
        match decode_frame(b, pos) {
            Some((e, end)) => {
                let ghost before = out@;
                out.push(e);
                assert(models(out@) =~= models(before) + seq![e@]);
                assert(bodies(scan_from(b@, pos as int)) =~= seq![e@] + bodies(scan_from(b@, end as int)));
                assert(models(out@) + bodies(scan_from(b@, end as int)) =~= models(before) + bodies(scan_from(b@, pos as int)));
                pos = end;
            },
            None => {
                assert(models(out@) =~= models(out@) + bodies(scan_from(b@, pos as int)));
                return out;
            },
        }
    }
    assert(models(out@) =~= models(out@) + bodies(scan_from(b@, pos as int)));
    out
}

} // verus!
