//! What holds of a cube across appends, crashes and damage: ids run 1, 2, 3
//! in file order, a record reads back as written, a damaged or torn frame
//! ends reading there without touching what precedes it, and a lost id
//! counter is recovered from the records.

use vstd::prelude::*;

use crate::bytes::{lemma_u32_bytes, lemma_u32_round_trip, le32, u32_at};
use crate::codec::{
    crc32_of, fields_fit, fits, frame, header, header_valid, len_total_at, lemma_frame_round_trip,
    lemma_parse_frame_local, parse_frame, payload, stored_next_id, with_next_id, HEADER_LEN,
};
use crate::event::EventModel;
use crate::log::{appended, lemma_with_next_id_header, max_id, opened, read_at, LogError};
use crate::scan::{
    events, lemma_scan_extend, lemma_scan_suffix, no_torn_tail, records, scan_end, scan_from,
};

verus! {

/// A cube whose records fill it to the end, carry ids 1, 2, 3, ... in file
/// order, and whose header records the id after the last: what a fresh cube
/// and any number of successful appends to it produce.
pub open spec fn well_chained(b: Seq<u8>) -> bool {
    &&& header_valid(b)
    &&& no_torn_tail(b)
    &&& forall|i: int| 0 <= i < events(b).len() ==> #[trigger] events(b)[i].id == i + 1
    &&& stored_next_id(b) == events(b).len() + 1
}

/// The header and records of `appended(b, e)`.
pub proof fn lemma_appended_reads(b: Seq<u8>, e: EventModel)
    requires
        header_valid(b),
        no_torn_tail(b),
        fits(e),
        e.id < u64::MAX,
    ensures
        header_valid(appended(b, e)),
        stored_next_id(appended(b, e)) == e.id + 1,
        records(appended(b, e)) == records(b).push((b.len() as int, e)),
        no_torn_tail(appended(b, e)),
{
    let n = (e.id + 1) as u64;
    let b2 = with_next_id(b, n);
    let c = appended(b, e);
    let h = HEADER_LEN as int;
    lemma_with_next_id_header(b, n);
    lemma_scan_suffix(b, b2, h);
    assert(c.subrange(0, b2.len() as int) =~= b2);
    lemma_scan_extend(b2, c, h);
    assert(c.subrange(b.len() as int, c.len() as int) =~= frame(e));
    lemma_frame_round_trip(c, b.len() as int, e);
    assert(scan_from(c, c.len() as int) =~= seq![]);
    assert(scan_end(c, b.len() as int) == scan_end(c, c.len() as int));
    assert(scan_from(c, b.len() as int) =~= seq![(b.len() as int, e)]);
    assert(c.subrange(0, 4) =~= b2.subrange(0, 4));
    assert(c.subrange(4, 6) =~= b2.subrange(4, 6));
    assert(c.subrange(6, 14) =~= b2.subrange(6, 14));
}

/// A new cube is well chained: it holds no record and its header records
/// id 1.
pub proof fn lemma_fresh_cube_chained()
    ensures
        opened(Seq::empty()) == Ok::<(Seq<u8>, u64), LogError>((header(1), 1u64)),
        well_chained(header(1)),
        events(header(1)).len() == 0,
{
    crate::bytes::lemma_u16_round_trip(1);
    crate::bytes::lemma_u64_round_trip(1);
    let h = header(1);
    assert(h.subrange(0, 4) =~= crate::codec::magic());
    assert(h.subrange(4, 6) =~= crate::bytes::le16(1));
    assert(h.subrange(6, 14) =~= crate::bytes::le64(1));
}

/// Appending a record with the next id to a well-chained cube keeps it well
/// chained, and the record becomes the last event read: over any sequence
/// of successful appends to a new cube, reading yields ids 1, 2, 3, ...
pub proof fn lemma_append_keeps_chain(b: Seq<u8>, e: EventModel)
    requires
        well_chained(b),
        fits(e),
        e.id == stored_next_id(b),
        e.id < u64::MAX,
    ensures
        well_chained(appended(b, e)),
        events(appended(b, e)) == events(b).push(e),
{
    lemma_appended_reads(b, e);
    let c = appended(b, e);
    assert(events(c) =~= events(b).push(e));
}

/// The record that appending `item` with id `id` makes.
pub open spec fn item_event(item: (Seq<char>, Seq<char>, u128), id: u64) -> EventModel {
    EventModel { id, timestamp: item.2, phenomenon: item.0, noumenon: item.1 }
}

/// The cube that appending `items` (phenomenon, noumenon, timestamp) one
/// after another to `b` yields, each record taking the id its header records.
pub open spec fn append_all(b: Seq<u8>, items: Seq<(Seq<char>, Seq<char>, u128)>) -> Seq<u8>
    decreases items.len(),
{
    if items.len() == 0 {
        b
    } else {
        let prev = append_all(b, items.drop_last());
        appended(prev, item_event(items.last(), stored_next_id(prev)))
    }
}

/// Successive appends to a new cube, as many as ids allow: reading yields
/// exactly the appended records, with ids 1, 2, 3, ... in order.
pub proof fn lemma_appends_to_new_cube(items: Seq<(Seq<char>, Seq<char>, u128)>)
    requires
        items.len() < u64::MAX,
        forall|i: int| 0 <= i < items.len() ==> fields_fit(#[trigger] items[i].0, items[i].1),
    ensures
        well_chained(append_all(header(1), items)),
        events(append_all(header(1), items)).len() == items.len(),
        forall|i: int|
            0 <= i < items.len() ==> #[trigger] events(append_all(header(1), items))[i] == item_event(
                items[i],
                (i + 1) as u64,
            ),
    decreases items.len(),
{
    if items.len() == 0 {
        lemma_fresh_cube_chained();
    } else {
        let rest = items.drop_last();
        assert forall|i: int| 0 <= i < rest.len() implies fields_fit(#[trigger] rest[i].0, rest[i].1) by {
            assert(rest[i] == items[i]);
        }
        lemma_appends_to_new_cube(rest);
        let prev = append_all(header(1), rest);
        assert(fields_fit(items[items.len() - 1].0, items[items.len() - 1].1));
        let e = item_event(items.last(), stored_next_id(prev));
        lemma_append_keeps_chain(prev, e);
        assert forall|i: int| 0 <= i < items.len() implies #[trigger] events(
            append_all(header(1), items),
        )[i] == item_event(items[i], (i + 1) as u64) by {
            if i < rest.len() {
                assert(rest[i] == items[i]);
                assert(events(prev)[i] == events(append_all(header(1), items))[i]);
            }
        }
    }
}

/// In a well-chained cube the ids read are strictly increasing and start at
/// 1.
pub proof fn lemma_chained_ids_increase(b: Seq<u8>)
    requires
        well_chained(b),
    ensures
        events(b).len() > 0 ==> events(b)[0].id == 1,
        forall|i: int, j: int|
            0 <= i < j < events(b).len() ==> #[trigger] events(b)[i].id < #[trigger] events(b)[j].id,
{
}

/// A record appended to a cube reads back, at the offset that the append
/// returns, exactly as it was given.
pub proof fn lemma_append_read_back(b: Seq<u8>, e: EventModel)
    requires
        header_valid(b),
        fits(e),
        e.id < u64::MAX,
    ensures
        read_at(appended(b, e), b.len() as int) == Ok::<EventModel, LogError>(e),
{
    let c = appended(b, e);
    lemma_with_next_id_header(b, (e.id + 1) as u64);
    assert(c.subrange(b.len() as int, c.len() as int) =~= frame(e));
    lemma_frame_round_trip(c, b.len() as int, e);
}

/// Every record read from `off` lies at or after `off`.
proof fn lemma_scan_offsets(b: Seq<u8>, off: int)
    ensures
        forall|i: int| 0 <= i < scan_from(b, off).len() ==> #[trigger] scan_from(b, off)[i].0 >= off,
    decreases b.len() - off,
{
    if 0 <= off < b.len() {
        if let Some((e, end)) = parse_frame(b, off) {
            lemma_scan_offsets(b, end);
            let s = scan_from(b, off);
            assert(s == seq![(off, e)] + scan_from(b, end));
            assert forall|i: int| 0 <= i < s.len() implies #[trigger] s[i].0 >= off by {
                if i > 0 {
                    assert(s[i] == scan_from(b, end)[i - 1]);
                }
            }
        }
    }
}

/// When the frame of the `k`-th record read from `off` no longer parses,
/// and nothing before it changed, reading yields exactly the records before
/// it.
proof fn lemma_scan_stops_at(b: Seq<u8>, c: Seq<u8>, off: int, k: int)
    requires
        0 <= off,
        0 <= k < scan_from(b, off).len(),
        c.len() == b.len(),
        c.subrange(0, scan_from(b, off)[k].0) == b.subrange(0, scan_from(b, off)[k].0),
        parse_frame(c, scan_from(b, off)[k].0) is None,
    ensures
        scan_from(c, off) == scan_from(b, off).take(k),
    decreases k,
{
    let p = scan_from(b, off)[k].0;
    lemma_scan_member(b, off, k);
    if k == 0 {
        assert(scan_from(c, off) =~= scan_from(b, off).take(k));
    } else {
        let (e, end) = parse_frame(b, off).unwrap();
        lemma_scan_offsets(b, end);
        assert(scan_from(b, off)[k] == scan_from(b, end)[k - 1]);
        assert(end <= p);
        assert(c.subrange(off, end) =~= b.subrange(off, end)) by {
            assert(c.subrange(off, end) =~= c.subrange(0, p).subrange(off, end));
            assert(b.subrange(off, end) =~= b.subrange(0, p).subrange(off, end));
        }
        lemma_parse_frame_local(b, c, off);
        lemma_scan_stops_at(b, c, end, k - 1);
        assert(scan_from(c, off) =~= scan_from(b, off).take(k));
    }
}

/// Changing one byte in the frame of the `k`-th record, after its length
/// prefix, ends reading at that record, all earlier records still reading
/// back, and reading that frame directly fails with `Corruption`. This holds
/// whenever the byte is in the checksum field, and for a byte in the payload
/// whenever the checksum of the changed payload differs from that of the
/// payload as written.
pub proof fn lemma_damage_detected(b: Seq<u8>, k: int, i: int, x: u8)
    requires
        0 <= k < records(b).len(),
        records(b)[k].0 + 4 <= i < parse_frame(b, records(b)[k].0).unwrap().1,
        x != b[i],
        i >= parse_frame(b, records(b)[k].0).unwrap().1 - 4 || crc32_of(
            b.update(i, x).subrange(
                records(b)[k].0 + 4,
                parse_frame(b, records(b)[k].0).unwrap().1 - 4,
            ),
        ) != crc32_of(
            b.subrange(records(b)[k].0 + 4, parse_frame(b, records(b)[k].0).unwrap().1 - 4),
        ),
    ensures
        records(b.update(i, x)) == records(b).take(k),
        read_at(b.update(i, x), records(b)[k].0) == Err::<EventModel, LogError>(
            LogError::Corruption,
        ),
        forall|j: int|
            0 <= j < k ==> read_at(b.update(i, x), #[trigger] records(b)[j].0) == Ok::<
                EventModel,
                LogError,
            >(records(b)[j].1),
{
    let h = HEADER_LEN as int;
    let c = b.update(i, x);
    let p = records(b)[k].0;
    lemma_scan_offsets(b, h);
    lemma_scan_member(b, h, k);
    let end = parse_frame(b, p).unwrap().1;
    assert(c.subrange(p, p + 4) =~= b.subrange(p, p + 4));
    assert(len_total_at(c, p) == len_total_at(b, p));
    let pb = b.subrange(p + 4, end - 4);
    assert(u32_at(b.subrange(end - 4, end)) == crc32_of(pb));
    if i >= end - 4 {
        assert(c.subrange(p + 4, end - 4) =~= pb);
        lemma_u32_bytes(b.subrange(end - 4, end));
        lemma_u32_bytes(c.subrange(end - 4, end));
        assert(c.subrange(end - 4, end)[i - (end - 4)] != b.subrange(end - 4, end)[i - (end - 4)]);
        assert(u32_at(c.subrange(end - 4, end)) != u32_at(b.subrange(end - 4, end)));
    } else {
        assert(c.subrange(end - 4, end) =~= b.subrange(end - 4, end));
    }
    assert(parse_frame(c, p) is None);
    assert(c.subrange(0, p) =~= b.subrange(0, p));
    lemma_scan_stops_at(b, c, h, k);
    lemma_records_read_back(c);
    assert forall|j: int| 0 <= j < k implies read_at(c, #[trigger] records(b)[j].0) == Ok::<
        EventModel,
        LogError,
    >(records(b)[j].1) by {
        assert(records(c)[j] == records(b)[j]);
    }
}

/// The `k`-th record read from `off` is what its frame parses to.
proof fn lemma_scan_member(b: Seq<u8>, off: int, k: int)
    requires
        0 <= k < scan_from(b, off).len(),
    ensures
        parse_frame(b, scan_from(b, off)[k].0) is Some,
        parse_frame(b, scan_from(b, off)[k].0).unwrap().0 == scan_from(b, off)[k].1,
    decreases k,
{
    let (e, end) = parse_frame(b, off).unwrap();
    if k > 0 {
        assert(scan_from(b, off)[k] == scan_from(b, end)[k - 1]);
        lemma_scan_member(b, end, k - 1);
    }
}

/// Every record read from a cube reads back at its own offset.
pub proof fn lemma_records_read_back(b: Seq<u8>)
    ensures
        forall|k: int|
            0 <= k < records(b).len() ==> read_at(b, #[trigger] records(b)[k].0)
                == Ok::<EventModel, LogError>(records(b)[k].1),
{
    assert forall|k: int| 0 <= k < records(b).len() implies read_at(b, #[trigger] records(b)[k].0)
        == Ok::<EventModel, LogError>(records(b)[k].1) by {
        lemma_scan_member(b, HEADER_LEN as int, k);
    }
}

/// A cube without a torn tail, cut off anywhere inside a frame `f` that
/// followed it, reads as the cube without that frame: the same records, each
/// still reading back at its offset.
pub proof fn lemma_partial_frame_ignored(b: Seq<u8>, f: Seq<u8>, len: int)
    requires
        b.len() >= HEADER_LEN,
        no_torn_tail(b),
        parse_frame(b + f, b.len() as int) is Some,
        parse_frame(b + f, b.len() as int).unwrap().1 == b.len() + f.len(),
        0 <= len < f.len(),
    ensures
        records(b + f.take(len)) == records(b),
        forall|k: int|
            0 <= k < records(b).len() ==> read_at(b + f.take(len), #[trigger] records(b)[k].0)
                == Ok::<EventModel, LogError>(records(b)[k].1),
{
    let h = HEADER_LEN as int;
    let c = b + f.take(len);
    let whole = b + f;
    assert(c.subrange(0, b.len() as int) =~= b);
    lemma_scan_extend(b, c, h);
    if len >= 4 {
        assert(c.subrange(b.len() as int, b.len() as int + 4) =~= whole.subrange(
            b.len() as int,
            b.len() as int + 4,
        ));
    }
    assert(scan_from(c, b.len() as int) =~= seq![]);
    assert(records(c) =~= records(b));
    lemma_records_read_back(c);
}

/// A cube cut off inside the frame of a record being appended, before its
/// header was updated, reads as the cube without that frame, and opening it
/// yields the id after the largest id read.
pub proof fn lemma_torn_tail_ignored(b: Seq<u8>, e: EventModel, len: int)
    requires
        well_chained(b),
        fits(e),
        0 <= len < frame(e).len(),
    ensures
        records(b + frame(e).take(len)) == records(b),
        opened(b + frame(e).take(len)) == Ok::<(Seq<u8>, u64), LogError>(
            (b + frame(e).take(len), (events(b).len() + 1) as u64),
        ),
{
    let c = b + frame(e).take(len);
    assert((b + frame(e)).subrange(b.len() as int, (b.len() + frame(e).len()) as int) =~= frame(e));
    lemma_frame_round_trip(b + frame(e), b.len() as int, e);
    lemma_partial_frame_ignored(b, frame(e), len);
    assert(c.subrange(0, 4) =~= b.subrange(0, 4));
    assert(c.subrange(4, 6) =~= b.subrange(4, 6));
    assert(c.subrange(6, 14) =~= b.subrange(6, 14));
}

/// In a well-chained cube holding records, the largest id is the number of
/// records.
proof fn lemma_chain_max_id(s: Seq<(int, EventModel)>)
    requires
        s.len() > 0,
        forall|i: int| 0 <= i < s.len() ==> #[trigger] s[i].1.id == i + 1,
    ensures
        max_id(s) == Some(s.len() as u64),
    decreases s.len(),
{
    let t = s.drop_last();
    assert(s.last().1.id == s.len());
    if s.len() == 1 {
        assert(t.len() == 0);
    } else {
        assert forall|i: int| 0 <= i < t.len() implies #[trigger] t[i].1.id == i + 1 by {
            assert(t[i] == s[i]);
        }
        lemma_chain_max_id(t);
        assert(max_id(t) == Some(t.len() as u64));
    }
}

/// Zeroing the id counter in the header of a well-chained cube that holds
/// records, then opening it, recovers the counter as the largest id read
/// plus one, and every record still reads back.
pub proof fn lemma_counter_recovered(b: Seq<u8>)
    requires
        well_chained(b),
        events(b).len() > 0,
    ensures
        max_id(records(b)) == Some(events(b).len() as u64),
        opened(with_next_id(b, 0)) matches Ok((c, n)) && n == events(b).len() + 1
            && stored_next_id(c) == n && records(c) == records(b),
{
    let h = HEADER_LEN as int;
    let z = with_next_id(b, 0);
    lemma_with_next_id_header(b, 0);
    lemma_scan_suffix(b, z, h);
    assert forall|i: int| 0 <= i < records(b).len() implies #[trigger] records(b)[i].1.id == i
        + 1 by {
        assert(events(b)[i] == records(b)[i].1);
    }
    lemma_chain_max_id(records(b));
    let n = (events(b).len() + 1) as u64;
    lemma_with_next_id_header(z, n);
    lemma_scan_suffix(z, with_next_id(z, n), h);
}

} // verus!
