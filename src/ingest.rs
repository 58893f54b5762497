//! Ingestion of a directory's files into a cube, skipping every file whose
//! content the cube already holds as the latest record for its path.
//!
//! The caller walks the directory and reads the files; the decisions are
//! taken here: which paths are candidates, which files are unchanged, and
//! what is appended.

use vstd::multiset::Multiset;
use vstd::prelude::*;
use vstd::utf8::{decode_utf8, decode_utf8_encode_utf8, encode_utf8, encode_utf8_decode_utf8, valid_utf8};

use crate::chain::lemma_appended_reads;
use crate::codec::{fits, stored_next_id, utf8_string, MAX_FIELD};
use crate::event::EventModel;
use crate::log::{appended, LogError, Writer};
use crate::order::{sort_by_path, sorted_by_path};
use crate::scan::{events, models, no_torn_tail};

verus! {

broadcast use {
    vstd::seq_lib::group_to_multiset_ensures,
    vstd::multiset::group_multiset_axioms,
    vstd::multiset::lemma_multiset_empty_len,
};

/// The BLAKE3 digest of a byte sequence, as 64 lowercase hex digits.
pub uninterp spec fn blake3_hex_of(b: Seq<u8>) -> Seq<char>;

/// Relies on `blake3::hash` and `Hash::to_hex`: the BLAKE3 digest of `b` in
/// lowercase hex, which depends on the bytes alone.
#[verifier::external_body]
fn content_hash(b: &[u8]) -> (r: String)
    ensures
        r@ == blake3_hex_of(b@),
{
    blake3::hash(b).to_hex().to_string()
}

/// Path to content hash, the later of two entries for a path winning.
pub open spec fn entries_map(s: Seq<(String, String)>) -> Map<Seq<char>, Seq<char>>
    decreases s.len(),
{
    if s.len() == 0 {
        Map::empty()
    } else {
        entries_map(s.drop_last()).insert(s.last().0@, s.last().1@)
    }
}

/// The hash of the latest content a cube's events hold for each path: each
/// event's phenomenon mapped to the digest of its noumenon's bytes, later
/// events winning.
pub open spec fn seen_of(evs: Seq<EventModel>) -> Map<Seq<char>, Seq<char>>
    decreases evs.len(),
{
    if evs.len() == 0 {
        Map::empty()
    } else {
        seen_of(evs.drop_last()).insert(
            evs.last().phenomenon,
            blake3_hex_of(encode_utf8(evs.last().noumenon)),
        )
    }
}

/// The cube already holds `bytes` as the latest content for `path`.
pub open spec fn up_to_date(seen: Map<Seq<char>, Seq<char>>, path: Seq<char>, bytes: Seq<u8>) -> bool {
    seen.contains_key(path) && seen[path] == blake3_hex_of(bytes)
}

/// A file can be stored as a record: it is UTF-8 text and both it and its
/// path fit a record's length fields.
pub open spec fn storable(path: Seq<char>, bytes: Seq<u8>) -> bool {
    &&& valid_utf8(bytes)
    &&& bytes.len() <= MAX_FIELD
    &&& encode_utf8(path).len() <= MAX_FIELD
}

/// For each path, the hash of the latest content stored under it.
pub struct SeenIndex {
    entries: Vec<(String, String)>,
}

impl View for SeenIndex {
    type V = Map<Seq<char>, Seq<char>>;

    closed spec fn view(&self) -> Map<Seq<char>, Seq<char>> {
        entries_map(self.entries@)
    }
}

impl SeenIndex {
    /// An index with no path.
    pub fn new() -> (r: Self)
        ensures
            r@ == Map::<Seq<char>, Seq<char>>::empty(),
    {
        SeenIndex { entries: Vec::new() }
    }

    /// Records `hash` as the latest for `path`.
    pub fn insert(&mut self, path: String, hash: String)
        ensures
            final(self)@ == old(self)@.insert(path@, hash@),
    {
        let ghost before = self.entries@;
        self.entries.push((path, hash));
        proof {
            reveal_with_fuel(entries_map, 2);
            assert(self.entries@.drop_last() =~= before);
        }
    }

    /// The latest hash recorded for `path`.
    pub fn get(&self, path: &str) -> (r: Option<&String>)
        ensures
            r is Some <==> self@.contains_key(path@),
            r matches Some(h) ==> h@ == self@[path@],
    {
        let key = path.to_owned();
        let mut i: usize = self.entries.len();
        assert(self.entries@.take(i as int) =~= self.entries@);
        while i > 0
            invariant
                key@ == path@,
                i <= self.entries@.len(),
                self@.contains_key(path@) <==> entries_map(self.entries@.take(i as int)).contains_key(
                    path@,
                ),
                self@.contains_key(path@) ==> self@[path@] == entries_map(
                    self.entries@.take(i as int),
                )[path@],
            decreases i,
        {
            let ghost t = self.entries@.take(i as int);
            assert(t.drop_last() =~= self.entries@.take(i - 1));
            assert(t.last() == self.entries@[i - 1]);
            if self.entries[i - 1].0 == key {
                return Some(&self.entries[i - 1].1);
            }
            i = i - 1;
        }
        None
    }
}

/// What ingesting one file came to.
#[derive(Debug, Clone, Copy, PartialEq, Eq, Structural)]
pub enum Ingested {
    /// The cube already holds this content as the latest for the path.
    Unchanged,
    /// The content was appended; its frame starts at this offset.
    Stored(u64),
    /// The content is not UTF-8 text.
    NotText,
    /// The content or the path is longer than a record can hold.
    TooLong,
    /// Appending failed.
    Failed(LogError),
}

/// Whether a path, given as its components, is a candidate for ingestion:
/// its file name does not start with `.`, and no component is `target` or
/// `.git`.
pub open spec fn candidate(components: Seq<Seq<char>>) -> bool {
    &&& components.len() > 0 ==> !(components.last().len() > 0 && components.last()[0] == '.')
    &&& forall|i: int|
        0 <= i < components.len() ==> #[trigger] components[i] != "target"@ && components[i]
            != ".git"@
}

/// Whether a path, given as its components, is a candidate for ingestion.
pub fn is_candidate(components: &Vec<String>) -> (r: bool)
    ensures
        r == candidate(components@.map_values(|c: String| c@)),
{
    let ghost cs = components@.map_values(|c: String| c@);
    let n = components.len();
    if n > 0 {
        let name = components[n - 1].as_str();
        if name.unicode_len() > 0 && name.get_char(0) == '.' {
            return false;
        }
    }
    let target = "target".to_owned();
    let git = ".git".to_owned();
    let mut i: usize = 0;
    while i < n
        invariant
            n == components@.len(),
            cs == components@.map_values(|c: String| c@),
            target@ == "target"@,
            git@ == ".git"@,
            cs.len() > 0 ==> !(cs.last().len() > 0 && cs.last()[0] == '.'),
            i <= n,
            forall|j: int| 0 <= j < i ==> #[trigger] cs[j] != "target"@ && cs[j] != ".git"@,
        decreases n - i,
    {
        if components[i] == target || components[i] == git {
            assert(cs[i as int] == components@[i as int]@);
            return false;
        }
        i = i + 1;
    }
    true
}

/// The record that storing file `f` with id `id` at time `timestamp` makes:
/// its path as phenomenon, its text as noumenon.
pub open spec fn file_record(f: (String, Vec<u8>), id: u64, timestamp: u128) -> EventModel {
    EventModel { id, timestamp, phenomenon: f.0@, noumenon: decode_utf8(f.1@) }
}

/// What ingesting file `f` may come to, given the cube `b` and seen map
/// `seen` it meets: `Unchanged` exactly when the cube holds its content as
/// the latest for its path, else `NotText` when it is not UTF-8, else
/// `TooLong` when it does not fit a record; otherwise it is stored at the
/// end of the cube, or its append failed on the clock or on an exhausted id
/// counter.
pub open spec fn outcome_allowed(
    b: Seq<u8>,
    seen: Map<Seq<char>, Seq<char>>,
    f: (String, Vec<u8>),
    o: Ingested,
) -> bool {
    if up_to_date(seen, f.0@, f.1@) {
        o == Ingested::Unchanged
    } else if !valid_utf8(f.1@) {
        o == Ingested::NotText
    } else if !storable(f.0@, f.1@) {
        o == Ingested::TooLong
    } else {
        o == Ingested::Stored(b.len() as u64) || o == Ingested::Failed(LogError::ClockSkew) || (o
            == Ingested::Failed(LogError::IdOverflow) && stored_next_id(b) == u64::MAX)
    }
}

/// The cube and seen map after ingesting `files` from the cube `b0` and seen
/// map `seen0`, where file `k` came to `out[k]` and, if stored, was stamped
/// `ts[k]`: each stored file appends one record with the next id, in order.
pub open spec fn run_state(
    b0: Seq<u8>,
    seen0: Map<Seq<char>, Seq<char>>,
    files: Seq<(String, Vec<u8>)>,
    out: Seq<Ingested>,
    ts: Seq<u128>,
) -> (Seq<u8>, Map<Seq<char>, Seq<char>>)
    decreases files.len(),
{
    if files.len() == 0 {
        (b0, seen0)
    } else {
        let n = files.len() - 1;
        let (b, seen) = run_state(b0, seen0, files.drop_last(), out, ts);
        if out[n] is Stored {
            (
                appended(b, file_record(files[n], stored_next_id(b), ts[n])),
                seen.insert(files[n].0@, blake3_hex_of(files[n].1@)),
            )
        } else {
            (b, seen)
        }
    }
}

/// Every outcome in `out` is one that file could come to in the state the
/// run had reached when it met the file.
pub open spec fn run_valid(
    b0: Seq<u8>,
    seen0: Map<Seq<char>, Seq<char>>,
    files: Seq<(String, Vec<u8>)>,
    out: Seq<Ingested>,
    ts: Seq<u128>,
) -> bool
    decreases files.len(),
{
    if files.len() == 0 {
        true
    } else {
        let n = files.len() - 1;
        let (b, seen) = run_state(b0, seen0, files.drop_last(), out, ts);
        run_valid(b0, seen0, files.drop_last(), out, ts) && outcome_allowed(b, seen, files[n], out[n])
    }
}

/// A run over `files` reads only the outcomes and times of those files.
proof fn lemma_run_prefix(
    b0: Seq<u8>,
    seen0: Map<Seq<char>, Seq<char>>,
    files: Seq<(String, Vec<u8>)>,
    out1: Seq<Ingested>,
    ts1: Seq<u128>,
    out2: Seq<Ingested>,
    ts2: Seq<u128>,
)
    requires
        forall|k: int| 0 <= k < files.len() ==> out1[k] == out2[k] && ts1[k] == ts2[k],
    ensures
        run_state(b0, seen0, files, out1, ts1) == run_state(b0, seen0, files, out2, ts2),
        run_valid(b0, seen0, files, out1, ts1) == run_valid(b0, seen0, files, out2, ts2),
    decreases files.len(),
{
    if files.len() > 0 {
        lemma_run_prefix(b0, seen0, files.drop_last(), out1, ts1, out2, ts2);
    }
}

/// No two files share a path.
pub open spec fn distinct_paths(files: Seq<(String, Vec<u8>)>) -> bool {
    forall|i: int, j: int|
        0 <= i < j < files.len() ==> #[trigger] files[i].0@ != #[trigger] files[j].0@
}

/// Every file either is already held by the cube as the latest content for
/// its path, or cannot be stored.
pub open spec fn nothing_to_store(b: Seq<u8>, files: Seq<(String, Vec<u8>)>) -> bool {
    forall|i: int|
        0 <= i < files.len() ==> !storable(#[trigger] files[i].0@, files[i].1@) || up_to_date(
            seen_of(events(b)),
            files[i].0@,
            files[i].1@,
        )
}

/// What ingesting `files` into the cube `before`, giving the cube `after`
/// and the outcomes `out`, guarantees: with distinct paths, every file that
/// could be stored and whose append did not fail is the latest content for
/// its path afterwards.
pub open spec fn ingested(
    after: Seq<u8>,
    files: Seq<(String, Vec<u8>)>,
    out: Seq<Ingested>,
) -> bool {
    &&& out.len() == files.len()
    &&& distinct_paths(files) ==> forall|i: int|
        0 <= i < files.len() ==> #[trigger] out[i] is Failed || !storable(files[i].0@, files[i].1@)
            || up_to_date(seen_of(events(after)), files[i].0@, files[i].1@)
}

/// Ingesting the same files a second time, over an unchanged tree, appends
/// nothing: after a first run in which no append failed, every file of the
/// second run (the same files, in whatever order) is either already held as
/// the latest content for its path or cannot be stored, and on such input
/// `store_files` and `store_directory` leave the cube as it is.
pub proof fn lemma_second_ingest_appends_nothing(
    after: Seq<u8>,
    files: Seq<(String, Vec<u8>)>,
    out: Seq<Ingested>,
    again: Seq<(String, Vec<u8>)>,
)
    requires
        ingested(after, files, out),
        distinct_paths(files),
        forall|i: int| 0 <= i < out.len() ==> !(#[trigger] out[i] is Failed),
        again.to_multiset() == files.to_multiset(),
    ensures
        nothing_to_store(after, again),
{
    assert forall|i: int| 0 <= i < again.len() implies !storable(#[trigger] again[i].0@, again[i].1@)
        || up_to_date(seen_of(events(after)), again[i].0@, again[i].1@) by {
        assert(again.contains(again[i]));
        assert(files.to_multiset().count(again[i]) > 0);
        assert(files.contains(again[i]));
        let j = choose|j: int| 0 <= j < files.len() && files[j] == again[i];
        assert(!(out[j] is Failed));
    }
}

/// Appending a record adds its path and content hash to the seen map.
proof fn lemma_seen_after_append(b: Seq<u8>, e: EventModel)
    requires
        crate::codec::header_valid(b),
        no_torn_tail(b),
        fits(e),
        e.id < u64::MAX,
    ensures
        events(appended(b, e)) == events(b).push(e),
        seen_of(events(appended(b, e))) == seen_of(events(b)).insert(
            e.phenomenon,
            blake3_hex_of(encode_utf8(e.noumenon)),
        ),
        no_torn_tail(appended(b, e)),
{
    lemma_appended_reads(b, e);
    assert(events(appended(b, e)) =~= events(b).push(e));
    assert(events(b).push(e).drop_last() =~= events(b));
}

impl Writer {
    /// For each path that the cube's events name, the hash of the latest
    /// content stored under it.
    pub fn rebuild_seen_index_from_log(&self) -> (r: SeenIndex)
        ensures
            r@ == seen_of(events(self.bytes())),
    {
        let evs = self.read_all();
        let mut seen = SeenIndex::new();
        let mut i: usize = 0;
        while i < evs.len()
            invariant
                models(evs@) == events(self.bytes()),
                i <= evs@.len(),
                seen@ == seen_of(models(evs@).take(i as int)),
            decreases evs@.len() - i,
        {
            let ev = &evs[i];
            let hash = content_hash(ev.noumenon.as_str().as_bytes());
            let path = ev.phenomenon.clone();
            seen.insert(path, hash);
            assert(models(evs@).take(i + 1).drop_last() =~= models(
                evs@,
            ).take(i as int));
            i = i + 1;
        }
        assert(models(evs@).take(i as int) =~= models(evs@));
        seen
    }

    /// Ingests one file read from `path` with content `bytes`, given the
    /// seen map of the cube: skips it when unchanged, refuses it when it is
    /// not UTF-8 text or too long for a record, and otherwise appends it as
    /// a record (phenomenon the path, noumenon the text) and records its
    /// hash in `seen`.
    pub fn ingest_file(&mut self, seen: &mut SeenIndex, path: &str, bytes: &[u8]) -> (r: Ingested)
        requires
            old(self).wf(),
        ensures
            final(self).wf(),
            up_to_date(old(seen)@, path@, bytes@) ==> r == Ingested::Unchanged,
            !up_to_date(old(seen)@, path@, bytes@) && !valid_utf8(bytes@) ==> r == Ingested::NotText,
            !up_to_date(old(seen)@, path@, bytes@) && valid_utf8(bytes@) && !storable(path@, bytes@)
                ==> r == Ingested::TooLong,
            !up_to_date(old(seen)@, path@, bytes@) && storable(path@, bytes@) ==> r is Stored
                || r is Failed,
            r is Failed ==> r == Ingested::Failed(LogError::ClockSkew) || (r == Ingested::Failed(
                LogError::IdOverflow,
            ) && old(self).next() == u64::MAX),
            r is Stored ==> r == Ingested::Stored(old(self).bytes().len() as u64) && final(self).next()
                == old(self).next() + 1 && final(seen)@ == old(seen)@.insert(
                path@,
                blake3_hex_of(bytes@),
            ) && exists|timestamp: u128|
                final(self).bytes() == appended(
                    old(self).bytes(),
                    EventModel {
                        id: old(self).next(),
                        timestamp,
                        phenomenon: path@,
                        noumenon: decode_utf8(bytes@),
                    },
                ),
            !(r is Stored) ==> final(self).bytes() == old(self).bytes() && final(self).next() == old(
                self,
            ).next() && final(seen)@ == old(seen)@,
    {
        let hash = content_hash(bytes);
        let same = match seen.get(path) {
            Some(old_hash) => *old_hash == hash,
            None => false,
        };
        if same {
            return Ingested::Unchanged;
        }
        let text = match utf8_string(bytes) {
            Some(t) => t,
            None => return Ingested::NotText,
        };
        let path_len = path.as_bytes().len();
        proof {
            encode_utf8_decode_utf8(text@);
            assert(path_len == encode_utf8(path@).len());
            assert(encode_utf8(text@) == bytes@);
        }
        if bytes.len() > MAX_FIELD || path_len > MAX_FIELD {
            return Ingested::TooLong;
        }
        match self.append(path, text.as_str()) {
            Ok(off) => {
                proof {
                    assert(decode_utf8(bytes@) == text@);
                }
                seen.insert(path.to_owned(), hash);
                Ingested::Stored(off)
            },
            Err(e) => Ingested::Failed(e),
        }
    }

    /// Ingests files, given as (path, content) pairs, in order, starting from
    /// the seen map rebuilt from the cube: each file comes to what
    /// `outcome_allowed` permits in the state the run has reached, and each
    /// stored file appends exactly one record with the next id, its path and
    /// its text (`run_state`). Only a clock reading before the epoch or an
    /// exhausted id counter makes an append fail. When every file is
    /// unchanged or cannot be stored, nothing is appended. Records appended
    /// after a torn tail are not read back by later runs.
    pub fn store_files(&mut self, files: &Vec<(String, Vec<u8>)>) -> (r: Vec<Ingested>)
        requires
            old(self).wf(),
        ensures
            final(self).wf(),
            r@.len() == files@.len(),
            no_torn_tail(old(self).bytes()) ==> no_torn_tail(final(self).bytes()) && ingested(
                final(self).bytes(),
                files@,
                r@,
            ),
            nothing_to_store(old(self).bytes(), files@) ==> final(self).bytes() == old(self).bytes()
                && forall|i: int| 0 <= i < r@.len() ==> !(#[trigger] r@[i] is Stored) && !(r@[i] is Failed),
            exists|ts: Seq<u128>|
                ts.len() == files@.len() && run_valid(
                    old(self).bytes(),
                    seen_of(events(old(self).bytes())),
                    files@,
                    r@,
                    ts,
                ) && #[trigger] run_state(
                    old(self).bytes(),
                    seen_of(events(old(self).bytes())),
                    files@,
                    r@,
                    ts,
                ).0 == final(self).bytes(),
    {
        let ghost start = self.bytes();
        let mut seen = self.rebuild_seen_index_from_log();
        let ghost seen0 = seen@;
        let ghost mut ts: Seq<u128> = Seq::empty();
        let mut out: Vec<Ingested> = Vec::new();
        let mut i: usize = 0;
        while i < files.len()
            invariant
                self.wf(),
                seen0 == seen_of(events(start)),
                ts.len() == i,
                run_valid(start, seen0, files@.take(i as int), out@, ts),
                run_state(start, seen0, files@.take(i as int), out@, ts) == (self.bytes(), seen@),
                no_torn_tail(start) ==> no_torn_tail(self.bytes()) && seen@ == seen_of(
                    events(self.bytes()),
                ),
                i <= files@.len(),
                out@.len() == i,
                distinct_paths(files@) && no_torn_tail(start) ==> forall|j: int|
                    0 <= j < i ==> #[trigger] out@[j] is Failed || !storable(files@[j].0@, files@[j].1@)
                        || up_to_date(seen@, files@[j].0@, files@[j].1@),
                nothing_to_store(start, files@) ==> self.bytes() == start && seen@ == seen_of(
                    events(start),
                ) && forall|j: int|
                    0 <= j < i ==> !(#[trigger] out@[j] is Stored) && !(out@[j] is Failed),
            decreases files@.len() - i,
        {
            let ghost before = self.bytes();
            let ghost seen_before = seen@;
            let outcome = self.ingest_file(&mut seen, files[i].0.as_str(), files[i].1.as_slice());
            proof {
                if outcome is Stored && no_torn_tail(start) {
                    let ts = choose|timestamp: u128|
                        self.bytes() == appended(
                            before,
                            EventModel {
                                id: stored_next_id(before),
                                timestamp,
                                phenomenon: files@[i as int].0@,
                                noumenon: decode_utf8(files@[i as int].1@),
                            },
                        );
                    let e = EventModel {
                        id: stored_next_id(before),
                        timestamp: ts,
                        phenomenon: files@[i as int].0@,
                        noumenon: decode_utf8(files@[i as int].1@),
                    };
                    decode_utf8_encode_utf8(files@[i as int].1@);
                    lemma_seen_after_append(before, e);
                }
                if distinct_paths(files@) && no_torn_tail(start) {
                    assert forall|j: int| 0 <= j < i implies #[trigger] out@[j] is Failed || !storable(
                        files@[j].0@,
                        files@[j].1@,
                    ) || up_to_date(seen@, files@[j].0@, files@[j].1@) by {
                        assert(files@[j].0@ != files@[i as int].0@);
                    }
                }
            }
            let ghost t_i: u128 = if outcome is Stored {
                choose|timestamp: u128|
                    self.bytes() == #[trigger] appended(
                        before,
                        EventModel {
                            id: stored_next_id(before),
                            timestamp,
                            phenomenon: files@[i as int].0@,
                            noumenon: decode_utf8(files@[i as int].1@),
                        },
                    )
            } else {
                0
            };
            let ghost out_before = out@;
            let ghost ts_before = ts;
            out.push(outcome);
            proof {
                ts = ts.push(t_i);
                let pre = files@.take(i as int);
                let cur = files@.take(i + 1);
                assert(cur.drop_last() =~= pre);
                assert(cur[i as int] == files@[i as int]);
                lemma_run_prefix(start, seen0, pre, out_before, ts_before, out@, ts);
                assert(file_record(files@[i as int], stored_next_id(before), t_i) == EventModel {
                    id: stored_next_id(before),
                    timestamp: t_i,
                    phenomenon: files@[i as int].0@,
                    noumenon: decode_utf8(files@[i as int].1@),
                });
            }
            i = i + 1;
        }
        assert(files@.take(i as int) =~= files@);
        assert(run_valid(start, seen0, files@, out@, ts));
        assert(run_state(start, seen0, files@, out@, ts).0 == self.bytes());
        out
    }
}

/// The candidates among walked files, each given as (displayed path, path
/// components, content), as (path, content) pairs.
pub open spec fn candidates_of(walked: Seq<(String, Vec<String>, Vec<u8>)>) -> Seq<(String, Vec<u8>)>
    decreases walked.len(),
{
    if walked.len() == 0 {
        seq![]
    } else {
        let w = walked.last();
        if candidate(w.1@.map_values(|c: String| c@)) {
            candidates_of(walked.drop_last()).push((w.0, w.2))
        } else {
            candidates_of(walked.drop_last())
        }
    }
}

impl Writer {
    /// Ingests the files found by walking a directory, each given as
    /// (displayed path, path components, content): keeps the candidates,
    /// sorts them by path, and stores them in that order as `store_files`
    /// does. Returns the files stored in order, with what became of each.
    pub fn store_directory(&mut self, walked: Vec<(String, Vec<String>, Vec<u8>)>) -> (r: (
        Vec<(String, Vec<u8>)>,
        Vec<Ingested>,
    ))
        requires
            old(self).wf(),
        ensures
            final(self).wf(),
            sorted_by_path(r.0@),
            r.0@.to_multiset() == candidates_of(walked@).to_multiset(),
            r.1@.len() == r.0@.len(),
            exists|ts: Seq<u128>|
                ts.len() == r.0@.len() && run_valid(
                    old(self).bytes(),
                    seen_of(events(old(self).bytes())),
                    r.0@,
                    r.1@,
                    ts,
                ) && #[trigger] run_state(
                    old(self).bytes(),
                    seen_of(events(old(self).bytes())),
                    r.0@,
                    r.1@,
                    ts,
                ).0 == final(self).bytes(),
            no_torn_tail(old(self).bytes()) ==> no_torn_tail(final(self).bytes()) && ingested(
                final(self).bytes(),
                r.0@,
                r.1@,
            ),
            nothing_to_store(old(self).bytes(), r.0@) ==> final(self).bytes() == old(self).bytes(),
    {
        let mut input = walked;
        let mut picked: Vec<(String, Vec<u8>)> = Vec::new();
        assert(picked@.to_multiset() =~= Multiset::empty()) by {
            assert(picked@.to_multiset().len() == 0);
        }
        while input.len() > 0
            invariant
                picked@.to_multiset().add(candidates_of(input@).to_multiset()) == candidates_of(
                    walked@,
                ).to_multiset(),
            decreases input@.len(),
        {
            let ghost before = input@;
            let (path, components, bytes) = input.pop().unwrap();
            assert(before.drop_last() =~= input@);
            if is_candidate(&components) {
                picked.push((path, bytes));
            }
        }
        assert(candidates_of(input@).to_multiset() =~= Multiset::empty()) by {
            assert(candidates_of(input@) =~= Seq::<(String, Vec<u8>)>::empty());
            assert(candidates_of(input@).to_multiset().len() == 0);
        }
        let files = sort_by_path(picked);
        let out = self.store_files(&files);
        (files, out)
    }
}

} // verus!
