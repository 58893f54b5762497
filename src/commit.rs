//! Commits recorded in a cube: a `commit:pending` record reserves the id,
//! and a `commit` record holds the commit itself. Serialising the commit
//! body is left to the caller.

use vstd::prelude::*;

use crate::codec::fields_fit;
use crate::event::{Event, EventModel};
use crate::log::{appended, read_at, LogError, Writer};
use crate::scan::{events, models};

verus! {

/// The phenomenon of a commit record.
pub open spec fn commit_kind() -> Seq<char> {
    "commit"@
}

/// The phenomenon of the record that reserves a commit's id.
pub open spec fn pending_kind() -> Seq<char> {
    "commit:pending"@
}

/// The commit events among `evs`, in order.
pub open spec fn commits_of(evs: Seq<EventModel>) -> Seq<EventModel>
    decreases evs.len(),
{
    if evs.len() == 0 {
        seq![]
    } else if evs.last().phenomenon == commit_kind() {
        commits_of(evs.drop_last()).push(evs.last())
    } else {
        commits_of(evs.drop_last())
    }
}

/// The id of the last commit event among `evs`, if any.
pub open spec fn last_commit_of(evs: Seq<EventModel>) -> Option<u64> {
    let c = commits_of(evs);
    if c.len() == 0 {
        None
    } else {
        Some(c.last().id)
    }
}

/// Ids strictly increase along `evs`.
pub open spec fn ids_increase(evs: Seq<EventModel>) -> bool {
    forall|i: int, j: int| 0 <= i < j < evs.len() ==> #[trigger] evs[i].id < #[trigger] evs[j].id
}

/// When ids increase along `evs`, they increase along its commit events, and
/// none exceeds the last id of `evs`.
pub proof fn lemma_commits_in_id_order(evs: Seq<EventModel>)
    requires
        ids_increase(evs),
    ensures
        ids_increase(commits_of(evs)),
        evs.len() > 0 ==> forall|i: int|
            0 <= i < commits_of(evs).len() ==> #[trigger] commits_of(evs)[i].id <= evs.last().id,
    decreases evs.len(),
{
    if evs.len() > 0 {
        let t = evs.drop_last();
        assert forall|i: int, j: int| 0 <= i < j < t.len() implies #[trigger] t[i].id < #[trigger] t[j].id by {
            assert(t[i] == evs[i] && t[j] == evs[j]);
        }
        lemma_commits_in_id_order(t);
        let ct = commits_of(t);
        if t.len() > 0 {
            assert(t.last() == evs[evs.len() - 2]);
            assert forall|i: int| 0 <= i < ct.len() implies #[trigger] ct[i].id < evs.last().id by {
                assert(ct[i].id <= t.last().id);
            }
        } else {
            assert(ct.len() == 0);
        }
        let c = commits_of(evs);
        assert forall|i: int| 0 <= i < c.len() implies #[trigger] c[i].id <= evs.last().id by {
            if i < ct.len() {
                assert(c[i] == ct[i]);
            }
        }
        assert forall|i: int, j: int| 0 <= i < j < c.len() implies #[trigger] c[i].id < #[trigger] c[j].id by {
            if j < ct.len() {
                assert(c[i] == ct[i] && c[j] == ct[j]);
            } else {
                assert(c[i] == ct[i]);
            }
        }
    }
}

/// The commit events of a cube, in file order, which is id order in any
/// cube written by appends.
pub fn read_commits_from_cube(w: &Writer) -> (r: Vec<Event>)
    ensures
        models(r@) == commits_of(events(w.bytes())),
        crate::chain::well_chained(w.bytes()) ==> forall|i: int, j: int|
            0 <= i < j < r@.len() ==> #[trigger] r@[i].id < #[trigger] r@[j].id,
{
    let evs = w.read_all();
    let kind = "commit".to_owned();
    let mut out: Vec<Event> = Vec::new();
    let ghost all = models(evs@);
    let mut i: usize = 0;
    while i < evs.len()
        invariant
            kind@ == commit_kind(),
            all == events(w.bytes()),
            all == models(evs@),
            i <= evs@.len(),
            models(out@) == commits_of(all.take(i as int)),
        decreases evs@.len() - i,
    {
        let ghost before = out@;
        assert(all.take(i + 1).drop_last() =~= all.take(i as int));
        assert(all[i as int] == evs@[i as int]@);
        if evs[i].phenomenon == kind {
            out.push(evs[i].duplicate());
            assert(models(out@) =~= models(before).push(all[i as int]));
        }
        i = i + 1;
    }
    assert(all.take(i as int) =~= all);
    proof {
        if crate::chain::well_chained(w.bytes()) {
            crate::chain::lemma_chained_ids_increase(w.bytes());
            lemma_commits_in_id_order(all);
            assert forall|a: int, b: int| 0 <= a < b < out@.len() implies #[trigger] out@[a].id
                < #[trigger] out@[b].id by {
                assert(out@[a].id == models(out@)[a].id && out@[b].id == models(out@)[b].id);
            }
        }
    }
    out
}

/// The id of the last commit event of a cube, if any: the parent of the
/// next commit.
pub fn last_commit_id(w: &Writer) -> (r: Option<u64>)
    ensures
        r == last_commit_of(events(w.bytes())),
{
    let commits = read_commits_from_cube(w);
    let n = commits.len();
    if n == 0 {
        None
    } else {
        assert(commits@[n - 1]@ == models(commits@)[n - 1]);
        Some(commits[n - 1].id)
    }
}

/// Appends a record with the given phenomenon and content, returning the
/// offset of its frame.
pub fn save_string_in_cube(w: &mut Writer, phenomenon: &str, content: &str) -> (r: Result<
    u64,
    LogError,
>)
    requires
        old(w).wf(),
        fields_fit(phenomenon@, content@),
    ensures
        final(w).wf(),
        r is Ok ==> r == Ok::<u64, LogError>(old(w).bytes().len() as u64) && final(w).next() == old(
            w,
        ).next() + 1 && exists|timestamp: u128|
            final(w).bytes() == appended(
                old(w).bytes(),
                EventModel { id: old(w).next(), timestamp, phenomenon: phenomenon@, noumenon: content@ },
            ),
        r is Err ==> final(w).bytes() == old(w).bytes() && final(w).next() == old(w).next(),
        old(w).next() < u64::MAX ==> r is Ok || r == Err::<u64, LogError>(LogError::ClockSkew),
{
    w.append(phenomenon, content)
}

impl Writer {
    /// Reserves the id of a new commit: appends a `commit:pending` record
    /// holding `message`, reads it back from its offset, and returns it; its
    /// id is the commit's and its timestamp the commit's time.
    pub fn reserve_commit(&mut self, message: &str) -> (r: Result<Event, LogError>)
        requires
            old(self).wf(),
            fields_fit(pending_kind(), message@),
        ensures
            final(self).wf(),
            r matches Ok(e) ==> e.id == old(self).next() && e@.phenomenon == pending_kind()
                && e@.noumenon == message@ && final(self).next() == old(self).next() + 1
                && final(self).bytes() == appended(old(self).bytes(), e@),
            r is Err ==> final(self).bytes() == old(self).bytes() && final(self).next() == old(
                self,
            ).next(),
            old(self).next() < u64::MAX ==> r is Ok || r == Err::<Event, LogError>(LogError::ClockSkew),
    {
        proof {
            reveal_strlit("commit:pending");
        }
        let ghost before = self.bytes();
        let ghost n0 = self.next();
        let start_len = self.contents().len();
        let off = match self.append("commit:pending", message) {
            Ok(off) => off,
            Err(e) => return Err(e),
        };
        let ghost ev: EventModel;
        proof {
            let ts = choose|timestamp: u128|
                self.bytes() == #[trigger] appended(
                    before,
                    EventModel { id: n0, timestamp, phenomenon: "commit:pending"@, noumenon: message@ },
                );
            ev = EventModel { id: n0, timestamp: ts, phenomenon: pending_kind(), noumenon: message@ };
            crate::chain::lemma_append_read_back(before, ev);
            assert(read_at(self.bytes(), off as int) == Ok::<EventModel, LogError>(ev));
        }
        let r = Writer::read_one_at(self.contents().as_slice(), off);
        proof {
            assert(r matches Ok(e) && e@ == ev);
        }
        r
    }
}

/// A commit's time in milliseconds since the Unix epoch, from its record's
/// nanosecond timestamp; zero when that does not fit in 64 bits.
pub fn commit_millis(timestamp: u128) -> (r: u64)
    ensures
        timestamp / 1_000_000 <= u64::MAX ==> r == timestamp / 1_000_000,
        timestamp / 1_000_000 > u64::MAX ==> r == 0,
{
    let ms = timestamp / 1_000_000;
    if ms <= u64::MAX as u128 {
        ms as u64
    } else {
        0
    }
}

/// A commit time in milliseconds from the value a commit body holds: values
/// above 10^18 are taken as nanoseconds and scaled down; `None` when the
/// result does not fit in an `i64`.
pub open spec fn normalized_time(raw: u128) -> Option<i64> {
    let ms: int = if raw > 1_000_000_000_000_000_000 { (raw / 1_000_000) as int } else { raw as int };
    if ms <= i64::MAX {
        Some(ms as i64)
    } else {
        None
    }
}

/// A commit time as read back from a commit body, in milliseconds: values
/// above 10^18 are taken as nanoseconds and scaled down. `None` when the
/// result does not fit in an `i64`.
pub fn normalize_commit_time(raw: u128) -> (r: Option<i64>)
    ensures
        r == normalized_time(raw),
{
    let ms: u128 = if raw > 1_000_000_000_000_000_000 {
        raw / 1_000_000
    } else {
        raw
    };
    if ms <= i64::MAX as u128 {
        Some(ms as i64)
    } else {
        None
    }
}

/// The text of a pending commit record before its placeholders are filled.
pub const COMMIT_TEMPLATE: &'static str = "%type% %summary%\n\n%body%\n\n%author% <%author_email%>\n\n";

/// `s` with every occurrence of the non-empty `from` replaced by `to`,
/// occurrences taken left to right without overlap.
pub open spec fn replaced(s: Seq<char>, from: Seq<char>, to: Seq<char>) -> Seq<char>
    decreases s.len(),
{
    if from.len() == 0 || s.len() < from.len() {
        s
    } else if s.take(from.len() as int) == from {
        to + replaced(s.skip(from.len() as int), from, to)
    } else {
        seq![s[0]] + replaced(s.drop_first(), from, to)
    }
}

/// Relies on `str::replace`: `s` with every match of the non-empty pattern
/// `from`, taken left to right without overlap, replaced by `to`.
#[verifier::external_body]
fn replace_all(s: &str, from: &str, to: &str) -> (r: String)
    requires
        from@.len() > 0,
    ensures
        r@ == replaced(s@, from@, to@),
{
    s.replace(from, to)
}

/// The message of a pending commit: the template with its placeholders
/// filled one after another, in the order type, summary, body, author,
/// author's email.
pub fn render_commit_message(ty: &str, summary: &str, body: &str, author: &str, email: &str) -> (r:
    String)
    ensures
        r@ == replaced(
            replaced(
                replaced(
                    replaced(
                        replaced(COMMIT_TEMPLATE@, "%type%"@, ty@),
                        "%summary%"@,
                        summary@,
                    ),
                    "%body%"@,
                    body@,
                ),
                "%author%"@,
                author@,
            ),
            "%author_email%"@,
            email@,
        ),
{
    proof {
        reveal_strlit("%type%");
        reveal_strlit("%summary%");
        reveal_strlit("%body%");
        reveal_strlit("%author%");
        reveal_strlit("%author_email%");
        assert("%type%"@.len() > 0 && "%summary%"@.len() > 0 && "%body%"@.len() > 0);
        assert("%author%"@.len() > 0 && "%author_email%"@.len() > 0);
    }
    let m = replace_all(COMMIT_TEMPLATE, "%type%", ty);
    let m = replace_all(m.as_str(), "%summary%", summary);
    let m = replace_all(m.as_str(), "%body%", body);
    let m = replace_all(m.as_str(), "%author%", author);
    replace_all(m.as_str(), "%author_email%", email)
}

/// What a timeline shows of one commit.
pub struct CommitSummary {
    pub id: u64,
    pub ty: String,
    pub summary: String,
    /// Milliseconds since the Unix epoch, when the body gives a usable time.
    pub millis: Option<i64>,
}

/// The summary of the commit record with log id `event_id`, from the fields
/// read back from its body: its own `id` (else the log id), `ty` (else
/// `commit`), `summary` (else empty), and `timestamp`, normalised to
/// milliseconds.
pub fn summarize_commit(
    event_id: u64,
    id: Option<u64>,
    ty: Option<String>,
    summary: Option<String>,
    timestamp: Option<u128>,
) -> (r: CommitSummary)
    ensures
        r.id == (match id {
            Some(i) => i,
            None => event_id,
        }),
        r.ty@ == (match ty {
            Some(t) => t@,
            None => "commit"@,
        }),
        r.summary@ == (match summary {
            Some(s) => s@,
            None => Seq::<char>::empty(),
        }),
        timestamp is None ==> r.millis is None,
        timestamp matches Some(t) ==> r.millis == normalized_time(t),
{
    let millis = match timestamp {
        Some(t) => normalize_commit_time(t),
        None => None,
    };
    CommitSummary {
        id: match id {
            Some(i) => i,
            None => event_id,
        },
        ty: match ty {
            Some(t) => t,
            None => "commit".to_owned(),
        },
        summary: match summary {
            Some(s) => s,
            None => String::new(),
        },
        millis,
    }
}

} // verus!
