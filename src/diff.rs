//! Comparison of the working directory with its last snapshot.
//!
//! The caller lists both trees as (relative path, content) pairs; here each
//! path is classified as added, removed or modified, and a modified text
//! file gets its changed lines.

use vstd::prelude::*;
use vstd::utf8::{decode_utf8, encode_utf8_decode_utf8, valid_utf8};

use crate::bytes::same_bytes;
use crate::codec::utf8_string;

verus! {

/// Which side of a comparison a line belongs to.
#[derive(Debug, Clone, Copy, PartialEq, Eq, Structural)]
pub enum LineKind {
    /// Only in the snapshot.
    Removed,
    /// On both sides.
    Same,
    /// Only in the working copy.
    Added,
}

/// The line diff of two texts, each line tagged with its side.
pub uninterp spec fn line_diff_of(left: Seq<char>, right: Seq<char>) -> Seq<(LineKind, Seq<char>)>;

/// Relies on `diff::lines`: the line-by-line diff of `left` against `right`,
/// which depends on the two texts alone; each `Left`, `Both` and `Right`
/// item becomes a removed, same or added line.
#[verifier::external_body]
fn line_diff(left: &str, right: &str) -> (r: Vec<(LineKind, String)>)
    ensures
        lines_view(r@) == line_diff_of(left@, right@),
{
    diff::lines(left, right).into_iter().map(|d| match d {
        diff::Result::Left(l) => (LineKind::Removed, l.to_string()),
        diff::Result::Both(l, _) => (LineKind::Same, l.to_string()),
        diff::Result::Right(l) => (LineKind::Added, l.to_string()),
    }).collect()
}

/// The view of tagged lines.
pub open spec fn lines_view(v: Seq<(LineKind, String)>) -> Seq<(LineKind, Seq<char>)> {
    v.map_values(|l: (LineKind, String)| (l.0, l.1@))
}

/// The lines of a diff that differ, in order.
pub open spec fn changed_lines(s: Seq<(LineKind, Seq<char>)>) -> Seq<(LineKind, Seq<char>)>
    decreases s.len(),
{
    if s.len() == 0 {
        seq![]
    } else if s.last().0 == LineKind::Same {
        changed_lines(s.drop_last())
    } else {
        changed_lines(s.drop_last()).push(s.last())
    }
}

/// What changed in a file present on both sides: its changed lines when both
/// versions are UTF-8 text, `None` for binary content.
pub open spec fn change_of(snapshot: Seq<u8>, work: Seq<u8>) -> Option<
    Seq<(LineKind, Seq<char>)>,
> {
    if valid_utf8(snapshot) && valid_utf8(work) {
        Some(changed_lines(line_diff_of(decode_utf8(snapshot), decode_utf8(work))))
    } else {
        None
    }
}

/// Path to content of a listed tree, a later entry for a path winning.
pub open spec fn files_map(s: Seq<(String, Vec<u8>)>) -> Map<Seq<char>, Seq<u8>>
    decreases s.len(),
{
    if s.len() == 0 {
        Map::empty()
    } else {
        files_map(s.drop_last()).insert(s.last().0@, s.last().1@)
    }
}

/// The paths of `side`, in order, that `other` does not hold.
pub open spec fn only_in(side: Seq<(String, Vec<u8>)>, other: Map<Seq<char>, Seq<u8>>) -> Seq<
    Seq<char>,
>
    decreases side.len(),
{
    if side.len() == 0 {
        seq![]
    } else if other.contains_key(side.last().0@) {
        only_in(side.drop_last(), other)
    } else {
        only_in(side.drop_last(), other).push(side.last().0@)
    }
}

/// The files of `work`, in order, that the snapshot holds with other
/// content: each path with its snapshot and working content.
pub open spec fn modified_of(work: Seq<(String, Vec<u8>)>, snapshot: Map<Seq<char>, Seq<u8>>) -> Seq<
    (Seq<char>, Seq<u8>, Seq<u8>),
>
    decreases work.len(),
{
    if work.len() == 0 {
        seq![]
    } else {
        let (p, b) = (work.last().0@, work.last().1@);
        if snapshot.contains_key(p) && snapshot[p] != b {
            modified_of(work.drop_last(), snapshot).push((p, snapshot[p], b))
        } else {
            modified_of(work.drop_last(), snapshot)
        }
    }
}

/// A file present on both sides with different content.
pub struct Modification {
    pub path: String,
    /// The changed lines, snapshot lines as `Removed` and working lines as
    /// `Added`; `None` when either version is not UTF-8 text.
    pub lines: Option<Vec<(LineKind, String)>>,
}

/// The differences between the working directory and its snapshot.
pub struct DiffReport {
    /// Paths in the working directory only, in its order.
    pub added: Vec<String>,
    /// Paths in the snapshot only, in its order.
    pub removed: Vec<String>,
    /// Paths on both sides whose content differs, in the working order.
    pub modified: Vec<Modification>,
}

/// The view of a list of paths.
pub open spec fn paths_view(v: Seq<String>) -> Seq<Seq<char>> {
    v.map_values(|p: String| p@)
}

/// The view of an optional list of tagged lines.
pub open spec fn change_view(c: Option<Vec<(LineKind, String)>>) -> Option<Seq<(LineKind, Seq<char>)>> {
    match c {
        Some(v) => Some(lines_view(v@)),
        None => None,
    }
}

/// The report lists exactly the added, removed and modified files, each
/// modified one with what changed in it.
pub open spec fn reports(
    r: DiffReport,
    work: Seq<(String, Vec<u8>)>,
    snapshot: Seq<(String, Vec<u8>)>,
) -> bool {
    let m = modified_of(work, files_map(snapshot));
    &&& paths_view(r.added@) == only_in(work, files_map(snapshot))
    &&& paths_view(r.removed@) == only_in(snapshot, files_map(work))
    &&& r.modified@.len() == m.len()
    &&& forall|i: int|
        0 <= i < m.len() ==> (#[trigger] r.modified@[i]).path@ == m[i].0 && change_view(
            r.modified@[i].lines,
        ) == change_of(m[i].1, m[i].2)
}

/// Whether a file, given as the components of its path relative to the
/// working directory, takes part in a comparison: files under the
/// repository's own `.eikyu` directory do not.
pub open spec fn compared(components: Seq<Seq<char>>) -> bool {
    !(components.len() > 1 && components[0] == ".eikyu"@)
}

/// Whether a file, given as the components of its relative path, takes part
/// in a comparison.
pub fn is_compared(components: &Vec<String>) -> (r: bool)
    ensures
        r == compared(components@.map_values(|c: String| c@)),
{
    let own = ".eikyu".to_owned();
    if components.len() > 1 && components[0] == own {
        false
    } else {
        true
    }
}

/// The index of the entry that `files_map` takes the content of `path` from.
fn find_file(files: &Vec<(String, Vec<u8>)>, path: &String) -> (r: Option<usize>)
    ensures
        r is Some <==> files_map(files@).contains_key(path@),
        r matches Some(i) ==> i < files@.len() && files@[i as int].0@ == path@ && files@[i as int].1@
            == files_map(files@)[path@],
{
    let mut i: usize = files.len();
    assert(files@.take(i as int) =~= files@);
    while i > 0
        invariant
            i <= files@.len(),
            files_map(files@).contains_key(path@) <==> files_map(files@.take(i as int)).contains_key(
                path@,
            ),
            files_map(files@).contains_key(path@) ==> files_map(files@)[path@] == files_map(
                files@.take(i as int),
            )[path@],
        decreases i,
    {
        let ghost t = files@.take(i as int);
        assert(t.drop_last() =~= files@.take(i - 1));
        assert(t.last() == files@[i - 1]);
        if files[i - 1].0 == *path {
            return Some(i - 1);
        }
        i = i - 1;
    }
    None
}

/// The paths of `side` that `other` does not hold, in order.
fn paths_only_in(side: &Vec<(String, Vec<u8>)>, other: &Vec<(String, Vec<u8>)>) -> (r: Vec<String>)
    ensures
        paths_view(r@) == only_in(side@, files_map(other@)),
{
    let mut out: Vec<String> = Vec::new();
    let mut i: usize = 0;
    while i < side.len()
        invariant
            i <= side@.len(),
            paths_view(out@) == only_in(side@.take(i as int), files_map(other@)),
        decreases side@.len() - i,
    {
        assert(side@.take(i + 1).drop_last() =~= side@.take(i as int));
        if find_file(other, &side[i].0).is_none() {
            let ghost before = out@;
            out.push(side[i].0.clone());
            assert(paths_view(out@) =~= paths_view(before).push(side@[i as int].0@));
        }
        i = i + 1;
    }
    assert(side@.take(i as int) =~= side@);
    out
}

/// The changed lines among tagged lines, in order.
fn keep_changed(lines: Vec<(LineKind, String)>) -> (r: Vec<(LineKind, String)>)
    ensures
        lines_view(r@) == changed_lines(lines_view(lines@)),
{
    let mut out: Vec<(LineKind, String)> = Vec::new();
    let mut i: usize = 0;
    while i < lines.len()
        invariant
            i <= lines@.len(),
            lines_view(out@) == changed_lines(lines_view(lines@).take(i as int)),
        decreases lines@.len() - i,
    {
        assert(lines_view(lines@).take(i + 1).drop_last() =~= lines_view(lines@).take(i as int));
        if lines[i].0 != LineKind::Same {
            let ghost before = out@;
            out.push((lines[i].0, lines[i].1.clone()));
            assert(lines_view(out@) =~= lines_view(before).push(lines_view(lines@)[i as int]));
        }
        i = i + 1;
    }
    assert(lines_view(lines@).take(i as int) =~= lines_view(lines@));
    out
}

/// What changed between two versions of a file.
fn describe_change(snapshot: &[u8], work: &[u8]) -> (r: Option<Vec<(LineKind, String)>>)
    ensures
        change_view(r) == change_of(snapshot@, work@),
{
    match (utf8_string(snapshot), utf8_string(work)) {
        (Some(left), Some(right)) => {
            proof {
                encode_utf8_decode_utf8(left@);
                encode_utf8_decode_utf8(right@);
            }
            Some(keep_changed(line_diff(left.as_str(), right.as_str())))
        },
        _ => None,
    }
}

/// Compares the working directory with its snapshot, both listed as
/// (relative path, content) pairs: paths only in the working directory are
/// added, paths only in the snapshot removed, and paths on both sides with
/// different content modified, with their changed lines when both versions
/// are text.
pub fn compare_trees(work: &Vec<(String, Vec<u8>)>, snapshot: &Vec<(String, Vec<u8>)>) -> (r:
    DiffReport)
    ensures
        reports(r, work@, snapshot@),
{
    let added = paths_only_in(work, snapshot);
    let removed = paths_only_in(snapshot, work);
    let mut modified: Vec<Modification> = Vec::new();
    let ghost smap = files_map(snapshot@);
    let mut i: usize = 0;
    while i < work.len()
        invariant
            smap == files_map(snapshot@),
            i <= work@.len(),
            modified@.len() == modified_of(work@.take(i as int), smap).len(),
            forall|k: int|
                0 <= k < modified@.len() ==> (#[trigger] modified@[k]).path@ == modified_of(
                    work@.take(i as int),
                    smap,
                )[k].0 && change_view(modified@[k].lines) == change_of(
                    modified_of(work@.take(i as int), smap)[k].1,
                    modified_of(work@.take(i as int), smap)[k].2,
                ),
        decreases work@.len() - i,
    {
        assert(work@.take(i + 1).drop_last() =~= work@.take(i as int));
        assert(work@.take(i + 1).last() == work@[i as int]);
        match find_file(snapshot, &work[i].0) {
            Some(j) => {
                if !same_bytes(snapshot[j].1.as_slice(), work[i].1.as_slice()) {
                    let lines = describe_change(snapshot[j].1.as_slice(), work[i].1.as_slice());
                    modified.push(Modification { path: work[i].0.clone(), lines });
                } else {
                    assert(snapshot@[j as int].1@ == work@[i as int].1@);
                }
            },
            None => {},
        }
        i = i + 1;
    }
    assert(work@.take(i as int) =~= work@);
    DiffReport { added, removed, modified }
}

/// With distinct paths, each entry's content is the one `files_map` holds.
proof fn lemma_files_map_entries(s: Seq<(String, Vec<u8>)>)
    requires
        forall|i: int, j: int| 0 <= i < j < s.len() ==> #[trigger] s[i].0@ != #[trigger] s[j].0@,
    ensures
        forall|i: int|
            0 <= i < s.len() ==> files_map(s).contains_key(#[trigger] s[i].0@) && files_map(s)[s[i].0@]
                == s[i].1@,
    decreases s.len(),
{
    if s.len() > 0 {
        let t = s.drop_last();
        assert forall|i: int, j: int| 0 <= i < j < t.len() implies #[trigger] t[i].0@ != #[trigger] t[j].0@ by {
            assert(t[i] == s[i] && t[j] == s[j]);
        }
        lemma_files_map_entries(t);
        assert forall|i: int| 0 <= i < s.len() implies files_map(s).contains_key(#[trigger] s[i].0@)
            && files_map(s)[s[i].0@] == s[i].1@ by {
            if i < s.len() - 1 {
                assert(t[i] == s[i]);
                assert(s[i].0@ != s[s.len() - 1].0@);
            }
        }
    }
}

/// Comparing a tree with an exact copy of itself, as the snapshot is right
/// after it is taken, reports no added, removed or modified file.
pub proof fn lemma_unchanged_tree_reports_nothing(r: DiffReport, files: Seq<(String, Vec<u8>)>)
    requires
        forall|i: int, j: int|
            0 <= i < j < files.len() ==> #[trigger] files[i].0@ != #[trigger] files[j].0@,
        reports(r, files, files),
    ensures
        r.added@.len() == 0,
        r.removed@.len() == 0,
        r.modified@.len() == 0,
{
    lemma_files_map_entries(files);
    lemma_nothing_outside(files, files, files_map(files));
    assert(paths_view(r.added@).len() == r.added@.len());
    assert(paths_view(r.removed@).len() == r.removed@.len());
}

/// No entry of a prefix of a tree is missing from, or differs in, the map
/// of the whole tree.
proof fn lemma_nothing_outside(
    s: Seq<(String, Vec<u8>)>,
    whole: Seq<(String, Vec<u8>)>,
    m: Map<Seq<char>, Seq<u8>>,
)
    requires
        s.len() <= whole.len(),
        forall|i: int| 0 <= i < s.len() ==> #[trigger] s[i] == whole[i],
        forall|i: int|
            0 <= i < whole.len() ==> m.contains_key(#[trigger] whole[i].0@) && m[whole[i].0@]
                == whole[i].1@,
    ensures
        only_in(s, m).len() == 0,
        modified_of(s, m).len() == 0,
    decreases s.len(),
{
    if s.len() > 0 {
        let t = s.drop_last();
        assert forall|i: int| 0 <= i < t.len() implies #[trigger] t[i] == whole[i] by {
            assert(t[i] == s[i]);
        }
        lemma_nothing_outside(t, whole, m);
        assert(s.last() == whole[s.len() - 1]);
    }
}

} // verus!
