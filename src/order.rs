//! Deterministic ordering of listed files: by the bytes of their paths,
//! compared lexicographically.

use vstd::prelude::*;
use vstd::multiset::Multiset;
use vstd::utf8::encode_utf8;

verus! {

broadcast use {
    vstd::seq_lib::group_to_multiset_ensures,
    vstd::multiset::group_multiset_axioms,
    vstd::multiset::lemma_multiset_empty_len,
};

/// `a` comes no later than `b` in lexicographic byte order.
pub open spec fn lex_le(a: Seq<u8>, b: Seq<u8>) -> bool
    decreases a.len(),
{
    if a.len() == 0 {
        true
    } else if b.len() == 0 {
        false
    } else if a[0] != b[0] {
        a[0] < b[0]
    } else {
        lex_le(a.drop_first(), b.drop_first())
    }
}

/// Any two byte strings are ordered one way or the other.
pub proof fn lemma_lex_total(a: Seq<u8>, b: Seq<u8>)
    ensures
        lex_le(a, b) || lex_le(b, a),
    decreases a.len(),
{
    if a.len() > 0 && b.len() > 0 && a[0] == b[0] {
        lemma_lex_total(a.drop_first(), b.drop_first());
    }
}

/// The order is transitive.
pub proof fn lemma_lex_trans(a: Seq<u8>, b: Seq<u8>, c: Seq<u8>)
    requires
        lex_le(a, b),
        lex_le(b, c),
    ensures
        lex_le(a, c),
    decreases a.len(),
{
    if a.len() > 0 && b.len() > 0 && c.len() > 0 && a[0] == b[0] && b[0] == c[0] {
        lemma_lex_trans(a.drop_first(), b.drop_first(), c.drop_first());
    }
}

/// Whether `a` comes no later than `b` in lexicographic byte order.
pub fn bytes_le(a: &[u8], b: &[u8]) -> (r: bool)
    ensures
        r == lex_le(a@, b@),
{
    let mut i: usize = 0;
    assert(a@.skip(0) =~= a@ && b@.skip(0) =~= b@);
    while i < a.len() && i < b.len() && a[i] == b[i]
        invariant
            i <= a@.len(),
            i <= b@.len(),
            lex_le(a@, b@) == lex_le(a@.skip(i as int), b@.skip(i as int)),
        decreases a@.len() - i,
    {
        assert(a@.skip(i as int).drop_first() =~= a@.skip(i + 1));
        assert(b@.skip(i as int).drop_first() =~= b@.skip(i + 1));
        i = i + 1;
    }
    if i == a.len() {
        true
    } else if i == b.len() {
        false
    } else {
        a[i] < b[i]
    }
}

/// The sort key of a listed file: its path's bytes.
pub open spec fn path_key(f: (String, Vec<u8>)) -> Seq<u8> {
    encode_utf8(f.0@)
}

/// Files listed in path order.
pub open spec fn sorted_by_path(s: Seq<(String, Vec<u8>)>) -> bool {
    forall|i: int, j: int| 0 <= i < j < s.len() ==> lex_le(#[trigger] path_key(s[i]), #[trigger] path_key(s[j]))
}

/// The same files, listed in path order.
pub fn sort_by_path(files: Vec<(String, Vec<u8>)>) -> (r: Vec<(String, Vec<u8>)>)
    ensures
        sorted_by_path(r@),
        r@.to_multiset() == files@.to_multiset(),
{
    let mut input = files;
    let mut out: Vec<(String, Vec<u8>)> = Vec::new();
    assert(out@.to_multiset().len() == 0);
    assert(out@.to_multiset() =~= Multiset::empty());
    assert(input@.to_multiset().add(out@.to_multiset()) =~= files@.to_multiset());
    while input.len() > 0
        invariant
            sorted_by_path(out@),
            input@.to_multiset().add(out@.to_multiset()) == files@.to_multiset(),
        decreases input@.len(),
    {
        let ghost before_in = input@;
        let x = input.pop().unwrap();
        assert(before_in =~= input@.push(x));
        let mut j: usize = 0;
        while j < out.len() && bytes_le(out[j].0.as_str().as_bytes(), x.0.as_str().as_bytes())
            invariant
                j <= out@.len(),
                forall|k: int| 0 <= k < j ==> lex_le(#[trigger] path_key(out@[k]), path_key(x)),
            decreases out@.len() - j,
        {
            j = j + 1;
        }
        proof {
            if j < out@.len() {
                lemma_lex_total(path_key(out@[j as int]), path_key(x));
            }
        }
        let ghost before_out = out@;
        out.insert(j, x);
        proof {
            assert forall|a: int, b: int| 0 <= a < b < out@.len() implies lex_le(
                #[trigger] path_key(out@[a]),
                #[trigger] path_key(out@[b]),
            ) by {
                if b < j {
                    assert(out@[a] == before_out[a] && out@[b] == before_out[b]);
                } else if b == j {
                    assert(out@[a] == before_out[a]);
                } else if a == j {
                    assert(out@[b] == before_out[b - 1]);
                    if b - 1 > j {
                        lemma_lex_trans(path_key(x), path_key(before_out[j as int]), path_key(before_out[b - 1]));
                    }
                } else if a < j {
                    assert(out@[a] == before_out[a] && out@[b] == before_out[b - 1]);
                    lemma_lex_trans(path_key(before_out[a]), path_key(x), path_key(before_out[j as int]));
                    if b - 1 > j {
                        lemma_lex_trans(path_key(before_out[a]), path_key(before_out[j as int]), path_key(before_out[b - 1]));
                    }
                } else {
                    assert(out@[a] == before_out[a - 1] && out@[b] == before_out[b - 1]);
                }
            }
        }
    }
    assert(input@.to_multiset().len() == 0);
    assert(input@.to_multiset() =~= Multiset::empty());
    assert(out@.to_multiset() =~= files@.to_multiset());
    out
}

} // verus!
