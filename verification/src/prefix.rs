//! Prefixes: how one store holds many collections.
//!
//! The keys of a collection all start with its prefix, and in the order of the
//! store they lie together. So a scan of the store from a key under the
//! prefix, cut off at the first key that does not start with the prefix, is a
//! scan of the collection.

use vstd::prelude::*;
use crate::bytes::{
    bytes_le, bytes_lt, lemma_common_prefix, lemma_concat_prefix, lemma_le_transitive,
    lemma_prefix_block, lemma_prefix_le, lemma_split_prefix,
};
use crate::scan::{holds_key, scans, Entry};

verus! {

/// The part of `m` that lies under the prefix `p`, with the prefix taken off
/// the keys.
pub open spec fn entries_under(m: Map<Seq<u8>, Seq<u8>>, p: Seq<u8>) -> Map<Seq<u8>, Seq<u8>> {
    Map::new(|e: Seq<u8>| m.contains_key(p + e), |e: Seq<u8>| m[p + e])
}

/// `m` without the entries whose key starts with `p`.
pub open spec fn without_prefix(m: Map<Seq<u8>, Seq<u8>>, p: Seq<u8>) -> Map<Seq<u8>, Seq<u8>> {
    Map::new(|k: Seq<u8>| m.contains_key(k) && !p.is_prefix_of(k), |k: Seq<u8>| m[k])
}

/// The leading entries of `r` whose key starts with `p`, up to the first one
/// that does not, with the prefix taken off the keys.
pub open spec fn under_prefix(r: Seq<Entry>, p: Seq<u8>) -> Seq<Entry>
    decreases r.len(),
{
    if r.len() == 0 || !p.is_prefix_of(r[0].0) {
        Seq::empty()
    } else {
        seq![(r[0].0.skip(p.len() as int), r[0].1)] + under_prefix(r.skip(1), p)
    }
}

/// A write under a prefix is a write to the part of the store under it.
pub proof fn lemma_entries_insert(m: Map<Seq<u8>, Seq<u8>>, p: Seq<u8>, e: Seq<u8>, v: Seq<u8>)
    ensures
        entries_under(m.insert(p + e, v), p) == entries_under(m, p).insert(e, v),
{
    assert forall|x: Seq<u8>| p + x == p + e <==> x == e by {
        lemma_common_prefix(p, x, e);
    }
    assert(entries_under(m.insert(p + e, v), p) =~= entries_under(m, p).insert(e, v));
}

/// A removal under a prefix is a removal from the part of the store under it.
pub proof fn lemma_entries_remove(m: Map<Seq<u8>, Seq<u8>>, p: Seq<u8>, e: Seq<u8>)
    ensures
        entries_under(m.remove(p + e), p) == entries_under(m, p).remove(e),
{
    assert forall|x: Seq<u8>| p + x == p + e <==> x == e by {
        lemma_common_prefix(p, x, e);
    }
    assert(entries_under(m.remove(p + e), p) =~= entries_under(m, p).remove(e));
}

/// Once the keys that start with a prefix are removed, nothing is left under
/// it.
pub proof fn lemma_entries_cleared(m: Map<Seq<u8>, Seq<u8>>, p: Seq<u8>)
    ensures
        entries_under(without_prefix(m, p), p) == Map::<Seq<u8>, Seq<u8>>::empty(),
{
    assert forall|x: Seq<u8>| p.is_prefix_of(p + x) by {
        lemma_concat_prefix(p, x);
    }
    assert(entries_under(without_prefix(m, p), p) =~= Map::<Seq<u8>, Seq<u8>>::empty());
}

/// What [`under_prefix`] is, entry by entry: it follows `r` for as long as the
/// keys start with `p`, and stops at the first key that does not.
pub proof fn lemma_under_prefix(r: Seq<Entry>, p: Seq<u8>)
    ensures
        under_prefix(r, p).len() <= r.len(),
        forall|i: int| 0 <= i < under_prefix(r, p).len() ==> p.is_prefix_of((#[trigger] r[i]).0),
        forall|i: int|
            #![trigger under_prefix(r, p)[i]]
            0 <= i < under_prefix(r, p).len() ==> under_prefix(r, p)[i] == (
                r[i].0.skip(p.len() as int),
                r[i].1,
            ),
        under_prefix(r, p).len() < r.len() ==> !p.is_prefix_of(r[under_prefix(r, p).len() as int].0),
    decreases r.len(),
{
    if r.len() != 0 && p.is_prefix_of(r[0].0) {
        let t = r.skip(1);
        lemma_under_prefix(t, p);
        let head = seq![(r[0].0.skip(p.len() as int), r[0].1)];
        assert(under_prefix(r, p) == head + under_prefix(t, p));
        assert forall|i: int| 0 <= i < under_prefix(r, p).len() implies p.is_prefix_of(
            (#[trigger] r[i]).0,
        ) by {
            if i > 0 {
                assert(t[i - 1] == r[i]);
            }
        }
        assert forall|i: int|
            #![trigger under_prefix(r, p)[i]]
            0 <= i < under_prefix(r, p).len() implies under_prefix(r, p)[i] == (
            r[i].0.skip(p.len() as int),
            r[i].1,
        ) by {
            if i > 0 {
                assert(under_prefix(r, p)[i] == under_prefix(t, p)[i - 1]);
                assert(t[i - 1] == r[i]);
            } else {
                assert(under_prefix(r, p)[0] == head[0]);
            }
        }
        if under_prefix(r, p).len() < r.len() {
            assert(t[under_prefix(t, p).len() as int] == r[under_prefix(r, p).len() as int]);
        }
    } else {
        assert(under_prefix(r, p).len() == 0);
    }
}

/// Scanning a store from `p + e` and keeping the entries under `p` is the same
/// as scanning, from `e`, the part of the store that lies under `p`.
pub proof fn lemma_scan_under_prefix(
    m: Map<Seq<u8>, Seq<u8>>,
    p: Seq<u8>,
    e: Seq<u8>,
    r: Seq<Entry>,
)
    requires
        scans(m, p + e, r),
    ensures
        scans(entries_under(m, p), e, under_prefix(r, p)),
{
    let u = under_prefix(r, p);
    let sub = entries_under(m, p);
    lemma_under_prefix(r, p);
    assert forall|i: int| 0 <= i < u.len() implies r[i].0 == p + (#[trigger] u[i]).0 by {
        assert(u[i] == (r[i].0.skip(p.len() as int), r[i].1));
        lemma_split_prefix(p, r[i].0);
    }
    assert forall|i: int, j: int| 0 <= i < j < u.len() implies bytes_lt(
        #[trigger] u[i].0,
        #[trigger] u[j].0,
    ) by {
        assert(bytes_lt(r[i].0, r[j].0));
        lemma_common_prefix(p, u[i].0, u[j].0);
    }
    assert forall|i: int| 0 <= i < u.len() implies {
        let x = #[trigger] u[i];
        bytes_le(e, x.0) && sub.contains_pair(x.0, x.1)
    } by {
        let y = r[i];
        assert(bytes_le(p + e, y.0) && m.contains_pair(y.0, y.1));
        lemma_common_prefix(p, e, u[i].0);
    }
    assert forall|s: Seq<u8>| #[trigger] sub.dom().contains(s) && bytes_le(e, s) implies holds_key(
        u,
        s,
    ) by {
        let k = p + s;
        lemma_common_prefix(p, e, s);
        lemma_concat_prefix(p, s);
        assert(m.dom().contains(k));
        assert(holds_key(r, k));
        let j = choose|j: int| 0 <= j < r.len() && (#[trigger] r[j]).0 == k;
        if j >= u.len() {
            let x = r[u.len() as int];
            lemma_concat_prefix(p, e);
            lemma_prefix_le(p, p + e);
            assert(bytes_le(p + e, x.0) && m.contains_pair(x.0, x.1));
            lemma_le_transitive(p, p + e, x.0);
            if j > u.len() {
                assert(bytes_lt(x.0, r[j].0));
            }
            lemma_prefix_block(p, x.0, k);
        }
        assert(u[j].0 == s);
    }
}

} // verus!
