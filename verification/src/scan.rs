//! Scans: the entries of a store in ascending order of their keys, from a
//! given key on.
//!
//! A scan is described by a relation, [`scans`], between the contents of a
//! store, the key to start from and a sequence of entries. The relation leaves
//! no choice: a store has one scan from a given key.

use vstd::prelude::*;
use crate::bytes::{
    bytes_le, bytes_lt, lemma_le_lt_transitive, lemma_le_transitive, lemma_lt_asymmetric,
    lemma_lt_irreflexive, lemma_lt_total,
};

verus! {

/// A key and its value, as the byte strings that the store holds.
pub type Entry = (Seq<u8>, Seq<u8>);

/// The keys of `s` are strictly ascending.
pub open spec fn ascending(s: Seq<Entry>) -> bool {
    forall|i: int, j: int| 0 <= i < j < s.len() ==> bytes_lt(#[trigger] s[i].0, #[trigger] s[j].0)
}

/// Some entry of `s` has the key `k`.
pub open spec fn holds_key(s: Seq<Entry>, k: Seq<u8>) -> bool {
    exists|i: int| 0 <= i < s.len() && (#[trigger] s[i]).0 == k
}

/// `s` lists, in ascending order of their keys, exactly the entries of `m`
/// whose key is at or above `from`.
pub open spec fn scans(m: Map<Seq<u8>, Seq<u8>>, from: Seq<u8>, s: Seq<Entry>) -> bool {
    &&& ascending(s)
    &&& forall|i: int|
        0 <= i < s.len() ==> {
            let e = #[trigger] s[i];
            bytes_le(from, e.0) && m.contains_pair(e.0, e.1)
        }
    &&& forall|k: Seq<u8>| #[trigger] m.dom().contains(k) && bytes_le(from, k) ==> holds_key(s, k)
}

/// The place of `k` among the keys of `s`: the entries before `i` have keys
/// below `k`, and the one at `i`, if there is one, has `k` or a key above it.
pub open spec fn is_slot(s: Seq<Entry>, k: Seq<u8>, i: int) -> bool {
    &&& 0 <= i <= s.len()
    &&& forall|j: int| 0 <= j < i ==> bytes_lt((#[trigger] s[j]).0, k)
    &&& i < s.len() ==> bytes_le(k, s[i].0)
}

/// The number of leading entries of `s` whose key is below `bound`.
pub open spec fn count_below(s: Seq<Entry>, bound: Seq<u8>) -> nat
    decreases s.len(),
{
    if s.len() == 0 || bytes_le(bound, s[0].0) {
        0
    } else {
        1 + count_below(s.skip(1), bound)
    }
}

/// Two scans of one store from one key agree at every place of the first.
proof fn lemma_scans_agree(
    m: Map<Seq<u8>, Seq<u8>>,
    from: Seq<u8>,
    s1: Seq<Entry>,
    s2: Seq<Entry>,
    i: int,
)
    requires
        scans(m, from, s1),
        scans(m, from, s2),
        0 <= i < s1.len(),
    ensures
        i < s2.len(),
        s1[i] == s2[i],
    decreases i,
{
    // the key at `i` of the first scan stands somewhere in the second, at `j`
    let x = s1[i];
    assert(bytes_le(from, x.0) && m.contains_pair(x.0, x.1));
    assert(m.dom().contains(x.0));
    assert(holds_key(s2, x.0));
    let j = choose|j: int| 0 <= j < s2.len() && (#[trigger] s2[j]).0 == x.0;
    let y = s2[j];
    assert(bytes_le(from, y.0) && m.contains_pair(y.0, y.1));
    if j < i {
        // by induction the first scan has that key at `j` as well, before `i`
        lemma_scans_agree(m, from, s1, s2, j);
        assert(bytes_lt(s1[j].0, s1[i].0));
        lemma_lt_irreflexive(x.0);
    } else if j > i {
        // the second scan has a smaller key at `i`, for which the first scan
        // has no place: not before `i`, by induction, and not from `i` on
        let z = s2[i];
        assert(bytes_le(from, z.0) && m.contains_pair(z.0, z.1));
        assert(m.dom().contains(z.0));
        assert(holds_key(s1, z.0));
        let k = choose|k: int| 0 <= k < s1.len() && (#[trigger] s1[k]).0 == z.0;
        assert(bytes_lt(s2[i].0, s2[j].0));
        lemma_lt_irreflexive(z.0);
        lemma_lt_asymmetric(z.0, x.0);
        if k < i {
            lemma_scans_agree(m, from, s1, s2, k);
            assert(bytes_lt(s2[k].0, s2[i].0));
        } else if k > i {
            assert(bytes_lt(s1[i].0, s1[k].0));
        }
    }
}

/// A store has one scan from a given key: two sequences that both list its
/// entries at or above `from` in ascending order are the same sequence.
pub proof fn lemma_scan_unique(
    m: Map<Seq<u8>, Seq<u8>>,
    from: Seq<u8>,
    s1: Seq<Entry>,
    s2: Seq<Entry>,
)
    requires
        scans(m, from, s1),
        scans(m, from, s2),
    ensures
        s1 == s2,
{
    if s1.len() < s2.len() {
        lemma_scans_agree(m, from, s2, s1, s1.len() as int);
    }
    if s2.len() < s1.len() {
        lemma_scans_agree(m, from, s1, s2, s2.len() as int);
    }
    assert forall|i: int| 0 <= i < s1.len() implies s1[i] == s2[i] by {
        lemma_scans_agree(m, from, s1, s2, i);
    }
    assert(s1 =~= s2);
}

/// In an ascending sequence every key from the place of `k` on is at or
/// above `k`.
pub proof fn lemma_slot_above(s: Seq<Entry>, k: Seq<u8>, i: int)
    requires
        ascending(s),
        is_slot(s, k, i),
    ensures
        forall|j: int| i <= j < s.len() ==> bytes_le(k, (#[trigger] s[j]).0),
{
    assert forall|j: int| i <= j < s.len() implies bytes_le(k, (#[trigger] s[j]).0) by {
        if j > i {
            assert(bytes_lt(s[i].0, s[j].0));
            lemma_le_lt_transitive(k, s[i].0, s[j].0);
        }
    }
}

/// A tail of an ascending sequence is ascending.
pub proof fn lemma_ascending_skip(s: Seq<Entry>, n: int)
    requires
        ascending(s),
        0 <= n <= s.len(),
    ensures
        ascending(s.skip(n)),
{
    let t = s.skip(n);
    assert forall|i: int, j: int| 0 <= i < j < t.len() implies bytes_lt(
        #[trigger] t[i].0,
        #[trigger] t[j].0,
    ) by {
        assert(bytes_lt(s[i + n].0, s[j + n].0));
    }
}

/// [`count_below`] finds the place of `bound` in an ascending sequence.
pub proof fn lemma_count_below(s: Seq<Entry>, bound: Seq<u8>)
    requires
        ascending(s),
    ensures
        is_slot(s, bound, count_below(s, bound) as int),
    decreases s.len(),
{
    if s.len() != 0 && !bytes_le(bound, s[0].0) {
        let t = s.skip(1);
        lemma_ascending_skip(s, 1);
        lemma_count_below(t, bound);
        lemma_lt_total(s[0].0, bound);
        let c = count_below(s, bound) as int;
        assert forall|j: int| 0 <= j < c implies bytes_lt((#[trigger] s[j]).0, bound) by {
            if j > 0 {
                assert(t[j - 1] == s[j]);
            }
        }
        if c < s.len() {
            assert(t[c - 1] == s[c]);
        }
    }
}

/// A scan from a higher key is a tail of a scan from a lower key: the tail
/// that begins at the place of the higher key.
pub proof fn lemma_scan_cut(
    m: Map<Seq<u8>, Seq<u8>>,
    low: Seq<u8>,
    high: Seq<u8>,
    all: Seq<Entry>,
    c: int,
)
    requires
        scans(m, low, all),
        bytes_le(low, high),
        is_slot(all, high, c),
    ensures
        scans(m, high, all.skip(c)),
{
    let t = all.skip(c);
    lemma_ascending_skip(all, c);
    lemma_slot_above(all, high, c);
    assert forall|i: int| 0 <= i < t.len() implies {
        let x = #[trigger] t[i];
        bytes_le(high, x.0) && m.contains_pair(x.0, x.1)
    } by {
        let y = all[i + c];
        assert(bytes_le(low, y.0) && m.contains_pair(y.0, y.1));
    }
    assert forall|k: Seq<u8>| #[trigger] m.dom().contains(k) && bytes_le(high, k) implies holds_key(
        t,
        k,
    ) by {
        lemma_le_transitive(low, high, k);
        assert(holds_key(all, k));
        let j = choose|j: int| 0 <= j < all.len() && (#[trigger] all[j]).0 == k;
        if j < c {
            lemma_le_lt_transitive(high, k, high);
            lemma_lt_irreflexive(high);
        }
        assert(t[j - c].0 == k);
    }
}

/// A scan from a higher key leaves out of a scan from a lower key the
/// entries whose keys are below the higher key, and nothing else.
pub proof fn lemma_scan_tail(
    m: Map<Seq<u8>, Seq<u8>>,
    low: Seq<u8>,
    high: Seq<u8>,
    all: Seq<Entry>,
)
    requires
        scans(m, low, all),
        bytes_le(low, high),
    ensures
        scans(m, high, all.skip(count_below(all, high) as int)),
{
    lemma_count_below(all, high);
    lemma_scan_cut(m, low, high, all, count_below(all, high) as int);
}

} // verus!
