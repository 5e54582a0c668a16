//! A store that lives in memory: a vector of entries in ascending key order.
//!
//! It is readable and writable and never fails. A cursor over it works on a
//! copy of the entries, so that later writes do not reach a pass under way.

use vstd::prelude::*;
use vstd::slice::slice_to_vec;
use crate::bytes::{
    bytes_equal, bytes_le, bytes_less, bytes_lt, has_prefix, lemma_empty_least,
    lemma_le_lt_transitive, lemma_lt_asymmetric, lemma_lt_irreflexive, lemma_lt_total,
    lemma_lt_transitive, lemma_prefix_block, lemma_prefix_le,
};
use crate::prefix::without_prefix;
use crate::scan::{
    ascending, holds_key, is_slot, lemma_scan_cut, lemma_slot_above, scans, Entry,
};
use crate::store::{Cursor, Fork, Snapshot, StorageError, Store};

verus! {

/// The entries of a vector, as the byte strings they hold.
pub open spec fn entry_views(v: Seq<(Vec<u8>, Vec<u8>)>) -> Seq<Entry> {
    Seq::new(v.len(), |i: int| (v[i].0@, v[i].1@))
}

/// The map that a sequence of entries stands for.
pub open spec fn map_of(s: Seq<Entry>) -> Map<Seq<u8>, Seq<u8>> {
    Map::new(
        |k: Seq<u8>| holds_key(s, k),
        |k: Seq<u8>| s[choose|i: int| 0 <= i < s.len() && (#[trigger] s[i]).0 == k].1,
    )
}

/// In an ascending sequence no key stands at two places.
pub proof fn lemma_one_place(s: Seq<Entry>, i: int, j: int)
    requires
        ascending(s),
        0 <= i < s.len(),
        0 <= j < s.len(),
        s[i].0 == s[j].0,
    ensures
        i == j,
{
    lemma_lt_irreflexive(s[i].0);
    if i < j {
        assert(bytes_lt(s[i].0, s[j].0));
    } else if j < i {
        assert(bytes_lt(s[j].0, s[i].0));
    }
}

/// The map of an ascending sequence holds each entry of the sequence.
pub proof fn lemma_map_of(s: Seq<Entry>)
    requires
        ascending(s),
    ensures
        forall|i: int|
            0 <= i < s.len() ==> {
                let e = #[trigger] s[i];
                map_of(s).contains_pair(e.0, e.1)
            },
{
    assert forall|i: int| 0 <= i < s.len() implies {
        let e = #[trigger] s[i];
        map_of(s).contains_pair(e.0, e.1)
    } by {
        let k = s[i].0;
        assert(holds_key(s, k));
        let j = choose|j: int| 0 <= j < s.len() && (#[trigger] s[j]).0 == k;
        lemma_one_place(s, i, j);
    }
}

/// An ascending sequence is the scan of its map from the least key.
pub proof fn lemma_map_of_scans(s: Seq<Entry>)
    requires
        ascending(s),
    ensures
        scans(map_of(s), Seq::empty(), s),
{
    lemma_map_of(s);
    assert forall|i: int| 0 <= i < s.len() implies {
        let e = #[trigger] s[i];
        bytes_le(Seq::empty(), e.0) && map_of(s).contains_pair(e.0, e.1)
    } by {
        lemma_empty_least(s[i].0);
    }
}

/// A key that does not stand at its place in an ascending sequence stands
/// nowhere in it.
pub proof fn lemma_not_held(s: Seq<Entry>, k: Seq<u8>, i: int)
    requires
        ascending(s),
        is_slot(s, k, i),
        i < s.len() ==> s[i].0 != k,
    ensures
        !holds_key(s, k),
{
    lemma_slot_above(s, k, i);
    lemma_lt_irreflexive(k);
    if holds_key(s, k) {
        let j = choose|j: int| 0 <= j < s.len() && (#[trigger] s[j]).0 == k;
        if j > i {
            assert(bytes_lt(s[i].0, s[j].0));
            lemma_le_lt_transitive(k, s[i].0, k);
        }
    }
}

/// Putting a new key at its place keeps the sequence ascending and adds the
/// entry to its map.
pub proof fn lemma_insert(s: Seq<Entry>, i: int, e: Entry)
    requires
        ascending(s),
        is_slot(s, e.0, i),
        i < s.len() ==> s[i].0 != e.0,
    ensures
        ascending(s.insert(i, e)),
        map_of(s.insert(i, e)) == map_of(s).insert(e.0, e.1),
{
    let t = s.insert(i, e);
    lemma_slot_above(s, e.0, i);
    assert forall|a: int, b: int| 0 <= a < b < t.len() implies bytes_lt(
        #[trigger] t[a].0,
        #[trigger] t[b].0,
    ) by {
        if b < i {
            assert(bytes_lt(s[a].0, s[b].0));
        } else if b == i {
            assert(bytes_lt(s[a].0, e.0));
        } else if a < i {
            assert(bytes_lt(s[a].0, e.0));
            assert(bytes_le(e.0, s[b - 1].0));
            lemma_le_lt_transitive(s[a].0, e.0, s[b - 1].0);
        } else if a == i {
            assert(bytes_le(e.0, s[i].0));
            if b - 1 > i {
                assert(bytes_lt(s[i].0, s[b - 1].0));
                lemma_le_lt_transitive(e.0, s[i].0, s[b - 1].0);
            }
        } else {
            assert(bytes_lt(s[a - 1].0, s[b - 1].0));
        }
    }
    lemma_map_of(s);
    lemma_map_of(t);
    let m1 = map_of(t);
    let m2 = map_of(s).insert(e.0, e.1);
    assert forall|k: Seq<u8>| m1.dom().contains(k) implies m2.dom().contains(k) && m1[k] == m2[k] by {
        let j = choose|j: int| 0 <= j < t.len() && (#[trigger] t[j]).0 == k;
        let x = t[j];
        assert(m1.contains_pair(x.0, x.1));
        if j < i {
            let y = s[j];
            assert(map_of(s).contains_pair(y.0, y.1));
        } else if j > i {
            let y = s[j - 1];
            assert(map_of(s).contains_pair(y.0, y.1));
            assert(bytes_lt(t[i].0, t[j].0));
            lemma_lt_asymmetric(e.0, k);
        }
    }
    assert forall|k: Seq<u8>| m2.dom().contains(k) implies m1.dom().contains(k) by {
        if k == e.0 {
            assert(t[i].0 == k);
        } else {
            let j = choose|j: int| 0 <= j < s.len() && (#[trigger] s[j]).0 == k;
            if j < i {
                assert(t[j].0 == k);
            } else {
                assert(t[j + 1].0 == k);
            }
        }
    }
    assert(m1 =~= m2);
}

/// Taking an entry out keeps the sequence ascending and removes the key from
/// its map.
pub proof fn lemma_remove(s: Seq<Entry>, i: int)
    requires
        ascending(s),
        0 <= i < s.len(),
    ensures
        ascending(s.remove(i)),
        map_of(s.remove(i)) == map_of(s).remove(s[i].0),
        is_slot(s.remove(i), s[i].0, i),
        i < s.remove(i).len() ==> s.remove(i)[i].0 != s[i].0,
{
    let t = s.remove(i);
    assert forall|a: int, b: int| 0 <= a < b < t.len() implies bytes_lt(
        #[trigger] t[a].0,
        #[trigger] t[b].0,
    ) by {
        let a0 = if a < i { a } else { a + 1 };
        let b0 = if b < i { b } else { b + 1 };
        assert(bytes_lt(s[a0].0, s[b0].0));
    }
    assert forall|j: int| 0 <= j < i implies bytes_lt((#[trigger] t[j]).0, s[i].0) by {
        assert(bytes_lt(s[j].0, s[i].0));
    }
    if i < t.len() {
        assert(bytes_lt(s[i].0, s[i + 1].0));
        lemma_lt_asymmetric(s[i].0, s[i + 1].0);
    }
    lemma_map_of(s);
    lemma_map_of(t);
    let m1 = map_of(t);
    let m2 = map_of(s).remove(s[i].0);
    assert forall|k: Seq<u8>| m1.dom().contains(k) implies m2.dom().contains(k) && m1[k] == m2[k] by {
        let j = choose|j: int| 0 <= j < t.len() && (#[trigger] t[j]).0 == k;
        let x = t[j];
        assert(m1.contains_pair(x.0, x.1));
        let j0 = if j < i { j } else { j + 1 };
        let y = s[j0];
        assert(map_of(s).contains_pair(y.0, y.1));
        if k == s[i].0 {
            lemma_one_place(s, i, j0);
        }
    }
    assert forall|k: Seq<u8>| m2.dom().contains(k) implies m1.dom().contains(k) by {
        let j = choose|j: int| 0 <= j < s.len() && (#[trigger] s[j]).0 == k;
        if j < i {
            assert(t[j].0 == k);
        } else {
            assert(t[j - 1].0 == k);
        }
    }
    assert(m1 =~= m2);
}

/// Where the entries under a prefix stand together, cutting that stretch out
/// keeps the sequence ascending and removes the prefix from its map.
pub proof fn lemma_remove_range(s: Seq<Entry>, lo: int, hi: int, p: Seq<u8>)
    requires
        ascending(s),
        0 <= lo <= hi <= s.len(),
        forall|j: int| 0 <= j < s.len() ==> (p.is_prefix_of((#[trigger] s[j]).0) <==> lo <= j < hi),
    ensures
        ascending(s.subrange(0, lo) + s.subrange(hi, s.len() as int)),
        map_of(s.subrange(0, lo) + s.subrange(hi, s.len() as int)) == without_prefix(map_of(s), p),
{
    let t = s.subrange(0, lo) + s.subrange(hi, s.len() as int);
    let d = hi - lo;
    assert forall|a: int| 0 <= a < t.len() implies #[trigger] t[a] == s[if a < lo {
        a
    } else {
        a + d
    }] by {}
    assert forall|a: int, b: int| 0 <= a < b < t.len() implies bytes_lt(
        #[trigger] t[a].0,
        #[trigger] t[b].0,
    ) by {
        let a0 = if a < lo { a } else { a + d };
        let b0 = if b < lo { b } else { b + d };
        assert(t[a] == s[a0] && t[b] == s[b0]);
        assert(bytes_lt(s[a0].0, s[b0].0));
    }
    lemma_map_of(s);
    lemma_map_of(t);
    let m1 = map_of(t);
    let m2 = without_prefix(map_of(s), p);
    assert forall|k: Seq<u8>| m1.dom().contains(k) implies m2.dom().contains(k) && m1[k] == m2[k] by {
        let j = choose|j: int| 0 <= j < t.len() && (#[trigger] t[j]).0 == k;
        let x = t[j];
        assert(m1.contains_pair(x.0, x.1));
        let j0 = if j < lo { j } else { j + d };
        let y = s[j0];
        assert(x == y);
        assert(map_of(s).contains_pair(y.0, y.1));
    }
    assert forall|k: Seq<u8>| m2.dom().contains(k) implies m1.dom().contains(k) by {
        let j = choose|j: int| 0 <= j < s.len() && (#[trigger] s[j]).0 == k;
        let y = s[j];
        if j < lo {
            assert(t[j].0 == k);
        } else {
            assert(t[j - d].0 == k);
        }
    }
    assert(m1 =~= m2);
}

/// A store in memory.
pub struct MemoryDB {
    entries: Vec<(Vec<u8>, Vec<u8>)>,
}

/// A cursor over a copy of entries of a [`MemoryDB`].
pub struct MemoryIter {
    entries: Vec<(Vec<u8>, Vec<u8>)>,
    pos: usize,
}

/// The place of `key` among `entries`, found by halving.
fn slot(entries: &Vec<(Vec<u8>, Vec<u8>)>, key: &[u8]) -> (i: usize)
    requires
        ascending(entry_views(entries@)),
    ensures
        is_slot(entry_views(entries@), key@, i as int),
{
    let ghost s = entry_views(entries@);
    let mut lo: usize = 0;
    let mut hi: usize = entries.len();
    while lo < hi
        invariant
            lo <= hi <= entries@.len(),
            s == entry_views(entries@),
            ascending(s),
            forall|j: int| 0 <= j < lo ==> bytes_lt((#[trigger] s[j]).0, key@),
            forall|j: int| hi <= j < s.len() ==> bytes_le(key@, (#[trigger] s[j]).0),
        decreases hi - lo,
    {
        let mid: usize = lo + (hi - lo) / 2;
        if bytes_less(entries[mid].0.as_slice(), key) {
            proof {
                assert forall|j: int| 0 <= j < mid + 1 implies bytes_lt((#[trigger] s[j]).0, key@) by {
                    if j < mid {
                        assert(bytes_lt(s[j].0, s[mid as int].0));
                        lemma_lt_transitive(s[j].0, s[mid as int].0, key@);
                    }
                }
            }
            lo = mid + 1;
        } else {
            proof {
                lemma_lt_total(s[mid as int].0, key@);
                assert forall|j: int| mid <= j < s.len() implies bytes_le(key@, (#[trigger] s[j]).0) by {
                    if j > mid {
                        assert(bytes_lt(s[mid as int].0, s[j].0));
                        lemma_le_lt_transitive(key@, s[mid as int].0, s[j].0);
                    }
                }
            }
            hi = mid;
        }
    }
    lo
}

impl MemoryDB {
    #[verifier::type_invariant]
    spec fn wf(self) -> bool {
        ascending(entry_views(self.entries@))
    }

    /// An empty store.
    pub fn new() -> (db: Self)
        ensures
            db.contents() == Map::<Seq<u8>, Seq<u8>>::empty(),
    {
        let db = MemoryDB { entries: Vec::new() };
        assert(db.contents() =~= Map::<Seq<u8>, Seq<u8>>::empty());
        db
    }
}

impl MemoryIter {
    #[verifier::type_invariant]
    spec fn wf(self) -> bool {
        self.pos <= self.entries@.len()
    }
}

impl Store for MemoryDB {
    closed spec fn contents(&self) -> Map<Seq<u8>, Seq<u8>> {
        map_of(entry_views(self.entries@))
    }

    open spec fn never_fails(&self) -> bool {
        true
    }
}

impl Cursor for MemoryIter {
    closed spec fn remaining(&self) -> Seq<Entry> {
        entry_views(self.entries@).skip(self.pos as int)
    }

    fn next(&mut self) -> (r: Option<(Vec<u8>, Vec<u8>)>) {
        proof {
            use_type_invariant(&*self);
        }
        if self.pos < self.entries.len() {
            let key = slice_to_vec(self.entries[self.pos].0.as_slice());
            let value = slice_to_vec(self.entries[self.pos].1.as_slice());
            let ghost s = entry_views(self.entries@);
            let ghost n = self.pos as int;
            self.pos = self.pos + 1;
            proof {
                assert(s[n] == (key@, value@));
                assert(s.skip(n)[0] == s[n]);
                assert(s.skip(n + 1) =~= s.skip(n).skip(1));
            }
            Some((key, value))
        } else {
            None
        }
    }
}

impl Snapshot for MemoryDB {
    type Iter = MemoryIter;

    fn get(&self, key: &[u8]) -> (r: Result<Option<Vec<u8>>, StorageError>) {
        proof {
            use_type_invariant(self);
        }
        let i: usize = slot(&self.entries, key);
        if i < self.entries.len() && bytes_equal(self.entries[i].0.as_slice(), key) {
            proof {
                lemma_map_of(entry_views(self.entries@));
                let e = entry_views(self.entries@)[i as int];
                assert(self.contents().contains_pair(e.0, e.1));
            }
            Ok(Some(slice_to_vec(self.entries[i].1.as_slice())))
        } else {
            proof {
                lemma_not_held(entry_views(self.entries@), key@, i as int);
            }
            Ok(None)
        }
    }

    fn contains(&self, key: &[u8]) -> (r: Result<bool, StorageError>) {
        proof {
            use_type_invariant(self);
        }
        let i: usize = slot(&self.entries, key);
        let found = i < self.entries.len() && bytes_equal(self.entries[i].0.as_slice(), key);
        proof {
            if found {
                assert(entry_views(self.entries@)[i as int].0 == key@);
            } else {
                lemma_not_held(entry_views(self.entries@), key@, i as int);
            }
        }
        Ok(found)
    }

    fn iter(&self, from: &[u8]) -> (it: MemoryIter) {
        proof {
            use_type_invariant(self);
        }
        let start: usize = slot(&self.entries, from);
        let mut tail: Vec<(Vec<u8>, Vec<u8>)> = Vec::new();
        let mut i: usize = start;
        while i < self.entries.len()
            invariant
                start <= i <= self.entries@.len(),
                entry_views(tail@) == entry_views(self.entries@).subrange(start as int, i as int),
            decreases self.entries@.len() - i,
        {
            let key = slice_to_vec(self.entries[i].0.as_slice());
            let value = slice_to_vec(self.entries[i].1.as_slice());
            let ghost copied = tail@;
            tail.push((key, value));
            proof {
                let s = entry_views(self.entries@);
                assert(entry_views(tail@) =~= entry_views(copied).push(s[i as int]));
                assert(s.subrange(start as int, i + 1) =~= s.subrange(start as int, i as int).push(
                    s[i as int],
                ));
            }
            i = i + 1;
        }
        let it = MemoryIter { entries: tail, pos: 0 };
        proof {
            let s = entry_views(self.entries@);
            lemma_map_of_scans(s);
            lemma_empty_least(from@);
            lemma_scan_cut(self.contents(), Seq::empty(), from@, s, start as int);
            assert(it.remaining() =~= s.skip(start as int));
        }
        it
    }
}

impl Fork for MemoryDB {
    fn put(&mut self, key: Vec<u8>, value: Vec<u8>) {
        proof {
            use_type_invariant(&*self);
        }
        let mut entries: Vec<(Vec<u8>, Vec<u8>)> = Vec::new();
        std::mem::swap(&mut self.entries, &mut entries);
        let ghost before = entry_views(entries@);
        let ghost e = (key@, value@);
        let i: usize = slot(&entries, key.as_slice());
        if i < entries.len() && bytes_equal(entries[i].0.as_slice(), key.as_slice()) {
            entries[i] = (key, value);
            proof {
                let without = before.remove(i as int);
                lemma_remove(before, i as int);
                lemma_insert(without, i as int, e);
                assert(entry_views(entries@) =~= without.insert(i as int, e));
                assert(map_of(before).remove(e.0).insert(e.0, e.1) =~= map_of(before).insert(
                    e.0,
                    e.1,
                ));
            }
        } else {
            entries.insert(i, (key, value));
            proof {
                lemma_insert(before, i as int, e);
                assert(entry_views(entries@) =~= before.insert(i as int, e));
            }
        }
        self.entries = entries;
    }

    fn delete(&mut self, key: Vec<u8>) {
        proof {
            use_type_invariant(&*self);
        }
        let mut entries: Vec<(Vec<u8>, Vec<u8>)> = Vec::new();
        std::mem::swap(&mut self.entries, &mut entries);
        let ghost before = entry_views(entries@);
        let i: usize = slot(&entries, key.as_slice());
        if i < entries.len() && bytes_equal(entries[i].0.as_slice(), key.as_slice()) {
            entries.remove(i);
            proof {
                lemma_remove(before, i as int);
                assert(entry_views(entries@) =~= before.remove(i as int));
            }
        } else {
            proof {
                lemma_not_held(before, key@, i as int);
                assert(map_of(before).remove(key@) =~= map_of(before));
            }
        }
        self.entries = entries;
    }

    fn delete_by_prefix(&mut self, prefix: &[u8]) {
        proof {
            use_type_invariant(&*self);
        }
        let mut entries: Vec<(Vec<u8>, Vec<u8>)> = Vec::new();
        std::mem::swap(&mut self.entries, &mut entries);
        let ghost before = entry_views(entries@);
        let lo: usize = slot(&entries, prefix);
        let mut hi: usize = lo;
        while hi < entries.len() && has_prefix(entries[hi].0.as_slice(), prefix)
            invariant
                lo <= hi <= entries@.len(),
                forall|j: int| lo <= j < hi ==> prefix@.is_prefix_of((#[trigger] before[j]).0),
                before == entry_views(entries@),
            decreases entries@.len() - hi,
        {
            hi = hi + 1;
        }
        proof {
            lemma_slot_above(before, prefix@, lo as int);
            assert forall|j: int| 0 <= j < before.len() implies (prefix@.is_prefix_of(
                (#[trigger] before[j]).0,
            ) <==> lo <= j < hi) by {
                let k = before[j].0;
                if j < lo {
                    if prefix@.is_prefix_of(k) {
                        lemma_prefix_le(prefix@, k);
                        lemma_le_lt_transitive(prefix@, k, prefix@);
                        lemma_lt_irreflexive(prefix@);
                    }
                } else if j >= hi {
                    let x = before[hi as int].0;
                    if j > hi {
                        assert(bytes_lt(x, k));
                    }
                    lemma_prefix_block(prefix@, x, k);
                }
            }
            lemma_remove_range(before, lo as int, hi as int, prefix@);
        }
        let mut tail = entries.split_off(hi);
        entries.truncate(lo);
        entries.append(&mut tail);
        proof {
            assert(entry_views(entries@) =~= before.subrange(0, lo as int) + before.subrange(
                hi as int,
                before.len() as int,
            ));
        }
        self.entries = entries;
    }
}

} // verus!
