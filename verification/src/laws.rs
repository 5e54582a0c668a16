//! What holds of every index, stated over the models that the contracts use:
//! the contents of a store as a map, the entries under a prefix, and the
//! sequence that an iteration hands out.

use vstd::prelude::*;
use crate::bytes::{
    bytes_le, bytes_lt, lemma_common_prefix, lemma_concat_prefix, lemma_empty_least,
    lemma_lt_asymmetric, lemma_lt_irreflexive,
};
use crate::codec::{StorageKey, StorageValue};
use crate::index::{lookup, Error};
use crate::prefix::{entries_under, lemma_entries_insert, lemma_entries_remove, without_prefix};
use crate::scan::{
    count_below, holds_key, is_slot, lemma_count_below, lemma_scan_tail, lemma_scan_unique,
    lemma_slot_above, scans, Entry,
};

verus! {

/// Composite keys. Under one prefix, two keys of the store are the same
/// exactly where the typed keys are the same, and they are ordered as the
/// typed keys are.
pub proof fn lemma_composite_keys<K: StorageKey>(p: Seq<u8>, a: K::V, b: K::V)
    ensures
        p + K::encode_spec(a) == p + K::encode_spec(b) <==> a == b,
        bytes_lt(p + K::encode_spec(a), p + K::encode_spec(b)) <==> K::precedes(a, b),
{
    lemma_common_prefix(p, K::encode_spec(a), K::encode_spec(b));
    K::lemma_decode_encode(a);
    K::lemma_decode_encode(b);
    K::lemma_order_preserved(a, b);
}

/// Two prefixes of which neither begins with the other.
pub open spec fn independent(p: Seq<u8>, q: Seq<u8>) -> bool {
    !p.is_prefix_of(q) && !q.is_prefix_of(p)
}

/// Under one of two independent prefixes no key starts with the other.
pub proof fn lemma_independent(p: Seq<u8>, q: Seq<u8>, e: Seq<u8>)
    requires
        independent(p, q),
    ensures
        !q.is_prefix_of(p + e),
{
    let k = p + e;
    if q.is_prefix_of(k) {
        if q.len() <= p.len() {
            assert(q =~= p.subrange(0, q.len() as int)) by {
                assert forall|i: int| 0 <= i < q.len() implies q[i] == p[i] by {
                    assert(k.subrange(0, q.len() as int)[i] == k[i]);
                }
            }
        } else {
            assert(p =~= q.subrange(0, p.len() as int)) by {
                assert forall|i: int| 0 <= i < p.len() implies p[i] == q[i] by {
                    assert(k.subrange(0, q.len() as int)[i] == k[i]);
                }
            }
        }
    }
}

/// Under two different prefixes, keys whose encodings have one length are
/// different keys of the store.
pub proof fn lemma_same_width_apart(p: Seq<u8>, q: Seq<u8>, a: Seq<u8>, b: Seq<u8>)
    requires
        p != q,
        a.len() == b.len(),
    ensures
        p + a != q + b,
{
    if p + a == q + b {
        assert((p + a).len() == (q + b).len());
        assert(p =~= (p + a).subrange(0, p.len() as int));
        assert(q =~= (q + b).subrange(0, q.len() as int));
    }
}

/// Prefix isolation. A `put` of `key` under the prefix `p` changes nothing
/// under the prefix `q`, so that neither `get` nor `iter` under `q` sees it,
/// unless the key that is written, `p` and the encoding of `key`, itself
/// starts with `q`.
pub proof fn lemma_put_isolated<K: StorageKey, V: StorageValue>(
    m: Map<Seq<u8>, Seq<u8>>,
    p: Seq<u8>,
    key: K::V,
    value: V::V,
    q: Seq<u8>,
)
    requires
        !q.is_prefix_of(p + K::encode_spec(key)),
    ensures
        entries_under(m.insert(p + K::encode_spec(key), V::encode_spec(value)), q) == entries_under(
            m,
            q,
        ),
{
    let k = p + K::encode_spec(key);
    assert forall|e: Seq<u8>| q + e != k by {
        lemma_concat_prefix(q, e);
    }
    assert(entries_under(m.insert(k, V::encode_spec(value)), q) =~= entries_under(m, q));
}

/// Prefix isolation, for independent prefixes. Where neither of two prefixes
/// begins with the other, no `put` under the one changes anything under the
/// other, whatever the key and the value.
pub proof fn lemma_put_independent<K: StorageKey, V: StorageValue>(
    m: Map<Seq<u8>, Seq<u8>>,
    p: Seq<u8>,
    key: K::V,
    value: V::V,
    q: Seq<u8>,
)
    requires
        independent(p, q),
    ensures
        entries_under(m.insert(p + K::encode_spec(key), V::encode_spec(value)), q) == entries_under(
            m,
            q,
        ),
{
    lemma_independent(p, q, K::encode_spec(key));
    lemma_put_isolated::<K, V>(m, p, key, value, q);
}

/// Prefix isolation, for reads with keys of one width. Under two different
/// prefixes, a `put` under the one changes no `get` under the other, as long
/// as the key written and the key read have encodings of one length, which
/// all keys of a type of fixed width have.
pub proof fn lemma_get_isolated<K: StorageKey, V: StorageValue, W: StorageValue>(
    m: Map<Seq<u8>, Seq<u8>>,
    p: Seq<u8>,
    written: K::V,
    value: V::V,
    q: Seq<u8>,
    read: K::V,
)
    requires
        p != q,
        K::encode_spec(written).len() == K::encode_spec(read).len(),
    ensures
        lookup::<W>(
            entries_under(m.insert(p + K::encode_spec(written), V::encode_spec(value)), q),
            K::encode_spec(read),
        ) == lookup::<W>(entries_under(m, q), K::encode_spec(read)),
{
    lemma_same_width_apart(p, q, K::encode_spec(written), K::encode_spec(read));
}

/// Round trip. After `put(key, value)`, a `get(key)` through the same prefix
/// finds `value`.
pub proof fn lemma_put_then_get<K: StorageKey, V: StorageValue>(
    m: Map<Seq<u8>, Seq<u8>>,
    p: Seq<u8>,
    key: K::V,
    value: V::V,
)
    ensures
        lookup::<V>(
            entries_under(m.insert(p + K::encode_spec(key), V::encode_spec(value)), p),
            K::encode_spec(key),
        ) == Ok::<Option<V::V>, Error>(Some(value)),
{
    lemma_entries_insert(m, p, K::encode_spec(key), V::encode_spec(value));
    V::lemma_decode_encode(value);
}

/// Existence after a write. After `put(key, _)` the index contains `key`.
pub proof fn lemma_present_after_put<K: StorageKey>(
    m: Map<Seq<u8>, Seq<u8>>,
    p: Seq<u8>,
    key: K::V,
    value: Seq<u8>,
)
    ensures
        entries_under(m.insert(p + K::encode_spec(key), value), p).contains_key(
            K::encode_spec(key),
        ),
{
    lemma_entries_insert(m, p, K::encode_spec(key), value);
}

/// Existence after a removal. After `delete(key)` the index does not contain
/// `key`.
pub proof fn lemma_absent_after_delete<K: StorageKey>(
    m: Map<Seq<u8>, Seq<u8>>,
    p: Seq<u8>,
    key: K::V,
)
    ensures
        !entries_under(m.remove(p + K::encode_spec(key)), p).contains_key(K::encode_spec(key)),
{
    lemma_entries_remove(m, p, K::encode_spec(key));
}

/// Idempotent delete. Removing a key that the index does not contain leaves
/// the whole store as it was.
pub proof fn lemma_delete_absent<K: StorageKey>(m: Map<Seq<u8>, Seq<u8>>, p: Seq<u8>, key: K::V)
    requires
        !entries_under(m, p).contains_key(K::encode_spec(key)),
    ensures
        m.remove(p + K::encode_spec(key)) == m,
{
    assert(m.remove(p + K::encode_spec(key)) =~= m);
}

/// Iteration order. Of two entries that an iteration hands out, the earlier
/// has the smaller key, in the order of the key type.
pub proof fn lemma_iteration_order<K: StorageKey>(
    m: Map<Seq<u8>, Seq<u8>>,
    from: Seq<u8>,
    s: Seq<Entry>,
    i: int,
    j: int,
    first: K::V,
    second: K::V,
)
    requires
        scans(m, from, s),
        0 <= i < j < s.len(),
        K::decode_spec(s[i].0) == Some(first),
        K::decode_spec(s[j].0) == Some(second),
    ensures
        K::precedes(first, second),
{
    assert(bytes_lt(s[i].0, s[j].0));
    K::lemma_encode_decode(s[i].0);
    K::lemma_encode_decode(s[j].0);
    K::lemma_order_preserved(first, second);
}

/// Iteration order, from the keys. Of two keys of the index, a full iteration
/// hands out the smaller one before the greater one.
pub proof fn lemma_smaller_key_first<K: StorageKey>(
    m: Map<Seq<u8>, Seq<u8>>,
    s: Seq<Entry>,
    smaller: K::V,
    greater: K::V,
)
    requires
        scans(m, Seq::empty(), s),
        m.contains_key(K::encode_spec(smaller)),
        m.contains_key(K::encode_spec(greater)),
        K::precedes(smaller, greater),
    ensures
        exists|i: int, j: int|
            0 <= i < j < s.len() && (#[trigger] s[i]).0 == K::encode_spec(smaller) && (
            #[trigger] s[j]).0 == K::encode_spec(greater),
{
    let a = K::encode_spec(smaller);
    let b = K::encode_spec(greater);
    K::lemma_order_preserved(smaller, greater);
    lemma_empty_least(a);
    lemma_empty_least(b);
    assert(m.dom().contains(a) && m.dom().contains(b));
    assert(holds_key(s, a) && holds_key(s, b));
    let i = choose|i: int| 0 <= i < s.len() && (#[trigger] s[i]).0 == a;
    let j = choose|j: int| 0 <= j < s.len() && (#[trigger] s[j]).0 == b;
    lemma_lt_irreflexive(a);
    lemma_lt_asymmetric(a, b);
    if j < i {
        assert(bytes_lt(s[j].0, s[i].0));
    }
    assert(i < j);
}

/// Iteration boundary, the cleared index. Where an index holds nothing, as
/// after `clear`, an iteration hands out nothing.
pub proof fn lemma_scan_of_nothing(from: Seq<u8>, s: Seq<Entry>)
    requires
        scans(Map::<Seq<u8>, Seq<u8>>::empty(), from, s),
    ensures
        s == Seq::<Entry>::empty(),
{
    if s.len() > 0 {
        let e = s[0];
        assert(Map::<Seq<u8>, Seq<u8>>::empty().contains_pair(e.0, e.1));
    }
    assert(s =~= Seq::<Entry>::empty());
}

/// Iteration boundary, the other indexes. A `clear` under the prefix `p`
/// changes nothing under the prefix `q`, unless the store holds a key that
/// starts with both.
pub proof fn lemma_clear_isolated(m: Map<Seq<u8>, Seq<u8>>, p: Seq<u8>, q: Seq<u8>)
    requires
        forall|e: Seq<u8>| m.contains_key(#[trigger] (q + e)) ==> !p.is_prefix_of(q + e),
    ensures
        entries_under(without_prefix(m, p), q) == entries_under(m, q),
{
    assert(entries_under(without_prefix(m, p), q) =~= entries_under(m, q));
}

/// Iteration boundary, for independent prefixes. Where neither of two
/// prefixes begins with the other, a `clear` under the one changes nothing
/// under the other, whatever the store holds.
pub proof fn lemma_clear_independent(m: Map<Seq<u8>, Seq<u8>>, p: Seq<u8>, q: Seq<u8>)
    requires
        independent(p, q),
    ensures
        entries_under(without_prefix(m, p), q) == entries_under(m, q),
{
    assert forall|e: Seq<u8>| m.contains_key(#[trigger] (q + e)) implies !p.is_prefix_of(q + e) by {
        lemma_independent(q, p, e);
    }
    lemma_clear_isolated(m, p, q);
}

/// Resume correctness. An iteration from `seed` hands out a tail of the full
/// iteration: it leaves out the entries whose keys are below `seed`, and
/// nothing else, whether `seed` is a key of the index or not.
pub proof fn lemma_resume(
    m: Map<Seq<u8>, Seq<u8>>,
    seed: Seq<u8>,
    all: Seq<Entry>,
    rest: Seq<Entry>,
)
    requires
        scans(m, Seq::empty(), all),
        scans(m, seed, rest),
    ensures
        rest == all.skip(count_below(all, seed) as int),
        is_slot(all, seed, count_below(all, seed) as int),
        forall|i: int| count_below(all, seed) <= i < all.len() ==> bytes_le(seed, (#[trigger] all[i]).0),
{
    lemma_empty_least(seed);
    lemma_scan_tail(m, Seq::empty(), seed, all);
    lemma_scan_unique(m, seed, rest, all.skip(count_below(all, seed) as int));
    lemma_count_below(all, seed);
    lemma_slot_above(all, seed, count_below(all, seed) as int);
}

/// Resume past the end. An iteration from a seed that comes after every key
/// of the index hands out nothing.
pub proof fn lemma_resume_past_end(m: Map<Seq<u8>, Seq<u8>>, seed: Seq<u8>, rest: Seq<Entry>)
    requires
        forall|k: Seq<u8>| #[trigger] m.dom().contains(k) ==> bytes_lt(k, seed),
        scans(m, seed, rest),
    ensures
        rest == Seq::<Entry>::empty(),
{
    if rest.len() > 0 {
        let e = rest[0];
        assert(bytes_le(seed, e.0) && m.contains_pair(e.0, e.1));
        assert(m.dom().contains(e.0));
        lemma_lt_asymmetric(e.0, seed);
    }
    assert(rest =~= Seq::<Entry>::empty());
}

/// Resume correctness, in the order of the key type. The entries that an
/// iteration from the key `seed` leaves out of the full iteration are those
/// whose keys come before `seed`.
pub proof fn lemma_resume_keys<K: StorageKey>(
    m: Map<Seq<u8>, Seq<u8>>,
    seed: K::V,
    all: Seq<Entry>,
    i: int,
    key: K::V,
)
    requires
        scans(m, Seq::empty(), all),
        0 <= i < all.len(),
        K::decode_spec(all[i].0) == Some(key),
    ensures
        i < count_below(all, K::encode_spec(seed)) <==> K::precedes(key, seed),
{
    let bound = K::encode_spec(seed);
    let entry = all[i];
    lemma_count_below(all, bound);
    lemma_slot_above(all, bound, count_below(all, bound) as int);
    K::lemma_encode_decode(entry.0);
    K::lemma_order_preserved(key, seed);
    if bytes_lt(entry.0, bound) {
        lemma_lt_asymmetric(entry.0, bound);
    }
}

} // verus!
