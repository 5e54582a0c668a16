//! Lexicographic order on byte strings.
//!
//! A store keeps its keys in this order, so everything that is said about
//! iteration rests on the definitions and lemmas of this module.

use vstd::prelude::*;

verus! {

/// `a` and `b` agree on their first `n` bytes, and at position `n` either `a`
/// has ended while `b` goes on, or `a` holds the smaller byte.
pub open spec fn precedes_at(a: Seq<u8>, b: Seq<u8>, n: int) -> bool {
    &&& 0 <= n <= a.len()
    &&& n < b.len()
    &&& forall|i: int| 0 <= i < n ==> a[i] == b[i]
    &&& n < a.len() ==> a[n] < b[n]
}

/// Strict lexicographic order on byte strings.
pub open spec fn bytes_lt(a: Seq<u8>, b: Seq<u8>) -> bool {
    exists|n: int| precedes_at(a, b, n)
}

/// Lexicographic order on byte strings.
pub open spec fn bytes_le(a: Seq<u8>, b: Seq<u8>) -> bool {
    a == b || bytes_lt(a, b)
}

/// No byte string is smaller than itself.
pub proof fn lemma_lt_irreflexive(a: Seq<u8>)
    ensures
        !bytes_lt(a, a),
{
}

/// The strict order is transitive.
pub proof fn lemma_lt_transitive(a: Seq<u8>, b: Seq<u8>, c: Seq<u8>)
    requires
        bytes_lt(a, b),
        bytes_lt(b, c),
    ensures
        bytes_lt(a, c),
{
    let n1 = choose|n: int| precedes_at(a, b, n);
    let n2 = choose|n: int| precedes_at(b, c, n);
    let n = if n1 <= n2 { n1 } else { n2 };
    assert(precedes_at(a, c, n));
}

/// Of two byte strings at most one is smaller than the other.
pub proof fn lemma_lt_asymmetric(a: Seq<u8>, b: Seq<u8>)
    requires
        bytes_lt(a, b),
    ensures
        !bytes_lt(b, a),
        a != b,
{
    if bytes_lt(b, a) {
        lemma_lt_transitive(a, b, a);
    }
    lemma_lt_irreflexive(a);
}

/// Mixed transitivity: `a <= b < c` gives `a < c`, and so does `a < b <= c`.
pub proof fn lemma_le_lt_transitive(a: Seq<u8>, b: Seq<u8>, c: Seq<u8>)
    requires
        bytes_le(a, b) && bytes_lt(b, c) || bytes_lt(a, b) && bytes_le(b, c),
    ensures
        bytes_lt(a, c),
{
    if a != b && b != c {
        lemma_lt_transitive(a, b, c);
    }
}

/// The order is transitive.
pub proof fn lemma_le_transitive(a: Seq<u8>, b: Seq<u8>, c: Seq<u8>)
    requires
        bytes_le(a, b),
        bytes_le(b, c),
    ensures
        bytes_le(a, c),
{
    if a != b && b != c {
        lemma_lt_transitive(a, b, c);
    }
}

/// Two byte strings that agree on their first `n` bytes are equal, or one is
/// smaller: by induction on what is left of `a`.
proof fn lemma_total_from(a: Seq<u8>, b: Seq<u8>, n: int)
    requires
        0 <= n <= a.len(),
        n <= b.len(),
        forall|i: int| 0 <= i < n ==> a[i] == b[i],
    ensures
        bytes_lt(a, b) || a == b || bytes_lt(b, a),
    decreases a.len() - n,
{
    if n == a.len() {
        if n == b.len() {
            assert(a =~= b);
        } else {
            assert(precedes_at(a, b, n));
        }
    } else if n == b.len() {
        assert(precedes_at(b, a, n));
    } else if a[n] < b[n] {
        assert(precedes_at(a, b, n));
    } else if b[n] < a[n] {
        assert(precedes_at(b, a, n));
    } else {
        lemma_total_from(a, b, n + 1);
    }
}

/// The order is total: two byte strings are equal, or one is smaller.
pub proof fn lemma_lt_total(a: Seq<u8>, b: Seq<u8>)
    ensures
        bytes_lt(a, b) || a == b || bytes_lt(b, a),
{
    lemma_total_from(a, b, 0);
}

/// A common prefix does not change the order of two byte strings.
pub proof fn lemma_common_prefix(p: Seq<u8>, a: Seq<u8>, b: Seq<u8>)
    ensures
        bytes_lt(p + a, p + b) <==> bytes_lt(a, b),
        bytes_le(p + a, p + b) <==> bytes_le(a, b),
        p + a == p + b <==> a == b,
{
    let pa = p + a;
    let pb = p + b;
    if bytes_lt(a, b) {
        let n = choose|n: int| precedes_at(a, b, n);
        assert forall|i: int| 0 <= i < p.len() + n implies pa[i] == pb[i] by {
            if i >= p.len() {
                assert(a[i - p.len()] == b[i - p.len()]);
            }
        }
        assert(precedes_at(pa, pb, p.len() + n));
    }
    if bytes_lt(pa, pb) {
        let n = choose|n: int| precedes_at(pa, pb, n);
        if n < p.len() {
            assert(pa[n] == p[n] && pb[n] == p[n]);
        }
        assert forall|i: int| 0 <= i < n - p.len() implies a[i] == b[i] by {
            assert(pa[i + p.len()] == pb[i + p.len()]);
        }
        assert(precedes_at(a, b, n - p.len()));
    }
    if pa == pb {
        assert(a =~= pa.skip(p.len() as int));
        assert(b =~= pb.skip(p.len() as int));
    }
}

/// The empty byte string is the least.
pub proof fn lemma_empty_least(k: Seq<u8>)
    ensures
        bytes_le(Seq::empty(), k),
{
    if k.len() == 0 {
        assert(k =~= Seq::empty());
    } else {
        assert(precedes_at(Seq::empty(), k, 0));
    }
}

/// A byte string is not greater than any of its extensions.
pub proof fn lemma_prefix_le(p: Seq<u8>, k: Seq<u8>)
    requires
        p.is_prefix_of(k),
    ensures
        bytes_le(p, k),
{
    if p.len() == k.len() {
        assert(p =~= k);
    } else {
        assert forall|i: int| 0 <= i < p.len() implies p[i] == k[i] by {
            assert(k.subrange(0, p.len() as int)[i] == k[i]);
        }
        assert(precedes_at(p, k, p.len() as int));
    }
}

/// The byte strings that start with `p` lie together in the order: once a
/// string at or above `p` does not start with `p`, nothing after it does.
pub proof fn lemma_prefix_block(p: Seq<u8>, x: Seq<u8>, y: Seq<u8>)
    requires
        bytes_le(p, x),
        !p.is_prefix_of(x),
        bytes_le(x, y),
    ensures
        !p.is_prefix_of(y),
{
    assert(p.is_prefix_of(p)) by {
        assert(p =~= p.subrange(0, p.len() as int));
    }
    let n = choose|n: int| precedes_at(p, x, n);
    if n == p.len() {
        assert(p =~= x.subrange(0, p.len() as int));
    }
    if x != y && p.is_prefix_of(y) {
        let m = choose|m: int| precedes_at(x, y, m);
        assert forall|i: int| 0 <= i < p.len() implies p[i] == y[i] by {
            assert(y.subrange(0, p.len() as int)[i] == y[i]);
        }
        if m > n {
            assert(x[n] == y[n]);
        } else if m < n {
            assert(p[m] == x[m]);
        }
    }
}

/// Concatenation with `p` in front gives a byte string that starts with `p`,
/// and taking `p` off again gives back the rest.
pub proof fn lemma_concat_prefix(p: Seq<u8>, e: Seq<u8>)
    ensures
        p.is_prefix_of(p + e),
        (p + e).skip(p.len() as int) == e,
{
    assert((p + e).subrange(0, p.len() as int) =~= p);
    assert((p + e).skip(p.len() as int) =~= e);
}

/// A byte string that starts with `p` is `p` followed by the rest.
pub proof fn lemma_split_prefix(p: Seq<u8>, k: Seq<u8>)
    requires
        p.is_prefix_of(k),
    ensures
        k == p + k.skip(p.len() as int),
{
    assert(k =~= k.subrange(0, p.len() as int) + k.skip(p.len() as int));
}

/// Appends `bytes` to `buffer`.
pub fn append(buffer: &mut Vec<u8>, bytes: &[u8])
    ensures
        final(buffer)@ == old(buffer)@ + bytes@,
{
    buffer.extend_from_slice(bytes);
    assert(buffer@ =~= old(buffer)@ + bytes@);
}

/// The number of leading bytes on which two byte strings agree.
pub fn common_prefix_len(a: &[u8], b: &[u8]) -> (n: usize)
    ensures
        n <= a@.len(),
        n <= b@.len(),
        forall|i: int| 0 <= i < n ==> a@[i] == b@[i],
        n < a@.len() && n < b@.len() ==> a@[n as int] != b@[n as int],
{
    let mut n: usize = 0;
    while n < a.len() && n < b.len() && a[n] == b[n]
        invariant
            n <= a@.len(),
            n <= b@.len(),
            forall|i: int| 0 <= i < n ==> a@[i] == b@[i],
        decreases a@.len() - n,
    {
        n = n + 1;
    }
    n
}

/// Whether `a` comes strictly before `b` in lexicographic order.
pub fn bytes_less(a: &[u8], b: &[u8]) -> (r: bool)
    ensures
        r == bytes_lt(a@, b@),
{
    let n: usize = common_prefix_len(a, b);
    let r = n < b.len() && (n == a.len() || a[n] < b[n]);
    proof {
        if r {
            assert(precedes_at(a@, b@, n as int));
        } else if bytes_lt(a@, b@) {
            let m = choose|m: int| precedes_at(a@, b@, m);
            if m < n {
                assert(a@[m] == b@[m]);
            } else if m > n {
                assert(a@[n as int] == b@[n as int]);
            }
        }
    }
    r
}

/// Whether two byte strings are the same.
pub fn bytes_equal(a: &[u8], b: &[u8]) -> (r: bool)
    ensures
        r == (a@ == b@),
{
    let n: usize = common_prefix_len(a, b);
    let r = n == a.len() && n == b.len();
    proof {
        if r {
            assert(a@ =~= b@);
        }
    }
    r
}

/// Whether `s` starts with `p`.
pub fn has_prefix(s: &[u8], p: &[u8]) -> (r: bool)
    ensures
        r == p@.is_prefix_of(s@),
{
    let n: usize = common_prefix_len(s, p);
    let r = n == p.len();
    proof {
        if r {
            assert(p@ =~= s@.subrange(0, p@.len() as int));
        } else if p@.is_prefix_of(s@) {
            assert(s@.subrange(0, p@.len() as int)[n as int] == s@[n as int]);
        }
    }
    r
}

} // verus!
