//! Unsigned integers as byte strings, most significant byte first.
//!
//! In this form the lexicographic order of the encodings is the order of the
//! numbers, which is what makes an integer a key that iterates in order.

use vstd::prelude::*;
use crate::bytes::{bytes_lt, precedes_at};
use crate::codec::{StorageKey, StorageValue};

verus! {

/// `256` to the power of `n`.
pub open spec fn pow256(n: nat) -> nat
    decreases n,
{
    if n == 0 {
        1
    } else {
        256 * pow256((n - 1) as nat)
    }
}

/// The `n` low bytes of `x`, most significant first.
pub open spec fn be_bytes(x: nat, n: nat) -> Seq<u8>
    decreases n,
{
    if n == 0 {
        Seq::empty()
    } else {
        be_bytes(x / 256, (n - 1) as nat).push((x % 256) as u8)
    }
}

/// The number whose big-endian digits in base 256 are `bytes`.
pub open spec fn be_value(bytes: Seq<u8>) -> nat
    decreases bytes.len(),
{
    if bytes.len() == 0 {
        0
    } else {
        be_value(bytes.drop_last()) * 256 + bytes.last() as nat
    }
}

/// The first powers of 256, up to the number of `u64` values.
pub proof fn lemma_pow256_values()
    ensures
        pow256(0) == 1,
        pow256(1) == 0x100,
        pow256(2) == 0x1_0000,
        pow256(3) == 0x100_0000,
        pow256(4) == 0x1_0000_0000,
        pow256(5) == 0x100_0000_0000,
        pow256(6) == 0x1_0000_0000_0000,
        pow256(7) == 0x100_0000_0000_0000,
        pow256(8) == 0x1_0000_0000_0000_0000,
{
    reveal_with_fuel(pow256, 9);
}

/// A big-endian encoding in `n` bytes has `n` bytes.
pub proof fn lemma_be_bytes_len(x: nat, n: nat)
    ensures
        be_bytes(x, n).len() == n,
    decreases n,
{
    if n > 0 {
        lemma_be_bytes_len(x / 256, (n - 1) as nat);
    }
}

/// `n` bytes stand for a number below `256^n`.
pub proof fn lemma_be_value_bound(bytes: Seq<u8>)
    ensures
        be_value(bytes) < pow256(bytes.len()),
    decreases bytes.len(),
{
    if bytes.len() > 0 {
        lemma_be_value_bound(bytes.drop_last());
    }
}

/// A number below `256^n` is read back from its encoding in `n` bytes.
pub proof fn lemma_be_value_of_bytes(x: nat, n: nat)
    requires
        x < pow256(n),
    ensures
        be_value(be_bytes(x, n)) == x,
    decreases n,
{
    if n > 0 {
        let hi = be_bytes(x / 256, (n - 1) as nat);
        lemma_be_value_of_bytes(x / 256, (n - 1) as nat);
        assert(hi.push((x % 256) as u8).drop_last() =~= hi);
    }
}

/// Any byte string is the big-endian encoding of the number it stands for.
pub proof fn lemma_be_bytes_of_value(bytes: Seq<u8>)
    ensures
        be_bytes(be_value(bytes), bytes.len()) == bytes,
    decreases bytes.len(),
{
    if bytes.len() > 0 {
        let hi = bytes.drop_last();
        lemma_be_bytes_of_value(hi);
        let x = be_value(bytes);
        assert(x / 256 == be_value(hi));
        assert(x % 256 == bytes.last() as nat);
        assert(be_bytes(x, bytes.len()) =~= bytes);
    }
}

/// With one more byte at the end of two byte strings of one length, the
/// earlier bytes decide the order, and the last byte decides between equals.
pub proof fn lemma_lt_push(a: Seq<u8>, c: u8, b: Seq<u8>, d: u8)
    requires
        a.len() == b.len(),
    ensures
        bytes_lt(a.push(c), b.push(d)) <==> bytes_lt(a, b) || (a == b && c < d),
{
    let ac = a.push(c);
    let bd = b.push(d);
    if bytes_lt(a, b) {
        let n = choose|n: int| precedes_at(a, b, n);
        assert forall|i: int| 0 <= i < n implies ac[i] == bd[i] by {
            assert(a[i] == b[i]);
        }
        assert(ac[n] == a[n] && bd[n] == b[n]);
        assert(precedes_at(ac, bd, n));
    }
    if a == b && c < d {
        assert(precedes_at(ac, bd, a.len() as int));
    }
    if bytes_lt(ac, bd) {
        let n = choose|n: int| precedes_at(ac, bd, n);
        if n < a.len() {
            assert forall|i: int| 0 <= i < n implies a[i] == b[i] by {
                assert(ac[i] == bd[i]);
            }
            assert(ac[n] == a[n] && bd[n] == b[n]);
            assert(precedes_at(a, b, n));
        } else {
            assert forall|i: int| 0 <= i < a.len() implies a[i] == b[i] by {
                assert(ac[i] == bd[i]);
            }
            assert(a =~= b);
            assert(ac[n] == c && bd[n] == d);
        }
    }
}

/// Numbers below `256^n` are ordered as their big-endian encodings in `n`
/// bytes are.
pub proof fn lemma_be_order(x: nat, y: nat, n: nat)
    requires
        x < pow256(n),
        y < pow256(n),
    ensures
        bytes_lt(be_bytes(x, n), be_bytes(y, n)) <==> x < y,
        be_bytes(x, n) == be_bytes(y, n) <==> x == y,
    decreases n,
{
    lemma_be_value_of_bytes(x, n);
    lemma_be_value_of_bytes(y, n);
    if n > 0 {
        let m = (n - 1) as nat;
        lemma_be_order(x / 256, y / 256, m);
        lemma_be_bytes_len(x / 256, m);
        lemma_be_bytes_len(y / 256, m);
        lemma_lt_push(be_bytes(x / 256, m), (x % 256) as u8, be_bytes(y / 256, m), (y % 256) as u8);
    }
}

/// Appends to `buffer` the `n` low bytes of `x`, most significant first.
fn push_be(buffer: &mut Vec<u8>, x: u64, n: usize)
    requires
        n <= 8,
    ensures
        final(buffer)@ == old(buffer)@ + be_bytes(x as nat, n as nat),
    decreases n,
{
    if n > 0 {
        push_be(buffer, x / 256, n - 1);
        buffer.push((x % 256) as u8);
    }
    assert(buffer@ =~= old(buffer)@ + be_bytes(x as nat, n as nat));
}

/// The number whose big-endian encoding is `bytes`, for at most eight bytes.
fn read_be(bytes: &[u8]) -> (x: u64)
    requires
        bytes@.len() <= 8,
    ensures
        x == be_value(bytes@),
{
    let mut x: u64 = 0;
    let mut i: usize = 0;
    while i < bytes.len()
        invariant
            i <= bytes@.len() <= 8,
            x == be_value(bytes@.take(i as int)),
        decreases bytes@.len() - i,
    {
        proof {
            lemma_be_value_bound(bytes@.take(i as int));
            lemma_pow256_values();
            assert(bytes@.take(i + 1).drop_last() =~= bytes@.take(i as int));
        }
        x = x * 256 + bytes[i] as u64;
        i = i + 1;
    }
    proof {
        assert(bytes@.take(i as int) =~= bytes@);
    }
    x
}

/// Appends to `buffer` the eight bytes of `x`, most significant first.
pub fn write_u64(buffer: &mut Vec<u8>, x: u64)
    ensures
        final(buffer)@ == old(buffer)@ + be_bytes(x as nat, 8),
{
    push_be(buffer, x, 8);
}

/// The `u64` that eight bytes stand for, and `None` for any other length.
pub fn read_u64(bytes: &[u8]) -> (r: Option<u64>)
    ensures
        r == if bytes@.len() == 8 {
            Some(be_value(bytes@) as u64)
        } else {
            None
        },
{
    if bytes.len() == 8 {
        proof {
            lemma_pow256_values();
            lemma_be_value_bound(bytes@);
        }
        Some(read_be(bytes))
    } else {
        None
    }
}

/// Decoding the encoding of a `u64` gives it back.
pub proof fn lemma_u64_decode_encode(x: u64)
    ensures
        be_bytes(x as nat, 8).len() == 8,
        be_value(be_bytes(x as nat, 8)) as u64 == x,
{
    lemma_pow256_values();
    lemma_be_bytes_len(x as nat, 8);
    lemma_be_value_of_bytes(x as nat, 8);
}

/// Eight bytes are the encoding of the `u64` that they stand for.
pub proof fn lemma_u64_encode_decode(bytes: Seq<u8>)
    requires
        bytes.len() == 8,
    ensures
        be_bytes((be_value(bytes) as u64) as nat, 8) == bytes,
{
    lemma_pow256_values();
    lemma_be_value_bound(bytes);
    lemma_be_bytes_of_value(bytes);
}

/// A `u64` key is its eight bytes, most significant first; the keys are in
/// the order of the numbers.
impl StorageKey for u64 {
    open spec fn encode_spec(key: u64) -> Seq<u8> {
        be_bytes(key as nat, 8)
    }

    open spec fn decode_spec(bytes: Seq<u8>) -> Option<u64> {
        if bytes.len() == 8 {
            Some(be_value(bytes) as u64)
        } else {
            None
        }
    }

    open spec fn precedes(a: u64, b: u64) -> bool {
        a < b
    }

    proof fn lemma_decode_encode(key: u64) {
        lemma_u64_decode_encode(key);
    }

    proof fn lemma_encode_decode(bytes: Seq<u8>) {
        if bytes.len() == 8 {
            lemma_u64_encode_decode(bytes);
        }
    }

    proof fn lemma_order_preserved(a: u64, b: u64) {
        lemma_pow256_values();
        lemma_be_order(a as nat, b as nat, 8);
    }

    fn write(&self, buffer: &mut Vec<u8>) {
        write_u64(buffer, *self);
    }

    fn read(buffer: &[u8]) -> (r: Option<u64>) {
        read_u64(buffer)
    }
}

/// A `u64` value is its eight bytes, most significant first.
impl StorageValue for u64 {
    open spec fn encode_spec(value: u64) -> Seq<u8> {
        be_bytes(value as nat, 8)
    }

    open spec fn decode_spec(bytes: Seq<u8>) -> Option<u64> {
        if bytes.len() == 8 {
            Some(be_value(bytes) as u64)
        } else {
            None
        }
    }

    proof fn lemma_decode_encode(value: u64) {
        lemma_u64_decode_encode(value);
    }

    proof fn lemma_encode_decode(bytes: Seq<u8>) {
        if bytes.len() == 8 {
            lemma_u64_encode_decode(bytes);
        }
    }

    fn serialize(self) -> (bytes: Vec<u8>) {
        let mut bytes: Vec<u8> = Vec::new();
        write_u64(&mut bytes, self);
        assert(bytes@ =~= be_bytes(self as nat, 8));
        bytes
    }

    fn from_vec(bytes: Vec<u8>) -> (r: Option<u64>) {
        read_u64(bytes.as_slice())
    }

    fn from_slice(bytes: &[u8]) -> (r: Option<u64>) {
        read_u64(bytes)
    }
}

} // verus!
