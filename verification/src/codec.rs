//! How typed keys and values become the byte strings that a store holds.
//!
//! A codec is given by two spec functions on the view of a type, `encode_spec`
//! and `decode_spec`, which are inverse to each other. A key codec also names
//! the order of its keys, which is the order of their encodings as byte
//! strings: iteration in key order rests on that.
//!
//! Byte strings and UTF-8 strings have their codecs here; `u64` has its own
//! in [`crate::big_endian`].

use vstd::prelude::*;
use vstd::slice::slice_to_vec;
use vstd::utf8::{
    decode_utf8, decode_utf8_encode_utf8, encode_utf8, encode_utf8_decode_utf8,
    encode_utf8_valid_utf8, valid_utf8,
};
use crate::bytes::{append, bytes_lt};

verus! {

/// A type whose values can be keys of an index.
pub trait StorageKey: View + Sized {
    /// The byte string that stands for a key.
    spec fn encode_spec(key: Self::V) -> Seq<u8>;

    /// The key that a byte string stands for, if it stands for one.
    spec fn decode_spec(bytes: Seq<u8>) -> Option<Self::V>;

    /// The order of the keys.
    spec fn precedes(a: Self::V, b: Self::V) -> bool;

    /// Decoding the encoding of a key gives the key back.
    proof fn lemma_decode_encode(key: Self::V)
        ensures
            Self::decode_spec(Self::encode_spec(key)) == Some(key),
    ;

    /// A byte string that stands for a key is the encoding of that key.
    proof fn lemma_encode_decode(bytes: Seq<u8>)
        ensures
            Self::decode_spec(bytes) matches Some(key) ==> Self::encode_spec(key) == bytes,
    ;

    /// The keys are ordered as their encodings are.
    proof fn lemma_order_preserved(a: Self::V, b: Self::V)
        ensures
            Self::precedes(a, b) == bytes_lt(Self::encode_spec(a), Self::encode_spec(b)),
    ;

    /// Appends the encoding of the key to `buffer`.
    fn write(&self, buffer: &mut Vec<u8>)
        ensures
            final(buffer)@ == old(buffer)@ + Self::encode_spec(self@),
    ;

    /// Decodes a key; `None` where `buffer` stands for none.
    fn read(buffer: &[u8]) -> (r: Option<Self>)
        ensures
            match r {
                Some(key) => Self::decode_spec(buffer@) == Some(key@),
                None => Self::decode_spec(buffer@) is None,
            },
    ;
}

/// A type whose values can be stored in an index.
pub trait StorageValue: View + Sized {
    /// The byte string that stands for a value.
    spec fn encode_spec(value: Self::V) -> Seq<u8>;

    /// The value that a byte string stands for, if it stands for one.
    spec fn decode_spec(bytes: Seq<u8>) -> Option<Self::V>;

    /// Decoding the encoding of a value gives the value back.
    proof fn lemma_decode_encode(value: Self::V)
        ensures
            Self::decode_spec(Self::encode_spec(value)) == Some(value),
    ;

    /// A byte string that stands for a value is the encoding of that value.
    proof fn lemma_encode_decode(bytes: Seq<u8>)
        ensures
            Self::decode_spec(bytes) matches Some(value) ==> Self::encode_spec(value) == bytes,
    ;

    /// The encoding of the value.
    fn serialize(self) -> (bytes: Vec<u8>)
        ensures
            bytes@ == Self::encode_spec(self@),
    ;

    /// Decodes a value from bytes that the caller gives away; `None` where
    /// they stand for none.
    fn from_vec(bytes: Vec<u8>) -> (r: Option<Self>)
        ensures
            match r {
                Some(value) => Self::decode_spec(bytes@) == Some(value@),
                None => Self::decode_spec(bytes@) is None,
            },
    ;

    /// Decodes a value from bytes that the caller keeps; `None` where they
    /// stand for none.
    fn from_slice(bytes: &[u8]) -> (r: Option<Self>)
        ensures
            match r {
                Some(value) => Self::decode_spec(bytes@) == Some(value@),
                None => Self::decode_spec(bytes@) is None,
            },
    ;
}

/// A byte string is its own encoding as a key; the keys are in lexicographic
/// order.
impl StorageKey for Vec<u8> {
    open spec fn encode_spec(key: Seq<u8>) -> Seq<u8> {
        key
    }

    open spec fn decode_spec(bytes: Seq<u8>) -> Option<Seq<u8>> {
        Some(bytes)
    }

    open spec fn precedes(a: Seq<u8>, b: Seq<u8>) -> bool {
        bytes_lt(a, b)
    }

    proof fn lemma_decode_encode(key: Seq<u8>) {
    }

    proof fn lemma_encode_decode(bytes: Seq<u8>) {
    }

    proof fn lemma_order_preserved(a: Seq<u8>, b: Seq<u8>) {
    }

    fn write(&self, buffer: &mut Vec<u8>) {
        append(buffer, self.as_slice());
    }

    fn read(buffer: &[u8]) -> (r: Option<Vec<u8>>) {
        Some(slice_to_vec(buffer))
    }
}

/// A byte string is its own encoding as a value.
impl StorageValue for Vec<u8> {
    open spec fn encode_spec(value: Seq<u8>) -> Seq<u8> {
        value
    }

    open spec fn decode_spec(bytes: Seq<u8>) -> Option<Seq<u8>> {
        Some(bytes)
    }

    proof fn lemma_decode_encode(value: Seq<u8>) {
    }

    proof fn lemma_encode_decode(bytes: Seq<u8>) {
    }

    fn serialize(self) -> (bytes: Vec<u8>) {
        self
    }

    fn from_vec(bytes: Vec<u8>) -> (r: Option<Vec<u8>>) {
        Some(bytes)
    }

    fn from_slice(bytes: &[u8]) -> (r: Option<Vec<u8>>) {
        Some(slice_to_vec(bytes))
    }
}

/// `String::from_utf8` of the standard library: the string that is written as
/// `bytes` in UTF-8, and `None` exactly where `bytes` are not valid UTF-8.
#[verifier::external_body]
fn string_from_utf8(bytes: Vec<u8>) -> (r: Option<String>)
    ensures
        match r {
            Some(s) => encode_utf8(s@) == bytes@,
            None => !valid_utf8(bytes@),
        },
{
    String::from_utf8(bytes).ok()
}

/// A string value is stored as its UTF-8 bytes.
impl StorageValue for String {
    open spec fn encode_spec(value: Seq<char>) -> Seq<u8> {
        encode_utf8(value)
    }

    open spec fn decode_spec(bytes: Seq<u8>) -> Option<Seq<char>> {
        if valid_utf8(bytes) {
            Some(decode_utf8(bytes))
        } else {
            None
        }
    }

    proof fn lemma_decode_encode(value: Seq<char>) {
        encode_utf8_valid_utf8(value);
        encode_utf8_decode_utf8(value);
    }

    proof fn lemma_encode_decode(bytes: Seq<u8>) {
        if valid_utf8(bytes) {
            decode_utf8_encode_utf8(bytes);
        }
    }

    fn serialize(self) -> (bytes: Vec<u8>) {
        slice_to_vec(self.as_str().as_bytes())
    }

    fn from_vec(bytes: Vec<u8>) -> (r: Option<String>) {
        let r = string_from_utf8(bytes);
        proof {
            if r is Some {
                encode_utf8_valid_utf8(r->0@);
                encode_utf8_decode_utf8(r->0@);
            }
        }
        r
    }

    fn from_slice(bytes: &[u8]) -> (r: Option<String>) {
        <String as StorageValue>::from_vec(slice_to_vec(bytes))
    }
}

} // verus!
