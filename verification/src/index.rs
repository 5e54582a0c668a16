//! The prefixed index: typed access to one logical collection of a store.
//!
//! An index is a prefix and a handle to a store. Every key that it reads or
//! writes is the prefix followed by the encoding of a typed key, so that the
//! collections of one store do not meet. The model of an index is the part of
//! the store under its prefix, as a map from encoded keys to encoded values.

use core::marker::PhantomData;
use vstd::prelude::*;
use vstd::slice::slice_subrange;
use crate::bytes::{append, has_prefix};
use crate::codec::{StorageKey, StorageValue};
use crate::prefix::{
    entries_under, lemma_entries_cleared, lemma_entries_insert, lemma_entries_remove,
    lemma_scan_under_prefix, under_prefix, without_prefix,
};
use crate::scan::{scans, Entry};
use crate::store::{Cursor, Fork, Snapshot, StorageError, Store};

verus! {

/// Why a read of an index failed.
#[derive(Debug, PartialEq, Eq)]
pub enum Error {
    /// The store failed; its own error is inside, as it came.
    Storage(StorageError),
    /// The bytes of a key do not stand for a key of the type asked for.
    MalformedKey,
    /// The bytes of a value do not stand for a value of the type asked for.
    MalformedValue,
}

impl Clone for Error {
    fn clone(&self) -> (copy: Self)
        ensures
            copy == *self,
    {
        match self {
            Error::Storage(e) => Error::Storage(e.clone()),
            Error::MalformedKey => Error::MalformedKey,
            Error::MalformedValue => Error::MalformedValue,
        }
    }
}

/// What a typed read of `key` finds in `entries`: nothing, the value that the
/// stored bytes stand for, or that they stand for none.
pub open spec fn lookup<V: StorageValue>(entries: Map<Seq<u8>, Seq<u8>>, key: Seq<u8>) -> Result<
    Option<V::V>,
    Error,
> {
    if !entries.contains_key(key) {
        Ok(None)
    } else {
        match V::decode_spec(entries[key]) {
            Some(value) => Ok(Some(value)),
            None => Err(Error::MalformedValue),
        }
    }
}

/// What an entry stands for as a typed pair. Where both parts are malformed,
/// the key is named.
pub open spec fn decoded<K: StorageKey, V: StorageValue>(entry: Entry) -> Result<(K::V, V::V), Error> {
    match (K::decode_spec(entry.0), V::decode_spec(entry.1)) {
        (Some(key), Some(value)) => Ok((key, value)),
        (None, _) => Err(Error::MalformedKey),
        (Some(_), None) => Err(Error::MalformedValue),
    }
}

/// The result `r` of a typed read is `expected`, value for value.
pub open spec fn reads_as<V: StorageValue>(
    r: Result<Option<V>, Error>,
    expected: Result<Option<V::V>, Error>,
) -> bool {
    match r {
        Ok(Some(value)) => expected == Ok::<Option<V::V>, Error>(Some(value@)),
        Ok(None) => expected == Ok::<Option<V::V>, Error>(None),
        Err(e) => expected == Err::<Option<V::V>, Error>(e),
    }
}

/// The item `r` of a typed iteration is `expected`, part for part.
pub open spec fn yields_as<K: StorageKey, V: StorageValue>(
    r: Result<(K, V), Error>,
    expected: Result<(K::V, V::V), Error>,
) -> bool {
    match r {
        Ok((key, value)) => expected == Ok::<(K::V, V::V), Error>((key@, value@)),
        Err(e) => expected == Err::<(K::V, V::V), Error>(e),
    }
}

/// Turns what a store answered to a read into a typed result: the store's
/// error as it came, nothing for nothing, and the stored bytes decoded.
pub fn decode_value<V: StorageValue>(raw: Result<Option<Vec<u8>>, StorageError>) -> (r: Result<
    Option<V>,
    Error,
>)
    ensures
        match raw {
            Ok(Some(bytes)) => match V::decode_spec(bytes@) {
                Some(value) => r matches Ok(Some(v)) && v@ == value,
                None => r == Err::<Option<V>, Error>(Error::MalformedValue),
            },
            Ok(None) => r matches Ok(None),
            Err(e) => r == Err::<Option<V>, Error>(Error::Storage(e)),
        },
{
    match raw {
        Ok(Some(bytes)) => match V::from_vec(bytes) {
            Some(value) => Ok(Some(value)),
            None => Err(Error::MalformedValue),
        },
        Ok(None) => Ok(None),
        Err(e) => Err(Error::Storage(e)),
    }
}

/// Decodes an entry, the prefix already taken off its key.
pub fn decode_entry<K: StorageKey, V: StorageValue>(key: &[u8], value: &[u8]) -> (r: Result<
    (K, V),
    Error,
>)
    ensures
        yields_as::<K, V>(r, decoded::<K, V>((key@, value@))),
{
    match K::read(key) {
        Some(k) => match V::from_slice(value) {
            Some(v) => Ok((k, v)),
            None => Err(Error::MalformedValue),
        },
        None => Err(Error::MalformedKey),
    }
}

/// One logical collection of a store: the entries whose keys start with the
/// prefix of the index.
pub struct BaseIndex<T> {
    prefix: Vec<u8>,
    view: T,
}

/// A single forward pass over the entries of an index, in ascending order of
/// their keys.
pub struct BaseIndexIter<'a, I, K, V> {
    base_iter: I,
    prefix: &'a [u8],
    ended: bool,
    _k: PhantomData<K>,
    _v: PhantomData<V>,
}

impl<T> BaseIndex<T> {
    /// The prefix of the index.
    pub closed spec fn prefix(&self) -> Seq<u8> {
        self.prefix@
    }

    /// The handle to the store.
    pub closed spec fn handle(&self) -> T {
        self.view
    }

    /// An index over `view` for the collection under `prefix`.
    pub fn new(prefix: Vec<u8>, view: T) -> (index: Self)
        ensures
            index.prefix() == prefix@,
            index.handle() == view,
    {
        BaseIndex { prefix: prefix, view: view }
    }

    /// Gives the handle back, to be used for another index or on its own.
    pub fn into_view(self) -> (view: T)
        ensures
            view == self.handle(),
    {
        self.view
    }

    /// The key under which the store holds `key`: the prefix, then the
    /// encoding of `key`.
    pub fn prefixed_key<K: StorageKey>(&self, key: &K) -> (r: Vec<u8>)
        ensures
            r@ == self.prefix() + K::encode_spec(key@),
    {
        let mut v: Vec<u8> = Vec::new();
        append(&mut v, self.prefix.as_slice());
        key.write(&mut v);
        v
    }
}

impl<T: Store> BaseIndex<T> {
    /// What the store holds, under any prefix.
    pub open spec fn contents(&self) -> Map<Seq<u8>, Seq<u8>> {
        self.handle().contents()
    }
}

impl<T: Store> View for BaseIndex<T> {
    type V = Map<Seq<u8>, Seq<u8>>;

    /// The collection: encoded keys, without the prefix, to encoded values.
    open spec fn view(&self) -> Map<Seq<u8>, Seq<u8>> {
        entries_under(self.handle().contents(), self.prefix())
    }
}

impl<T: Snapshot> BaseIndex<T> {
    /// The value under `key`, if there is one. Fails where the store fails,
    /// and where the stored bytes do not stand for a `V`.
    pub fn get<K, V>(&self, key: &K) -> (r: Result<Option<V>, Error>) where
        K: StorageKey,
        V: StorageValue,

        ensures
            match r {
                Err(Error::Storage(_)) => !self.handle().never_fails(),
                _ => reads_as::<V>(r, lookup::<V>(self@, K::encode_spec(key@))),
            },
    {
        let full = self.prefixed_key(key);
        let raw = self.view.get(full.as_slice());
        decode_value(raw)
    }

    /// Whether there is a value under `key`. Fails where the store fails.
    pub fn contains<K>(&self, key: &K) -> (r: Result<bool, Error>) where K: StorageKey
        ensures
            match r {
                Ok(found) => found == self@.contains_key(K::encode_spec(key@)),
                Err(e) => e is Storage && !self.handle().never_fails(),
            },
    {
        let full = self.prefixed_key(key);
        match self.view.contains(full.as_slice()) {
            Ok(found) => Ok(found),
            Err(e) => Err(Error::Storage(e)),
        }
    }

    /// A pass over all entries of the index, in ascending order of their
    /// keys. The entries are taken from the store's cursor and decoded one at
    /// a time, as `next` asks for them.
    pub fn iter<K, V>(&self) -> (it: BaseIndexIter<'_, T::Iter, K, V>) where
        K: StorageKey,
        V: StorageValue,

        ensures
            scans(self@, Seq::empty(), it.pending()),
    {
        let base_iter = self.view.iter(self.prefix.as_slice());
        proof {
            assert(self.prefix@ + Seq::<u8>::empty() =~= self.prefix@);
            lemma_scan_under_prefix(
                self.view.contents(),
                self.prefix@,
                Seq::empty(),
                base_iter.remaining(),
            );
        }
        BaseIndexIter {
            base_iter: base_iter,
            prefix: self.prefix.as_slice(),
            ended: false,
            _k: PhantomData,
            _v: PhantomData,
        }
    }

    /// A pass over the entries whose key is `from` or comes after it. `from`
    /// need not be a key of the index.
    pub fn iter_from<F, K, V>(&self, from: &F) -> (it: BaseIndexIter<'_, T::Iter, K, V>) where
        F: StorageKey,
        K: StorageKey,
        V: StorageValue,

        ensures
            scans(self@, F::encode_spec(from@), it.pending()),
    {
        let start = self.prefixed_key(from);
        let base_iter = self.view.iter(start.as_slice());
        proof {
            lemma_scan_under_prefix(
                self.view.contents(),
                self.prefix@,
                F::encode_spec(from@),
                base_iter.remaining(),
            );
        }
        BaseIndexIter {
            base_iter: base_iter,
            prefix: self.prefix.as_slice(),
            ended: false,
            _k: PhantomData,
            _v: PhantomData,
        }
    }
}

impl<T: Fork> BaseIndex<T> {
    /// Puts `value` under `key`, in place of what was there.
    pub fn put<K, V>(&mut self, key: &K, value: V) where K: StorageKey, V: StorageValue
        ensures
            final(self).prefix() == old(self).prefix(),
            final(self).handle().never_fails() == old(self).handle().never_fails(),
            final(self).contents() == old(self).contents().insert(
                old(self).prefix() + K::encode_spec(key@),
                V::encode_spec(value@),
            ),
            final(self)@ == old(self)@.insert(K::encode_spec(key@), V::encode_spec(value@)),
    {
        let full = self.prefixed_key(key);
        proof {
            lemma_entries_insert(
                self.view.contents(),
                self.prefix@,
                K::encode_spec(key@),
                V::encode_spec(value@),
            );
        }
        self.view.put(full, value.serialize());
    }

    /// Removes `key` and its value. Where the key is absent, nothing changes.
    pub fn delete<K>(&mut self, key: &K) where K: StorageKey
        ensures
            final(self).prefix() == old(self).prefix(),
            final(self).handle().never_fails() == old(self).handle().never_fails(),
            final(self).contents() == old(self).contents().remove(
                old(self).prefix() + K::encode_spec(key@),
            ),
            final(self)@ == old(self)@.remove(K::encode_spec(key@)),
            !old(self)@.contains_key(K::encode_spec(key@)) ==> final(self).contents() == old(
                self,
            ).contents(),
    {
        let full = self.prefixed_key(key);
        proof {
            let m = self.view.contents();
            lemma_entries_remove(m, self.prefix@, K::encode_spec(key@));
            if !self@.contains_key(K::encode_spec(key@)) {
                assert(m.remove(full@) =~= m);
            }
        }
        self.view.delete(full);
    }

    /// Removes every entry of the index, and nothing else from the store.
    pub fn clear(&mut self)
        ensures
            final(self).prefix() == old(self).prefix(),
            final(self).handle().never_fails() == old(self).handle().never_fails(),
            final(self).contents() == without_prefix(old(self).contents(), old(self).prefix()),
            final(self)@ == Map::<Seq<u8>, Seq<u8>>::empty(),
    {
        proof {
            lemma_entries_cleared(self.view.contents(), self.prefix@);
        }
        self.view.delete_by_prefix(self.prefix.as_slice());
    }
}

impl<'a, I: Cursor, K: StorageKey, V: StorageValue> BaseIndexIter<'a, I, K, V> {
    /// The entries that are still to come, in the order in which they come:
    /// encoded keys, without the prefix, and encoded values.
    pub closed spec fn pending(&self) -> Seq<Entry> {
        if self.ended {
            Seq::empty()
        } else {
            under_prefix(self.base_iter.remaining(), self.prefix@)
        }
    }

    /// Hands out the next entry, decoded, and `None` once the entries of the
    /// index are used up; from then on it is always `None`. An entry that does
    /// not decode is handed out as an error, and the pass goes on behind it.
    pub fn next(&mut self) -> (r: Option<Result<(K, V), Error>>)
        ensures
            match r {
                Some(item) => {
                    &&& old(self).pending().len() > 0
                    &&& yields_as::<K, V>(item, decoded::<K, V>(old(self).pending()[0]))
                    &&& final(self).pending() == old(self).pending().skip(1)
                },
                None => {
                    &&& old(self).pending().len() == 0
                    &&& final(self).pending().len() == 0
                },
            },
    {
        if self.ended {
            return None;
        }
        let ghost before = self.base_iter.remaining();
        if let Some((k, v)) = self.base_iter.next() {
            if has_prefix(k.as_slice(), self.prefix) {
                let rest = slice_subrange(k.as_slice(), self.prefix.len(), k.len());
                proof {
                    let head = seq![(before[0].0.skip(self.prefix@.len() as int), before[0].1)];
                    let tail = under_prefix(before.skip(1), self.prefix@);
                    assert(under_prefix(before, self.prefix@) == head + tail);
                    assert((head + tail)[0] == head[0]);
                    assert((head + tail).skip(1) =~= tail);
                }
                return Some(decode_entry(rest, v.as_slice()));
            }
        }
        self.ended = true;
        None
    }

    /// Runs the pass to its end and hands out everything that was still to
    /// come, in order, each entry decoded or as the error it gave.
    pub fn collect(self) -> (items: Vec<Result<(K, V), Error>>)
        ensures
            items@.len() == self.pending().len(),
            forall|i: int|
                0 <= i < items@.len() ==> yields_as::<K, V>(
                    #[trigger] items@[i],
                    decoded::<K, V>(self.pending()[i]),
                ),
    {
        let ghost all = self.pending();
        let mut it = self;
        let mut items: Vec<Result<(K, V), Error>> = Vec::new();
        loop
            invariant
                items@.len() <= all.len(),
                it.pending() == all.skip(items@.len() as int),
                forall|i: int|
                    0 <= i < items@.len() ==> yields_as::<K, V>(
                        #[trigger] items@[i],
                        decoded::<K, V>(all[i]),
                    ),
            ensures
                items@.len() == all.len(),
            decreases all.len() - items@.len(),
        {
            match it.next() {
                Some(item) => {
                    proof {
                        let n = items@.len() as int;
                        assert(all.skip(n)[0] == all[n]);
                        assert(all.skip(n).skip(1) =~= all.skip(n + 1));
                    }
                    items.push(item);
                },
                None => {
                    break;
                },
            }
        }
        items
    }
}

} // verus!
