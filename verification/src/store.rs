//! What an index asks of the store beneath it.
//!
//! A store is modelled as a map from byte keys to byte values. A handle may be
//! readable ([`Snapshot`]), writable ([`Fork`]), or both. Reading in order goes
//! through a [`Cursor`], whose model is the sequence of entries still to come.

use vstd::prelude::*;
use crate::prefix::without_prefix;
use crate::scan::{scans, Entry};

verus! {

/// A failure that a store reports while it is read.
#[derive(Debug, PartialEq, Eq)]
pub struct StorageError {
    pub message: String,
}

impl Clone for StorageError {
    fn clone(&self) -> (copy: Self)
        ensures
            copy == *self,
    {
        StorageError { message: self.message.clone() }
    }
}

/// A store of byte values under byte keys.
pub trait Store {
    /// What the store holds.
    spec fn contents(&self) -> Map<Seq<u8>, Seq<u8>>;

    /// Whether reading this store cannot fail. A store in memory says yes; a
    /// store that reads from a disk or a network says no, and then nothing
    /// is promised about when its reads succeed.
    spec fn never_fails(&self) -> bool;
}

/// A forward pass over entries of a store, in ascending order of their keys.
pub trait Cursor {
    /// The entries that are still to come, in the order in which they come.
    spec fn remaining(&self) -> Seq<Entry>;

    /// Hands out the next entry, if there is one.
    fn next(&mut self) -> (r: Option<(Vec<u8>, Vec<u8>)>)
        ensures
            match r {
                Some(kv) => {
                    &&& old(self).remaining().len() > 0
                    &&& (kv.0@, kv.1@) == old(self).remaining()[0]
                    &&& final(self).remaining() == old(self).remaining().skip(1)
                },
                None => {
                    &&& old(self).remaining().len() == 0
                    &&& final(self).remaining().len() == 0
                },
            },
    ;
}

/// A store that can be read.
pub trait Snapshot: Store {
    /// The cursor that [`Snapshot::iter`] hands out.
    type Iter: Cursor;

    /// The value under `key`, if there is one. Only a store that can fail
    /// may answer with an error.
    fn get(&self, key: &[u8]) -> (r: Result<Option<Vec<u8>>, StorageError>)
        ensures
            match r {
                Ok(Some(v)) => self.contents().contains_pair(key@, v@),
                Ok(None) => !self.contents().contains_key(key@),
                Err(_) => !self.never_fails(),
            },
    ;

    /// Whether there is a value under `key`. Only a store that can fail may
    /// answer with an error.
    fn contains(&self, key: &[u8]) -> (r: Result<bool, StorageError>)
        ensures
            match r {
                Ok(b) => b == self.contents().contains_key(key@),
                Err(_) => !self.never_fails(),
            },
    ;

    /// A cursor over the entries whose key is at or above `from`.
    fn iter(&self, from: &[u8]) -> (it: Self::Iter)
        ensures
            scans(self.contents(), from@, it.remaining()),
    ;
}

/// A store that can be written.
pub trait Fork: Store {
    /// Puts `value` under `key`, in place of what was there.
    fn put(&mut self, key: Vec<u8>, value: Vec<u8>)
        ensures
            final(self).contents() == old(self).contents().insert(key@, value@),
            final(self).never_fails() == old(self).never_fails(),
    ;

    /// Removes `key` and its value, if it is there.
    fn delete(&mut self, key: Vec<u8>)
        ensures
            final(self).contents() == old(self).contents().remove(key@),
            final(self).never_fails() == old(self).never_fails(),
    ;

    /// Removes every key that starts with `prefix`.
    fn delete_by_prefix(&mut self, prefix: &[u8])
        ensures
            final(self).contents() == without_prefix(old(self).contents(), prefix@),
            final(self).never_fails() == old(self).never_fails(),
    ;
}

/// A shared reference to a store stands for the store.
impl<'a, S: Store> Store for &'a S {
    open spec fn contents(&self) -> Map<Seq<u8>, Seq<u8>> {
        (**self).contents()
    }

    open spec fn never_fails(&self) -> bool {
        (**self).never_fails()
    }
}

/// A mutable reference to a store stands for the store.
impl<'a, S: Store> Store for &'a mut S {
    open spec fn contents(&self) -> Map<Seq<u8>, Seq<u8>> {
        (**self).contents()
    }

    open spec fn never_fails(&self) -> bool {
        (**self).never_fails()
    }
}

/// A readable store is read through a shared reference to it.
impl<'a, S: Snapshot> Snapshot for &'a S {
    type Iter = S::Iter;

    fn get(&self, key: &[u8]) -> (r: Result<Option<Vec<u8>>, StorageError>) {
        (**self).get(key)
    }

    fn contains(&self, key: &[u8]) -> (r: Result<bool, StorageError>) {
        (**self).contains(key)
    }

    fn iter(&self, from: &[u8]) -> (it: Self::Iter) {
        (**self).iter(from)
    }
}

/// A readable store is read through a mutable reference to it as well.
impl<'a, S: Snapshot> Snapshot for &'a mut S {
    type Iter = S::Iter;

    fn get(&self, key: &[u8]) -> (r: Result<Option<Vec<u8>>, StorageError>) {
        (**self).get(key)
    }

    fn contains(&self, key: &[u8]) -> (r: Result<bool, StorageError>) {
        (**self).contains(key)
    }

    fn iter(&self, from: &[u8]) -> (it: Self::Iter) {
        (**self).iter(from)
    }
}

/// A writable store is written through a mutable reference to it.
impl<'a, S: Fork> Fork for &'a mut S {
    fn put(&mut self, key: Vec<u8>, value: Vec<u8>) {
        (**self).put(key, value)
    }

    fn delete(&mut self, key: Vec<u8>) {
        (**self).delete(key)
    }

    fn delete_by_prefix(&mut self, prefix: &[u8]) {
        (**self).delete_by_prefix(prefix)
    }
}

} // verus!
