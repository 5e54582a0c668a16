//! A namespacing and typed-access layer over a flat, byte-ordered key-value
//! store: many logical collections share one keyspace, each under its own
//! prefix.
//!
//! - [`bytes`]: the lexicographic order of byte strings, in which a store
//!   keeps its keys.
//! - [`scan`]: what it is to list the entries of a store in order.
//! - [`prefix`]: the part of a store under a prefix, and why a scan finds it
//!   in one stretch.
//! - [`store`]: what an index asks of a store, as traits with contracts.
//! - [`codec`]: typed keys and values as byte strings.
//! - [`big_endian`]: integers as byte strings that sort as the integers do.
//! - [`index`]: the index itself and the iteration over it.
//! - [`memory`]: a store in memory.
//! - [`laws`]: what holds of every index, proved from the contracts.

pub mod big_endian;
pub mod bytes;
pub mod codec;
pub mod index;
pub mod laws;
pub mod memory;
pub mod prefix;
pub mod scan;
pub mod store;

pub use crate::codec::{StorageKey, StorageValue};
pub use crate::index::{BaseIndex, BaseIndexIter, Error};
pub use crate::memory::MemoryDB;
pub use crate::store::{Cursor, Fork, Snapshot, StorageError, Store};
