//! A log-structured, persistent key-value store.
//!
//! The store keeps string keys and string values in append-only segments,
//! locates the newest record for each key through an in-memory index, and
//! folds the segments into a single one on compaction.  All of the engine's
//! logic runs on plain values; the caller performs the actual file system
//! work by applying the `FileOp` instructions that each mutating operation
//! returns.

use vstd::prelude::*;

pub mod codec;
pub mod index;
pub mod laws;
pub mod protocol;
pub mod store;

verus! {

/// The failures an engine operation can report.
#[derive(Debug, Clone)]
pub enum KvsError {
    /// Internal invariant violation: no segment file is available.
    FileListEmpty,
    /// The directory was written by a different backend.
    WrongEngine,
    /// The codec failed, or shared state was poisoned.
    SerializationError(String),
    /// A file system failure, reported by the caller that performs I/O.
    IOError(String),
    /// `remove` was called on a key that is not present.
    NonExistantKey,
    /// Reserved.
    Other,
}

/// The three operations every storage backend offers.
///
/// Mutating operations take `&mut self`; callers that share an engine
/// across threads wrap it in a reader/writer lock and implement this
/// trait on the shared handle.
pub trait KvsEngine<K, V> {
    fn set(&mut self, key: K, value: V) -> Result<(), KvsError>;

    fn get(&self, key: K) -> Result<Option<V>, KvsError>;

    fn remove(&mut self, key: K) -> Result<(), KvsError>;
}

} // verus!
