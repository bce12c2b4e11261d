//! Storage-layer errors.

use vstd::prelude::*;

use crate::base::error::EngramError;
use crate::base::ids::MemoryId;

verus! {

/// Errors raised by the storage engine (WAL, stores, causal graph).
#[derive(Debug)]
#[non_exhaustive]
pub enum StorageError {
    /// An underlying I/O failure, with its description.
    Io(String),
    /// A codec or core error (e.g. decoding a record).
    Core(EngramError),
    /// A WAL invariant was violated.
    Wal(String),
    /// An append-only store was given an id that already exists.
    Duplicate(MemoryId),
    /// Adding a causal edge would create a cycle (the provenance graph must stay
    /// acyclic).
    Cycle {
        /// The cause endpoint of the rejected edge.
        from: MemoryId,
        /// The effect endpoint of the rejected edge.
        to: MemoryId,
    },
}

} // verus!
