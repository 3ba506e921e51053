//! Error kinds of the synchronization engine.
//!
//! The engine performs no local recovery beyond the bootstrap special case:
//! every error is returned to the caller with enough context (operation and
//! cache key involved) and aborts the in-progress sync. Callers must treat
//! any error as "cache state unspecified, retry", never as partial success.

use vstd::prelude::*;

verus! {

/// Failure reported by the remote catalog client.
#[derive(Clone, Copy, Debug, PartialEq, Eq, Structural)]
pub struct StorageError;

/// Failure reported by the local cache directory.
#[derive(Clone, Copy, Debug, PartialEq, Eq, Structural)]
pub struct CacheIoError;

/// A line that is not the serialization of any metadata record.
#[derive(Clone, Copy, Debug, PartialEq, Eq, Structural)]
pub struct ParseError;

/// The remote catalog operation that failed.
#[derive(Clone, Copy, Debug, PartialEq, Eq, Structural)]
pub enum StorageOp {
    /// Listing the remote metadata files.
    List,
    /// Opening one remote metadata file for reading.
    Open,
    /// Appending a new metadata line (bootstrap).
    Save,
}

/// The local cache directory operation on one entry that failed.
#[derive(Clone, Copy, Debug, PartialEq, Eq, Structural)]
pub enum CacheOp {
    /// Deleting a stale entry.
    Delete,
    /// Exclusively creating and filling a temporary entry.
    CreateTemp,
    /// Renaming a temporary entry to its final name.
    Promote,
    /// Reading a committed entry.
    Read,
}

/// Everything that can abort a sync, each with the operation and, where one
/// is involved, the cache key it concerns.
#[derive(Clone, Copy, Debug, PartialEq, Eq, Structural)]
pub enum SyncError {
    /// Remote listing, open or save failed.
    Storage { op: StorageOp },
    /// Enumerating the local cache directory failed.
    IoList,
    /// A local filesystem operation on one cache entry failed.
    Io { op: CacheOp, key: u64 },
    /// A cache file held a line that is not a serialized metadata record.
    Parse { key: u64 },
    /// The remote catalog was empty and remained empty after the bootstrap
    /// record was written.
    Consistency,
}

} // verus!
