//! Metadata-cache synchronization engine.
//!
//! Mirrors a remote catalog of backup metadata files into a local on-disk
//! cache, tolerating crashes mid-transfer, and produces an in-memory index
//! of all known backup artifacts. The remote catalog and the cache directory
//! are reached through capability traits so that both the production
//! implementations and in-memory test doubles satisfy the same contracts.

pub mod cache_store;
pub mod diff;
pub mod doc_text;
pub mod emitter;
pub mod errors;
pub mod keys;
pub mod metadata;
pub mod ratelimit;
pub mod storage;
pub mod sync;
pub mod text;
