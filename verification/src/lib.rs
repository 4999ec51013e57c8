//! A single-node, append-only, log-structured key-value storage engine.
//!
//! The engine maps arbitrary byte-string keys to arbitrary byte-string
//! values. Every mutation is appended to a single log of bytes as a
//! length-prefixed record; an in-memory index maps each live key to the
//! location of its latest record. The index is a pure derived cache: it is
//! rebuilt by replaying the log from the start, applying
//! "last record per key wins, tombstone removes". Compaction rewrites the
//! log to hold exactly one record per live key.
//!
//! The log is held as a byte vector; a host process persists those bytes
//! and hands them back on reopen.

pub mod codec;
pub mod constants;
pub mod engine;
pub mod index;
pub mod laws;
pub mod log;
pub mod sums;
pub mod types;

pub use crate::engine::Engine;
pub use crate::types::{DataFileEntry, LogIndex, SetRequest, StoreError};
