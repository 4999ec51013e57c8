//! Tunable limits for the storage engine.

use vstd::prelude::*;

verus! {

/// Default auto-compaction threshold, in bytes: once at least this many
/// bytes of live-record frames have been appended since the engine was
/// opened or last compacted, the next `set` compacts the log before it
/// returns.
pub const DEFAULT_COMPACT_THRESHOLD: u64 = 1024 * 1024;

} // verus!
