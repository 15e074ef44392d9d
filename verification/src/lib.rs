//! Persistent backend for a prunable Merkle Mountain Range over a sum-tree.
//!
//! Node records are appended in MMR-position order to an append-only data
//! file, deletions are staged in a durable removal log, and periodic
//! compaction rewrites the data file without the removed records while the
//! prune list keeps the position-indexed addressing stable.
//!
//! The storage engine itself is an in-memory state machine over the byte
//! images of its three files; a thin unverified shell performs the actual
//! file reads, writes, fsyncs and renames around it.

use vstd::prelude::*;

pub mod append_file;
pub mod backend;
pub mod codec;
pub mod laws;
pub mod ordered;
pub mod prune_list;
pub mod remove_log;

verus! {

/// Maximum number of nodes in the remove log before it gets flushed.
pub const RM_LOG_MAX_NODES: usize = 10000;

/// Errors surfaced by the storage engine.
#[derive(Clone, Copy, Debug, PartialEq, Eq, Structural)]
pub enum StoreError {
    /// A file image could not be decoded (bad length or framing).
    Corruption,
    /// An append was attempted at a position other than the write frontier.
    PositionMismatch,
}

} // verus!
