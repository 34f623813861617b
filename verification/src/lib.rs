//! A blob store over a message-based transport with per-message limits.
//!
//! A file's bytes are split into size-bounded chunks, chunks are grouped
//! into bundles that respect the transport's attachment-count limit, and
//! bundles are linked into a singly-linked chain of remote messages, so
//! that an arbitrarily large file can be rebuilt from the head message's
//! identifier alone.

use vstd::prelude::*;

pub mod chain;
pub mod decimal;
pub mod groups;
pub mod meta;
pub mod naming;

verus! {

/// Largest number of bytes one chunk (one attachment) may carry.
pub const MAX_CHUNK_SIZE: usize = 8 * 1024 * 1024;

/// Largest number of chunks one bundle (one remote message) may carry.
pub const MAX_BUNDLE_SIZE: usize = 10;

} // verus!
