//! An ordered key-value store that lives inside one contiguous byte buffer.
//!
//! The `allocator` module partitions the buffer into reference-counted blocks;
//! the `slicebtree` module builds copy-on-write B+Tree nodes out of them.

use vstd::prelude::*;

pub mod allocator;
pub mod slicebtree;

verus! {

/// The ways in which an operation of this library can fail.
#[derive(Debug, Clone, Copy, PartialEq, Eq, Structural)]
pub enum LodestoneError {
    /// No free block is large enough for the request.
    OutOfMemory,
    /// A persisted handle no longer denotes the allocation it was taken from.
    InvalidReference,
    /// A leaf already holds the key that was to be inserted.
    KeyAlreadyExists,
    /// The key that was to be removed is not in the node.
    KeyNotFound,
    /// A node has no room for another entry and has to be split first.
    NodeFull,
    /// The buffer cannot hold one block besides the metadata page.
    TooSmall,
}

} // verus!
