//! A zero-copy archive format for trees whose children lists may be shared.
//!
//! - `tree`: the values, with shared lists held in a pool and named by handle.
//! - `wire`: little-endian words, relative pointers and byte strings.
//! - `layout`: the block that holds one list, and what a block means.
//! - `writer`: archiving, with a registry that writes each shared list once
//!   and lets a later pass append to an earlier archive.
//! - `reader`: checking every pointer and rebuilding the pool, with a registry
//!   that turns each archived list back into one shared list.
//! - `laws`: round trip and kept sharing, stated over the two registries.
use vstd::prelude::*;

pub mod laws;
pub mod layout;
pub mod reader;
pub mod tree;
pub mod wire;
pub mod writer;

verus! {

/// Distance in bytes from `base` up to `p`, for a position at or after `base`.
pub fn offset_from(base: usize, p: usize) -> (r: usize)
    requires
        base <= p,
    ensures
        r == p - base,
{
    p - base
}

} // verus!
