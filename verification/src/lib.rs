//! A user-space network filesystem client, as a verified library.
//!
//! The library holds the filesystem translation engine: the inode/path
//! table, the per-handle write buffers, the two-tier TTL cache with a byte
//! budget, and the dispatcher decisions for each kernel callback. Remote
//! calls (HTTP) and the mount driver live outside the library; every
//! function here takes the outcome of a remote call as a plain value and
//! is verified for all such outcomes.

pub mod adapter;
pub mod buffer;
pub mod cache;
pub mod inode;
pub mod paths;
pub mod types;

pub mod fs;

use vstd::prelude::*;

verus! {

/// Attribute replies carry a one-second time-to-live.
pub const ATTR_TTL_SECS: u64 = 1;

} // verus!
