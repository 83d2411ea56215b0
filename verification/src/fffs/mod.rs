use vstd::prelude::*;

pub mod bits;
pub mod block;
pub mod perm;
pub mod superblock;

verus! {

/// Block size of the file system.
pub const BLOCK_SIZE: usize = 4096;

/// Number of blocks of a block group, those that the group uses for itself included.
pub const BLOCK_GROUP_SIZE: u64 = 8192;

/// Number of nodes in a block group.
pub const NODES_PER_GROUP: u64 = 1536;

/// A point in time.
pub type Time = i64;

} // verus!
