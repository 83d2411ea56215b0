use vstd::prelude::*;
use crate::fffs::block::{superblock_addr, RawAddr};
use crate::fffs::{Time, BLOCK_GROUP_SIZE, NODES_PER_GROUP};

verus! {

/// The number that identifies a superblock.
pub const MAGIC: u64 = 5172077894053490781;

/// Length of the volume name in bytes.
pub const VOLUME_NAME_LEN: usize = 32;

/// Size of a node in bytes.
pub const NODE_SIZE: u64 = 128;

/// What the file system knows of the volume as a whole.
pub struct SuperBlock {
    /// signature to identify the superblock
    pub magic: u64,
    /// total number of nodes
    pub nodes: u64,
    /// total number of blocks
    pub blocks: u64,
    /// number of blocks reserved for the system
    pub reserved: u64,
    /// number of free nodes
    pub free_nodes: u64,
    /// number of free blocks
    pub free_blocks: u64,
    /// block that holds the superblock
    pub super_block_index: RawAddr,
    /// block size
    pub block_size: u64,
    /// size of a node in bytes
    pub node_size: u64,
    /// number of blocks in a block group
    pub block_group_size: u64,
    /// number of nodes in a block group
    pub block_group_node_count: u64,
    /// last mount time
    pub last_mount: Time,
    /// last write time
    pub last_write: Time,
    /// number of times the file system has been mounted
    pub mount_count: u64,
    /// number of times the file system can be mounted before it is checked
    pub mount_check: u64,
    /// volume name
    pub name: [u8; 32],
}

/// The number of blocks that a volume of `blocks` blocks reserves for the system: 16, and
/// the blocks of the table of block group descriptors.
pub open spec fn reserved_blocks(blocks: u64) -> int {
    16 + (blocks / BLOCK_GROUP_SIZE) * 32 / 4096
}

impl SuperBlock {
    /// The number of blocks that the node table takes in each block group.
    pub open spec fn spec_node_reserved_blocks_per_group(&self) -> int {
        self.block_group_node_count * self.node_size / (self.block_size as int)
    }

    /// A superblock for a volume without blocks.
    pub fn empty() -> (sb: Self)
        ensures
            sb.magic == MAGIC,
            sb.blocks == 0,
            sb.nodes == 0,
            sb.reserved == 16,
            sb.free_blocks == 0,
            sb.block_size == 4096,
            sb.node_size == NODE_SIZE,
            sb.block_group_size == BLOCK_GROUP_SIZE,
            sb.block_group_node_count == NODES_PER_GROUP,
            sb.mount_count == 0,
            sb.mount_check == 32,
            sb.name@ == Seq::new(32, |i: int| 32u8),
    {
        let name = [32u8; 32];
        assert(name@ =~= Seq::new(32, |i: int| 32u8));
        Self::new(0, name)
    }

    /// A superblock for a volume of `blocks` blocks. Of these, 16 and the table of block group
    /// descriptors are reserved; a volume smaller than that has no free block.
    pub fn new(blocks: u64, name: [u8; 32]) -> (sb: Self)
        ensures
            sb.magic == MAGIC,
            sb.blocks == blocks,
            sb.nodes == (blocks / BLOCK_GROUP_SIZE) * NODES_PER_GROUP,
            sb.reserved == reserved_blocks(blocks),
            sb.free_nodes == 0,
            sb.free_blocks == (if blocks >= reserved_blocks(blocks) {
                blocks - reserved_blocks(blocks)
            } else {
                0
            }),
            sb.super_block_index.spec_as_u64() == 1,
            sb.block_size == 4096,
            sb.node_size == NODE_SIZE,
            sb.block_group_size == BLOCK_GROUP_SIZE,
            sb.block_group_node_count == NODES_PER_GROUP,
            sb.last_mount == 0,
            sb.last_write == 0,
            sb.mount_count == 0,
            sb.mount_check == 32,
            sb.name == name,
    {
        let block_group_count = blocks / BLOCK_GROUP_SIZE;
        let bgdt_reserved = block_group_count * 32 / 4096;
        let nodes = block_group_count * NODES_PER_GROUP;
        let reserved = 16 + bgdt_reserved;
        SuperBlock {
            magic: MAGIC,
            nodes,
            blocks,
            reserved,
            free_nodes: 0,
            free_blocks: if blocks >= reserved {
                blocks - reserved
            } else {
                0
            },
            super_block_index: superblock_addr(),
            block_size: 4096,
            node_size: NODE_SIZE,
            block_group_size: BLOCK_GROUP_SIZE,
            block_group_node_count: NODES_PER_GROUP,
            last_mount: 0,
            last_write: 0,
            mount_count: 0,
            mount_check: 32,
            name,
        }
    }

    /// Whether the signature is that of a superblock.
    pub fn is_valid(&self) -> (valid: bool)
        ensures
            valid == (self.magic == MAGIC),
    {
        self.magic == MAGIC
    }

    /// Counts one more mount.
    pub fn mark_mounted(&mut self)
        requires
            old(self).mount_count < u64::MAX,
        ensures
            final(self).mount_count == old(self).mount_count + 1,
            final(self).magic == old(self).magic,
            final(self).nodes == old(self).nodes,
            final(self).blocks == old(self).blocks,
            final(self).reserved == old(self).reserved,
            final(self).free_nodes == old(self).free_nodes,
            final(self).free_blocks == old(self).free_blocks,
            final(self).super_block_index == old(self).super_block_index,
            final(self).block_size == old(self).block_size,
            final(self).node_size == old(self).node_size,
            final(self).block_group_size == old(self).block_group_size,
            final(self).block_group_node_count == old(self).block_group_node_count,
            final(self).last_mount == old(self).last_mount,
            final(self).last_write == old(self).last_write,
            final(self).mount_check == old(self).mount_check,
            final(self).name == old(self).name,
    {
        self.mount_count = self.mount_count + 1;
    }

    /// The number of blocks that the node table takes in each block group.
    pub fn node_reserved_blocks_per_group(&self) -> (count: u64)
        requires
            self.block_size != 0,
            self.block_group_node_count * self.node_size <= u64::MAX,
        ensures
            count == self.spec_node_reserved_blocks_per_group(),
    {
        self.block_group_node_count * self.node_size / self.block_size
    }

    /// The number of blocks of each block group that can hold files and directories: all
    /// but the node table and the two usage tables. Only the low 16 bits are given.
    pub fn usable_blocks_per_group(&self) -> (count: u16)
        requires
            self.block_size != 0,
            self.block_group_node_count * self.node_size <= u64::MAX,
            self.spec_node_reserved_blocks_per_group() + 2 <= self.block_group_size,
        ensures
            count == (self.block_group_size - self.spec_node_reserved_blocks_per_group() - 2)
                % 0x1_0000,
    {
        let all = self.block_group_size - self.node_reserved_blocks_per_group() - 2;
        (all % 0x1_0000) as u16
    }

    /// The number of block groups of the volume.
    pub fn block_group_count(&self) -> (count: u64)
        requires
            self.block_group_size != 0,
        ensures
            count == self.blocks / self.block_group_size,
    {
        self.blocks / self.block_group_size
    }
}

} // verus!
