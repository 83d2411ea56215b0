use vstd::prelude::*;
use crate::fffs::superblock::SuperBlock;

verus! {

/// Size of a block group descriptor in bytes.
pub const BGD_SIZE: usize = 32;

/// Number of block group descriptors in a block.
pub const BGD_PER_BLOCK: usize = 128;

/// The address that stands for no block.
pub const NULL_ADDR: u64 = 0xffff_ffff_ffff_ffff;

/// The place of a block on the device.
#[derive(Copy, Clone, Debug, PartialEq, Eq, Structural)]
pub struct RawAddr {
    addr: u64,
}

/// The address of a block in the file system: the number of its block group and its place
/// in the group.
#[derive(Copy, Clone, Debug, PartialEq, Eq, Structural)]
pub struct BlockAddr {
    addr: u64,
}

/// The address of a node in the file system: the number of its block group and its place
/// in the group.
#[derive(Copy, Clone, Debug, PartialEq, Eq, Structural)]
pub struct NodeAddr {
    addr: u64,
}

/// The number that 64 bits stand for when they are read as a signed number.
pub open spec fn as_signed(addr: u64) -> int {
    if addr < 0x8000_0000_0000_0000 {
        addr as int
    } else {
        addr - 0x1_0000_0000_0000_0000
    }
}

/// The 64 bits that stand for a signed number.
pub open spec fn as_unsigned(value: int) -> int {
    if value >= 0 {
        value
    } else {
        value + 0x1_0000_0000_0000_0000
    }
}

/// Whether an address can be moved by `offset`: it is not the null address, and the sum of
/// the address, read as a signed number, and the offset is a signed number of 64 bits.
pub open spec fn can_offset(addr: u64, offset: i64) -> bool {
    addr != NULL_ADDR && -0x8000_0000_0000_0000 <= as_signed(addr) + offset
        <= 0x7fff_ffff_ffff_ffff
}

impl RawAddr {
    /// The address as a number.
    pub closed spec fn spec_as_u64(self) -> u64 {
        self.addr
    }

    /// The null address, which is the largest number.
    pub fn null() -> (addr: Self)
        ensures
            addr.spec_as_u64() == NULL_ADDR,
    {
        RawAddr { addr: NULL_ADDR }
    }

    /// The address of the given place.
    pub fn new(addr: u64) -> (raw: Self)
        ensures
            raw.spec_as_u64() == addr,
    {
        RawAddr { addr }
    }

    /// Whether the address is the null address.
    pub fn is_null(self) -> (null: bool)
        ensures
            null == (self.spec_as_u64() == NULL_ADDR),
    {
        self.addr == NULL_ADDR
    }

    /// The address moved by `offset`. The null address cannot be moved.
    pub fn offset(self, offset: i64) -> (moved: Self)
        requires
            can_offset(self.spec_as_u64(), offset),
        ensures
            moved.spec_as_u64() == as_unsigned(as_signed(self.spec_as_u64()) + offset),
    {
        if offset >= 0 {
            RawAddr { addr: self.addr.wrapping_add(offset as u64) }
        } else {
            let back: u64 = ((-(offset + 1)) as u64) + 1;
            RawAddr { addr: self.addr.wrapping_sub(back) }
        }
    }

    /// The address as a number.
    #[verifier::when_used_as_spec(spec_as_u64)]
    pub fn as_u64(self) -> (addr: u64)
        ensures
            addr == self.spec_as_u64(),
    {
        self.addr
    }

    /// The addresses from this one up to, and without, `end`.
    pub fn until(self, end: RawAddr) -> (iter: RawAddrIter)
        ensures
            iter.start == self,
            iter.end == end,
    {
        RawAddrIter { start: self, end }
    }
}

impl BlockAddr {
    /// The address as it is stored. It does not index a device: the block groups say where
    /// the block lies.
    pub closed spec fn spec_inner_u64(&self) -> u64 {
        self.addr
    }

    /// The null address.
    pub fn null() -> (addr: Self)
        ensures
            addr.spec_inner_u64() == NULL_ADDR,
    {
        BlockAddr { addr: NULL_ADDR }
    }

    /// Whether the address is the null address.
    pub fn is_null(&self) -> (null: bool)
        ensures
            null == (self.spec_inner_u64() == NULL_ADDR),
    {
        self.addr == NULL_ADDR
    }

    /// The address as it is stored.
    #[verifier::when_used_as_spec(spec_inner_u64)]
    pub fn inner_u64(&self) -> (addr: u64)
        ensures
            addr == self.spec_inner_u64(),
    {
        self.addr
    }
}

impl NodeAddr {
    /// The address as it is stored. It does not index a device: the block groups say where
    /// the node lies.
    pub closed spec fn spec_inner_u64(&self) -> u64 {
        self.addr
    }

    /// The null address.
    pub fn null() -> (addr: Self)
        ensures
            addr.spec_inner_u64() == NULL_ADDR,
    {
        NodeAddr { addr: NULL_ADDR }
    }

    /// Whether the address is the null address.
    pub fn is_null(&self) -> (null: bool)
        ensures
            null == (self.spec_inner_u64() == NULL_ADDR),
    {
        self.addr == NULL_ADDR
    }

    /// The address as it is stored.
    #[verifier::when_used_as_spec(spec_inner_u64)]
    pub fn inner_u64(&self) -> (addr: u64)
        ensures
            addr == self.spec_inner_u64(),
    {
        self.addr
    }
}

/// The place of the superblock of the file system.
pub fn superblock_addr() -> (addr: RawAddr)
    ensures
        addr.spec_as_u64() == 1,
{
    RawAddr { addr: 1 }
}

/// The first block of the table of block group descriptors.
pub fn gdt_addr() -> (addr: RawAddr)
    ensures
        addr.spec_as_u64() == 2,
{
    superblock_addr().offset(1)
}

/// The addresses between two addresses, in steps of one.
pub struct RawAddrIter {
    pub start: RawAddr,
    pub end: RawAddr,
}

impl RawAddrIter {
    /// The next address, until the end is reached. The address before the end has to be one
    /// that can be moved.
    pub fn next(&mut self) -> (item: Option<RawAddr>)
        requires
            old(self).start.spec_as_u64() != old(self).end.spec_as_u64() ==> can_offset(
                old(self).start.spec_as_u64(),
                1,
            ),
        ensures
            final(self).end == old(self).end,
            old(self).start.spec_as_u64() == old(self).end.spec_as_u64() ==> item is None
                && final(self).start == old(self).start,
            old(self).start.spec_as_u64() != old(self).end.spec_as_u64() ==> item == Some(
                old(self).start,
            ) && final(self).start.spec_as_u64() == as_unsigned(
                as_signed(old(self).start.spec_as_u64()) + 1,
            ),
    {
        if self.start.as_u64() == self.end.as_u64() {
            None
        } else {
            let item = self.start;
            self.start = self.start.offset(1);
            Some(item)
        }
    }
}

/// What the file system knows of one block group.
#[derive(Copy, Clone, Debug)]
pub struct BlockGroupDescriptor {
    /// first block that belongs to the group
    pub group_begin: RawAddr,
    /// number of unused blocks in the group
    pub unused_blocks: u16,
    /// number of unused nodes in the group
    pub unused_nodes: u16,
    /// number of directories in the group
    pub dirs: u16,
}

impl Default for BlockGroupDescriptor {
    fn default() -> (desc: Self)
        ensures
            desc.group_begin.spec_as_u64() == NULL_ADDR,
            desc.unused_blocks == 0,
            desc.unused_nodes == 0,
            desc.dirs == 0,
    {
        BlockGroupDescriptor {
            group_begin: RawAddr::null(),
            unused_blocks: 0,
            unused_nodes: 0,
            dirs: 0,
        }
    }
}

impl BlockGroupDescriptor {
    /// A descriptor with the given contents.
    pub fn new(group_begin: RawAddr, unused_blocks: u16, unused_nodes: u16, dirs: u16) -> (desc: Self)
        ensures
            desc.group_begin == group_begin,
            desc.unused_blocks == unused_blocks,
            desc.unused_nodes == unused_nodes,
            desc.dirs == dirs,
    {
        BlockGroupDescriptor { group_begin, unused_blocks, unused_nodes, dirs }
    }

    /// The block that holds the table of used blocks: the first block of the group.
    pub fn block_usage_address(&self) -> (addr: RawAddr)
        ensures
            addr == self.group_begin,
    {
        self.group_begin
    }

    /// The block that holds the table of used nodes: the second block of the group.
    pub fn node_usage_address(&self) -> (addr: RawAddr)
        requires
            can_offset(self.group_begin.spec_as_u64(), 1),
        ensures
            addr.spec_as_u64() == as_unsigned(as_signed(self.group_begin.spec_as_u64()) + 1),
    {
        self.group_begin.offset(1)
    }

    /// The first block of the node table: the third block of the group.
    pub fn node_blocks_begin(&self) -> (addr: RawAddr)
        requires
            can_offset(self.group_begin.spec_as_u64(), 2),
        ensures
            addr.spec_as_u64() == as_unsigned(as_signed(self.group_begin.spec_as_u64()) + 2),
    {
        self.group_begin.offset(2)
    }

    /// The first block behind the node table.
    pub fn node_blocks_end(&self, supr: &SuperBlock) -> (addr: RawAddr)
        requires
            supr.block_size != 0,
            supr.block_group_node_count * supr.node_size <= u64::MAX,
            supr.spec_node_reserved_blocks_per_group() <= 0x7fff_ffff_ffff_fffd,
            can_offset(
                self.group_begin.spec_as_u64(),
                (2 + supr.spec_node_reserved_blocks_per_group()) as i64,
            ),
        ensures
            addr.spec_as_u64() == as_unsigned(
                as_signed(self.group_begin.spec_as_u64()) + 2
                    + supr.spec_node_reserved_blocks_per_group(),
            ),
    {
        let reserved = supr.node_reserved_blocks_per_group();
        self.group_begin.offset(2 + reserved as i64)
    }

    /// The first block of the group that can hold files and directories: the block behind
    /// the node table.
    pub fn usable_blocks_begin(&self, supr: &SuperBlock) -> (addr: RawAddr)
        requires
            supr.block_size != 0,
            supr.block_group_node_count * supr.node_size <= u64::MAX,
            supr.spec_node_reserved_blocks_per_group() <= 0x7fff_ffff_ffff_fffd,
            can_offset(
                self.group_begin.spec_as_u64(),
                (2 + supr.spec_node_reserved_blocks_per_group()) as i64,
            ),
        ensures
            addr.spec_as_u64() == as_unsigned(
                as_signed(self.group_begin.spec_as_u64()) + 2
                    + supr.spec_node_reserved_blocks_per_group(),
            ),
    {
        self.node_blocks_end(supr)
    }
}

} // verus!
