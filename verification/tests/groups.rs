use bitfs::fffs::bits::{get_bit, set_bit};
use bitfs::fffs::block::{
    gdt_addr, superblock_addr, BlockAddr, BlockGroupDescriptor, NodeAddr, RawAddr,
};
use bitfs::fffs::perm::{Access, Accessor, Permission};
use bitfs::fffs::superblock::{SuperBlock, MAGIC};

#[test]
fn bits_are_counted_from_the_low_end_of_each_byte() {
    let mut bitmap = [0u8; 3];
    set_bit(&mut bitmap, 0, true);
    set_bit(&mut bitmap, 9, true);
    set_bit(&mut bitmap, 23, true);
    assert_eq!(bitmap, [0b0000_0001, 0b0000_0010, 0b1000_0000]);
    assert!(get_bit(&bitmap, 0));
    assert!(!get_bit(&bitmap, 1));
    assert!(get_bit(&bitmap, 9));
    assert!(get_bit(&bitmap, 23));
    set_bit(&mut bitmap, 9, false);
    set_bit(&mut bitmap, 10, false);
    assert_eq!(bitmap, [1, 0, 0x80]);
    set_bit(&mut bitmap, 0, true);
    assert_eq!(bitmap, [1, 0, 0x80]);
}

#[test]
fn raw_addresses_move_by_signed_offsets() {
    assert_eq!(RawAddr::new(10).offset(5).as_u64(), 15);
    assert_eq!(RawAddr::new(10).offset(-10).as_u64(), 0);
    assert_eq!(RawAddr::new(10).offset(0).as_u64(), 10);
    assert_eq!(RawAddr::new(0).offset(i64::MAX).as_u64(), i64::MAX as u64);
    assert_eq!(RawAddr::new(i64::MAX as u64).offset(i64::MIN + 1).as_u64(), 0);
    assert_eq!(RawAddr::new(3).offset(-4).as_u64(), u64::MAX);
    assert_eq!(RawAddr::new(u64::MAX - 1).offset(-1).as_u64(), u64::MAX - 2);
    assert!(RawAddr::null().is_null());
    assert_eq!(RawAddr::null().as_u64(), u64::MAX);
    assert!(!RawAddr::new(0).is_null());
    assert_eq!(superblock_addr().as_u64(), 1);
    assert_eq!(gdt_addr().as_u64(), 2);
}

#[test]
fn until_steps_from_start_to_end() {
    let mut iter = RawAddr::new(5).until(RawAddr::new(8));
    let mut seen = Vec::new();
    while let Some(addr) = iter.next() {
        seen.push(addr.as_u64());
    }
    assert_eq!(seen, vec![5, 6, 7]);
    assert!(iter.next().is_none());
    assert!(RawAddr::new(4).until(RawAddr::new(4)).next().is_none());
}

#[test]
fn block_and_node_addresses_have_a_null() {
    assert!(BlockAddr::null().is_null());
    assert_eq!(BlockAddr::null().inner_u64(), u64::MAX);
    assert!(NodeAddr::null().is_null());
    assert_eq!(NodeAddr::null().inner_u64(), u64::MAX);
}

#[test]
fn a_block_group_begins_with_its_tables() {
    let supr = SuperBlock::new(8192 * 4, [b'v'; 32]);
    let desc = BlockGroupDescriptor::new(RawAddr::new(100), 7, 8, 9);
    assert_eq!((desc.unused_blocks, desc.unused_nodes, desc.dirs), (7, 8, 9));
    assert_eq!(desc.block_usage_address().as_u64(), 100);
    assert_eq!(desc.node_usage_address().as_u64(), 101);
    assert_eq!(desc.node_blocks_begin().as_u64(), 102);
    // 1536 nodes of 128 bytes take 48 blocks
    assert_eq!(desc.node_blocks_end(&supr).as_u64(), 150);
    assert_eq!(desc.usable_blocks_begin(&supr).as_u64(), 150);
    assert!(BlockGroupDescriptor::default().group_begin.is_null());
}

#[test]
fn a_superblock_counts_groups_and_reserved_blocks() {
    let mut supr = SuperBlock::new(8192 * 4 + 5, [b'v'; 32]);
    assert!(supr.is_valid());
    assert_eq!(supr.magic, MAGIC);
    assert_eq!(supr.block_group_count(), 4);
    assert_eq!(supr.nodes, 4 * 1536);
    assert_eq!(supr.reserved, 16);
    assert_eq!(supr.free_blocks, 8192 * 4 + 5 - 16);
    assert_eq!(supr.node_reserved_blocks_per_group(), 48);
    assert_eq!(supr.usable_blocks_per_group(), 8192 - 48 - 2);
    assert_eq!(SuperBlock::new(8192 * 128, [0; 32]).reserved, 17);
    supr.mark_mounted();
    supr.mark_mounted();
    assert_eq!(supr.mount_count, 2);
    supr.magic = 1;
    assert!(!supr.is_valid());
    let empty = SuperBlock::empty();
    assert_eq!(empty.blocks, 0);
    assert_eq!(empty.free_blocks, 0);
    assert_eq!(empty.name, [b' '; 32]);
    assert_eq!(empty.block_group_count(), 0);
}

#[test]
fn rights_are_given_and_taken_one_by_one() {
    let mut perm = Permission::default();
    assert!(perm.get(Accessor::User, Access::Read));
    assert!(perm.get(Accessor::User, Access::Write));
    assert!(!perm.get(Accessor::User, Access::Execute));
    assert!(!perm.get(Accessor::Group, Access::Read));
    assert!(!perm.get(Accessor::Other, Access::Execute));
    perm.set(Accessor::Other, Access::Execute, true);
    perm.set(Accessor::User, Access::Write, false);
    perm.set(Accessor::Group, Access::Read, true);
    assert!(perm.get(Accessor::Other, Access::Execute));
    assert!(!perm.get(Accessor::User, Access::Write));
    assert!(perm.get(Accessor::User, Access::Read));
    assert!(perm.get(Accessor::Group, Access::Read));
    assert!(!perm.get(Accessor::Group, Access::Write));
    perm.set(Accessor::Group, Access::Read, false);
    assert!(!perm.get(Accessor::Group, Access::Read));
}

#[test]
fn a_right_is_one_bit_of_the_bitmap() {
    let mut perm = Permission::default();
    assert_eq!(format!("{:?}", perm), "Permission { perm: 3 }");
    perm.set(Accessor::Other, Access::Execute, true);
    assert_eq!(format!("{:?}", perm), "Permission { perm: 259 }");
    perm.set(Accessor::Other, Access::Execute, true);
    assert_eq!(format!("{:?}", perm), "Permission { perm: 259 }");
    perm.set(Accessor::Group, Access::Write, true);
    assert_eq!(format!("{:?}", perm), "Permission { perm: 275 }");
    perm.set(Accessor::User, Access::Read, false);
    assert_eq!(format!("{:?}", perm), "Permission { perm: 274 }");
    perm.set(Accessor::User, Access::Read, false);
    assert_eq!(format!("{:?}", perm), "Permission { perm: 274 }");
}
