use vstd::prelude::*;
use crate::block::{BlockDevice, ReadBlockDevice, WriteBlockDevice};
use crate::copy::copy_offset;
use crate::error::{FsError, FsResult};

verus! {

/// Block size of the memory-backed devices.
pub const MEMORY_BLOCK_SIZE: usize = 4096;

/// The blocks that a flat byte sequence holds: consecutive runs of 4096 bytes. Bytes after
/// the last whole block belong to no block.
pub open spec fn blocks_of(data: Seq<u8>) -> Seq<Seq<u8>> {
    Seq::new(
        (data.len() / 4096) as nat,
        |i: int| data.subrange(i * 4096, i * 4096 + 4096),
    )
}

/// Writing a whole block into the flat data changes that block of the view and no other.
pub proof fn lemma_blocks_of_update(before: Seq<u8>, after: Seq<u8>, index: int, block: Seq<u8>)
    requires
        0 <= index < before.len() / 4096,
        block.len() == 4096,
        after.len() == before.len(),
        forall|k: int| 0 <= k < after.len() ==> #[trigger] after[k] == (
            if index * 4096 <= k < index * 4096 + 4096 { block[k - index * 4096] } else { before[k] }),
    ensures
        blocks_of(after) =~= blocks_of(before).update(index, block),
{
    assert forall|i: int| 0 <= i < blocks_of(after).len() implies #[trigger] blocks_of(after)[i]
        == blocks_of(before).update(index, block)[i] by {
        if i == index {
            assert(blocks_of(after)[i] =~= block);
        } else {
            assert(blocks_of(after)[i] =~= blocks_of(before)[i]);
        }
    }
}

/// A device over a borrowed, writable byte slice.
pub struct RamDisk<'a> {
    pub data: &'a mut [u8],
}

/// A device over a borrowed, read-only byte slice. Every write is refused.
pub struct RomDisk<'a> {
    pub data: &'a [u8],
}

/// A device that owns its bytes.
pub struct OwnedDisk {
    pub data: Vec<u8>,
}

impl<'a> RamDisk<'a> {
    /// A device over the given bytes.
    pub fn new(data: &'a mut [u8]) -> (disk: Self)
        ensures
            disk.data@ == old(data)@,
    {
        RamDisk { data }
    }
}

impl BlockDevice for OwnedDisk {
    open spec fn blocks_view(&self) -> Seq<Seq<u8>> {
        blocks_of(self.data@)
    }

    open spec fn spec_block_size(&self) -> nat {
        4096
    }

    open spec fn spec_read_only(&self) -> bool {
        false
    }

    open spec fn reliable(&self) -> bool {
        true
    }

    open spec fn dev_wf(&self) -> bool {
        self.data@.len() <= usize::MAX
    }

    proof fn lemma_dev_wf(&self) {
    }

    fn block_size(&self) -> (size: usize) {
        MEMORY_BLOCK_SIZE
    }

    fn blocks(&self) -> (count: usize) {
        self.data.len() / MEMORY_BLOCK_SIZE
    }

    fn is_read_only(&self) -> (ro: bool) {
        false
    }
}

impl ReadBlockDevice for OwnedDisk {
    fn read_block(&self, index: usize, buffer: &mut [u8]) -> (result: FsResult<()>) {
        assert(self.blocks_view().len() == self.data@.len() / 4096);
        assert(4096 * index + 4096 <= self.data@.len());
        let begin = MEMORY_BLOCK_SIZE * index;
        copy_offset(self.data.as_slice(), buffer, MEMORY_BLOCK_SIZE, begin, 0);
        assert(buffer@ =~= self.blocks_view()[index as int]);
        Ok(())
    }
}

impl WriteBlockDevice for OwnedDisk {
    fn write_block(&mut self, index: usize, buffer: &[u8]) -> (result: FsResult<()>) {
        assert(self.blocks_view().len() == self.data@.len() / 4096);
        assert(4096 * index + 4096 <= self.data@.len());
        let begin = MEMORY_BLOCK_SIZE * index;
        copy_offset(buffer, self.data.as_mut_slice(), MEMORY_BLOCK_SIZE, 0, begin);
        proof {
            lemma_blocks_of_update(old(self).data@, self.data@, index as int, buffer@);
        }
        Ok(())
    }
}

impl<'a> BlockDevice for RamDisk<'a> {
    open spec fn blocks_view(&self) -> Seq<Seq<u8>> {
        blocks_of(self.data@)
    }

    open spec fn spec_block_size(&self) -> nat {
        4096
    }

    open spec fn spec_read_only(&self) -> bool {
        false
    }

    open spec fn reliable(&self) -> bool {
        true
    }

    open spec fn dev_wf(&self) -> bool {
        self.data@.len() <= usize::MAX
    }

    proof fn lemma_dev_wf(&self) {
    }

    fn block_size(&self) -> (size: usize) {
        MEMORY_BLOCK_SIZE
    }

    fn blocks(&self) -> (count: usize) {
        self.data.len() / MEMORY_BLOCK_SIZE
    }

    fn is_read_only(&self) -> (ro: bool) {
        false
    }
}

impl<'a> ReadBlockDevice for RamDisk<'a> {
    fn read_block(&self, index: usize, buffer: &mut [u8]) -> (result: FsResult<()>) {
        assert(self.blocks_view().len() == self.data@.len() / 4096);
        assert(4096 * index + 4096 <= self.data@.len());
        let begin = MEMORY_BLOCK_SIZE * index;
        copy_offset(self.data, buffer, MEMORY_BLOCK_SIZE, begin, 0);
        assert(buffer@ =~= self.blocks_view()[index as int]);
        Ok(())
    }
}

impl<'a> WriteBlockDevice for RamDisk<'a> {
    fn write_block(&mut self, index: usize, buffer: &[u8]) -> (result: FsResult<()>) {
        assert(self.blocks_view().len() == self.data@.len() / 4096);
        assert(4096 * index + 4096 <= self.data@.len());
        let begin = MEMORY_BLOCK_SIZE * index;
        copy_offset(buffer, self.data, MEMORY_BLOCK_SIZE, 0, begin);
        proof {
            lemma_blocks_of_update(old(self).data@, self.data@, index as int, buffer@);
        }
        Ok(())
    }
}

impl<'a> BlockDevice for RomDisk<'a> {
    open spec fn blocks_view(&self) -> Seq<Seq<u8>> {
        blocks_of(self.data@)
    }

    open spec fn spec_block_size(&self) -> nat {
        4096
    }

    open spec fn spec_read_only(&self) -> bool {
        true
    }

    open spec fn reliable(&self) -> bool {
        true
    }

    open spec fn dev_wf(&self) -> bool {
        self.data@.len() <= usize::MAX
    }

    proof fn lemma_dev_wf(&self) {
    }

    fn block_size(&self) -> (size: usize) {
        MEMORY_BLOCK_SIZE
    }

    fn blocks(&self) -> (count: usize) {
        self.data.len() / MEMORY_BLOCK_SIZE
    }

    fn is_read_only(&self) -> (ro: bool) {
        true
    }
}

impl<'a> ReadBlockDevice for RomDisk<'a> {
    fn read_block(&self, index: usize, buffer: &mut [u8]) -> (result: FsResult<()>) {
        assert(self.blocks_view().len() == self.data@.len() / 4096);
        assert(4096 * index + 4096 <= self.data@.len());
        let begin = MEMORY_BLOCK_SIZE * index;
        copy_offset(self.data, buffer, MEMORY_BLOCK_SIZE, begin, 0);
        assert(buffer@ =~= self.blocks_view()[index as int]);
        Ok(())
    }
}

impl<'a> WriteBlockDevice for RomDisk<'a> {
    fn write_block(&mut self, index: usize, buffer: &[u8]) -> (result: FsResult<()>) {
        Err(FsError::illegal("device is read-only"))
    }
}

} // verus!
