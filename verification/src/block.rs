use vstd::prelude::*;
use crate::error::{ErrorKind, FsError, FsResult};

verus! {

/// A device that is read and written one fixed-size block at a time.
///
/// The device is modelled by the sequence of its blocks, each a sequence of bytes.
pub trait BlockDevice {
    /// The blocks of the device, in address order.
    spec fn blocks_view(&self) -> Seq<Seq<u8>>;

    /// The size of every block, in bytes.
    spec fn spec_block_size(&self) -> nat;

    /// Whether writes are refused.
    spec fn spec_read_only(&self) -> bool;

    /// Whether the device never reports a fault of its own: on such a device a read always
    /// succeeds, and a write fails only where the device is read-only.
    spec fn reliable(&self) -> bool;

    /// The device invariant: a positive block size, and every block of that size.
    spec fn dev_wf(&self) -> bool;

    /// What the invariant gives.
    proof fn lemma_dev_wf(&self)
        requires
            self.dev_wf(),
        ensures
            self.spec_block_size() > 0,
            self.blocks_view().len() <= usize::MAX,
            self.spec_block_size() <= usize::MAX,
            forall|i: int| 0 <= i < self.blocks_view().len() ==> #[trigger] self.blocks_view()[i].len() == self.spec_block_size(),
    ;

    /// Block size of the device.
    fn block_size(&self) -> (size: usize)
        requires
            self.dev_wf(),
        ensures
            size == self.spec_block_size(),
            size > 0,
    ;

    /// Number of blocks on the device.
    fn blocks(&self) -> (count: usize)
        requires
            self.dev_wf(),
        ensures
            count == self.blocks_view().len(),
    ;

    /// Whether the device refuses writes.
    fn is_read_only(&self) -> (ro: bool)
        requires
            self.dev_wf(),
        ensures
            ro == self.spec_read_only(),
    ;
}

/// A block device that can be read.
pub trait ReadBlockDevice: BlockDevice {
    /// Reads block `index` into `buffer`. A fault of the device is the only way to fail.
    fn read_block(&self, index: usize, buffer: &mut [u8]) -> (result: FsResult<()>)
        requires
            self.dev_wf(),
            old(buffer)@.len() == self.spec_block_size(),
            index < self.blocks_view().len(),
        ensures
            final(buffer)@.len() == old(buffer)@.len(),
            result is Ok ==> final(buffer)@ == self.blocks_view()[index as int],
            result matches Err(e) ==> e.spec_kind() == ErrorKind::BlockDeviceError,
            self.reliable() ==> result is Ok,
    ;
}

/// A block device that can be written.
pub trait WriteBlockDevice: BlockDevice {
    /// Writes `buffer` to block `index`. A read-only device refuses with an illegal-operation
    /// error; otherwise a fault of the device is the only way to fail. No other block changes,
    /// and a refused write changes nothing.
    fn write_block(&mut self, index: usize, buffer: &[u8]) -> (result: FsResult<()>)
        requires
            old(self).dev_wf(),
            buffer@.len() == old(self).spec_block_size(),
            index < old(self).blocks_view().len(),
        ensures
            final(self).dev_wf(),
            final(self).spec_block_size() == old(self).spec_block_size(),
            final(self).spec_read_only() == old(self).spec_read_only(),
            final(self).reliable() == old(self).reliable(),
            final(self).blocks_view().len() == old(self).blocks_view().len(),
            forall|i: int| 0 <= i < old(self).blocks_view().len() && i != index
                ==> #[trigger] final(self).blocks_view()[i] == old(self).blocks_view()[i],
            result is Ok ==> final(self).blocks_view()[index as int] == buffer@,
            old(self).spec_read_only() ==> final(self).blocks_view() == old(self).blocks_view()
                && (result matches Err(e) && e.spec_kind() == ErrorKind::IllegalOperation),
            !old(self).spec_read_only() ==> (result matches Err(e) ==> e.spec_kind() == ErrorKind::BlockDeviceError),
            old(self).reliable() && !old(self).spec_read_only() ==> result is Ok,
    ;
}

/// A block device that can be both read and written.
pub trait RWBlockDevice: ReadBlockDevice + WriteBlockDevice {
}

impl<D> RWBlockDevice for D where D: ReadBlockDevice + WriteBlockDevice {
}

/// Whether a buffer and a block index fit a device: the buffer has the size of a block and
/// the index lies below the number of blocks.
pub open spec fn args_fit<D: BlockDevice>(device: &D, buffer: Seq<u8>, index: usize) -> bool {
    buffer.len() == device.spec_block_size() && index < device.blocks_view().len()
}

/// Checks the arguments of a block transfer before it is made.
pub fn check_args<D: BlockDevice>(device: &D, buffer: &[u8], index: usize) -> (result: FsResult<()>)
    requires
        device.dev_wf(),
    ensures
        result is Ok <==> args_fit(device, buffer@, index),
        result matches Err(e) ==> e.spec_kind() == ErrorKind::InternalError,
{
    if buffer.len() != device.block_size() {
        Err(FsError::internal("invalid buffer size"))
    } else if index >= device.blocks() {
        Err(FsError::internal("out of bounds block address"))
    } else {
        Ok(())
    }
}

} // verus!
