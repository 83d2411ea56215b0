use vstd::prelude::*;
use crate::block::{BlockDevice, RWBlockDevice, ReadBlockDevice};
use crate::error::{ErrorKind, FsError, FsResult};
use crate::ffat::dir::{entries_view, DirData};
use crate::ffat::model::{
    answers, disk_wf, format_base, format_entry, format_root, format_table_block, kinded, m_alloc, m_format, m_free_chain, m_locate, m_mark_free, m_meta, m_next, m_root, m_set_meta, m_set_root, performs, Disk,
};
use crate::ffat::structs::{
    table_sectors, RootSector, RootView, Sector, SectorType, BLOCK_SIZE,
};

pub mod layout;
pub mod structs;
pub mod dir;
pub mod model;
pub mod reading;
pub mod writing;
pub mod refusal;
pub mod ops;
pub mod laws;
pub mod chains;
pub mod content;
pub mod growth;
pub mod payload;
pub mod dirwrite;
pub mod stream;
pub mod sound;
pub mod tree;
pub mod scarce;
pub mod cut_short;
pub mod members;
pub mod packing;
pub mod files_kept;
pub mod file_laws;
pub mod tree_edit;
pub mod loose;
pub mod creation;
pub mod removal;
pub mod undo;
pub mod names_kept;
pub mod pruning;
pub mod deleting;
pub mod clearing;
pub mod appending;

verus! {

/// A volume in the FFAT format on a block device.
pub struct FFAT<B: BlockDevice> {
    dev: B,
}

impl<B: BlockDevice> FFAT<B> {
    /// The sectors of the volume.
    pub closed spec fn disk(&self) -> Disk {
        self.dev.blocks_view()
    }

    /// Whether the device never faults.
    pub closed spec fn reliable(&self) -> bool {
        self.dev.reliable()
    }

    /// Whether the device refuses writes.
    pub closed spec fn read_only(&self) -> bool {
        self.dev.spec_read_only()
    }

    /// The invariant of a mounted volume: the device has blocks of 4096 bytes, and at least one.
    pub closed spec fn wf(&self) -> bool {
        &&& self.dev.dev_wf()
        &&& self.dev.spec_block_size() == 4096
        &&& self.dev.blocks_view().len() >= 1
    }

    /// Whether two states belong to the same device: the same number of sectors, and the
    /// same behaviour towards faults and writes.
    pub open spec fn same_device(&self, other: &Self) -> bool {
        &&& self.disk().len() == other.disk().len()
        &&& self.reliable() == other.reliable()
        &&& self.read_only() == other.read_only()
    }

    /// The number of sectors of the device.
    pub fn sectors(&self) -> (count: usize)
        requires
            self.wf(),
        ensures
            count == self.disk().len(),
    {
        self.dev.blocks()
    }

    /// Whether the device refuses writes.
    pub fn is_read_only(&self) -> (ro: bool)
        requires
            self.wf(),
        ensures
            ro == self.read_only(),
    {
        self.dev.is_read_only()
    }

    /// Gives the device back.
    pub fn inner(self) -> (dev: B)
        ensures
            dev.blocks_view() == self.disk(),
            self.wf() ==> dev.dev_wf() && dev.spec_block_size() == 4096 && dev.blocks_view().len()
                >= 1,
            dev.reliable() == self.reliable(),
            dev.spec_read_only() == self.read_only(),
    {
        self.dev
    }

    /// The sectors of a mounted volume have 4096 bytes each.
    pub proof fn lemma_wf(&self)
        requires
            self.wf(),
        ensures
            disk_wf(self.disk()),
    {
        self.dev.lemma_dev_wf();
    }
}

impl<B: ReadBlockDevice> FFAT<B> {
    /// Reads one sector of the device.
    pub(crate) fn read_sector(&self, addr: usize) -> (result: FsResult<Vec<u8>>)
        requires
            self.wf(),
            addr < self.disk().len(),
        ensures
            match result {
                Ok(block) => block@ == self.disk()[addr as int] && block@.len() == 4096,
                Err(e) => e.spec_kind() == ErrorKind::BlockDeviceError && !self.reliable(),
            },
    {
        proof {
            self.dev.lemma_dev_wf();
        }
        let mut block: Vec<u8> = vec![0u8; BLOCK_SIZE];
        match self.dev.read_block(addr, block.as_mut_slice()) {
            Ok(()) => Ok(block),
            Err(e) => Err(e),
        }
    }

    /// Reads the root sector and checks its shape.
    pub(crate) fn root_sector(&self) -> (result: FsResult<RootSector>)
        requires
            self.wf(),
        ensures
            match result {
                Ok(root) => m_root(self.disk()) == Ok::<RootView, ErrorKind>(root@),
                Err(e) => m_root(self.disk()) == Err::<RootView, ErrorKind>(e.spec_kind()) || (
                !self.reliable() && e.spec_kind() == ErrorKind::BlockDeviceError),
            },
    {
        proof {
            self.lemma_wf();
        }
        let block = match self.read_sector(0) {
            Ok(block) => block,
            Err(e) => return Err(e),
        };
        let root = RootSector::decode(block.as_slice());
        if root.is_valid(self.dev.blocks()) {
            Ok(root)
        } else {
            Err(FsError::InvalidSuperBlock)
        }
    }

    /// The sector of the allocation table that holds the entry of a sector, and the index of
    /// the entry in it. Sectors before the root directory and beyond the volume have none.
    pub fn sector_to_table_location(&self, sector: u64) -> (result: FsResult<Option<(usize, usize)>>)
        requires
            self.wf(),
        ensures
            match result {
                Ok(Some(place)) => m_locate(self.disk(), sector) == Ok::<Option<(nat, nat)>, ErrorKind>(
                    Some((place.0 as nat, place.1 as nat)),
                ) && 1 <= place.0 < self.disk().len() && place.1 < 128,
                Ok(None) => m_locate(self.disk(), sector) == Ok::<Option<(nat, nat)>, ErrorKind>(None),
                Err(e) => m_locate(self.disk(), sector) == Err::<Option<(nat, nat)>, ErrorKind>(
                    e.spec_kind(),
                ) || (!self.reliable() && e.spec_kind() == ErrorKind::BlockDeviceError),
            },
    {
        proof {
            self.lemma_wf();
        }
        let root = match self.root_sector() {
            Ok(root) => root,
            Err(e) => return Err(e),
        };
        let place = root.locate(sector);
        proof {
            if place is Some {
                root@.lemma_locate_in_table(self.disk().len(), sector);
            }
        }
        Ok(place)
    }

    /// Reads the table entry of a sector.
    pub fn read_sector_meta(&self, addr: u64) -> (result: FsResult<Sector>)
        requires
            self.wf(),
        ensures
            answers(self.reliable(), kinded(result), m_meta(self.disk(), addr)),
    {
        proof {
            self.lemma_wf();
        }
        match self.sector_to_table_location(addr) {
            Err(e) => Err(e),
            Ok(None) => Err(
                FsError::illegal("read_sector_meta: the sector is not in the data region"),
            ),
            Ok(Some((table_addr, table_idx))) => {
                let block = match self.read_sector(table_addr) {
                    Ok(block) => block,
                    Err(e) => return Err(e),
                };
                Ok(Sector::read_from(block.as_slice(), table_idx))
            },
        }
    }

    /// The sector that follows a sector in its chain, if any.
    pub fn next_sector(&self, sector: u64) -> (result: FsResult<Option<u64>>)
        requires
            self.wf(),
        ensures
            answers(self.reliable(), kinded(result), m_next(self.disk(), sector)),
    {
        match self.read_sector_meta(sector) {
            Err(e) => Err(e),
            Ok(entry) => if entry.next == 0 {
                Ok(None)
            } else {
                Ok(Some(entry.next))
            },
        }
    }
}

impl<B: RWBlockDevice> FFAT<B> {
    /// Writes one sector of the device. The caller has made sure that the device takes writes.
    pub(crate) fn write_sector(&mut self, addr: usize, block: &[u8]) -> (result: FsResult<()>)
        requires
            old(self).wf(),
            !old(self).read_only(),
            addr < old(self).disk().len(),
            block@.len() == 4096,
        ensures
            final(self).wf(),
            final(self).same_device(old(self)),
            match result {
                Ok(()) => final(self).disk() == old(self).disk().update(addr as int, block@),
                Err(e) => e.spec_kind() == ErrorKind::BlockDeviceError && !old(self).reliable(),
            },
    {
        let result = self.dev.write_block(addr, block);
        proof {
            if result is Ok {
                assert(self.dev.blocks_view() =~= old(self).dev.blocks_view().update(
                    addr as int,
                    block@,
                ));
            }
        }
        result
    }

    /// Writes the root sector.
    pub(crate) fn write_root(&mut self, root: &RootSector) -> (result: FsResult<()>)
        requires
            old(self).wf(),
            !old(self).read_only(),
        ensures
            final(self).wf(),
            final(self).same_device(old(self)),
            match result {
                Ok(()) => final(self).disk() == m_set_root(old(self).disk(), root@),
                Err(e) => e.spec_kind() == ErrorKind::BlockDeviceError && !old(self).reliable(),
            },
    {
        let block = root.encode();
        self.write_sector(0, block.as_slice())
    }

    /// Writes the table entry of a sector: the table sector is read, changed and written back.
    pub(crate) fn write_sector_meta(&mut self, addr: u64, meta: Sector) -> (result: FsResult<()>)
        requires
            old(self).wf(),
            !old(self).read_only(),
        ensures
            final(self).wf(),
            final(self).same_device(old(self)),
            performs(
                old(self).reliable(),
                final(self).disk(),
                kinded(result),
                m_set_meta(old(self).disk(), addr, meta),
            ),
    {
        proof {
            self.lemma_wf();
        }
        match self.sector_to_table_location(addr) {
            Err(e) => Err(e),
            Ok(None) => Err(
                FsError::illegal("write_sector_meta: the sector is not in the data region"),
            ),
            Ok(Some((table_addr, table_idx))) => {
                let mut block = match self.read_sector(table_addr) {
                    Ok(block) => block,
                    Err(e) => return Err(e),
                };
                meta.write_to(block.as_mut_slice(), table_idx);
                proof {
                    meta.lemma_roundtrip();
                }
                self.write_sector(table_addr, block.as_slice())
            },
        }
    }

    /// Takes a sector off the free list and gives its address. Its entry is left free and
    /// without a successor: the caller says what the sector becomes.
    pub(crate) fn allocate_sector(&mut self) -> (result: FsResult<u64>)
        requires
            old(self).wf(),
            !old(self).read_only(),
        ensures
            final(self).wf(),
            final(self).same_device(old(self)),
            performs(
                old(self).reliable(),
                final(self).disk(),
                kinded(result),
                m_alloc(old(self).disk()),
            ),
    {
        proof {
            reveal(m_alloc);
        }
        let mut root = match self.root_sector() {
            Ok(root) => root,
            Err(e) => return Err(e),
        };
        let addr = root.free;
        let next = match self.next_sector(addr) {
            Err(e) => return Err(e),
            Ok(None) => return Err(FsError::NotEnoughSpace),
            Ok(Some(next)) => next,
        };
        root.free = next;
        match self.write_root(&root) {
            Err(e) => return Err(e),
            Ok(()) => {},
        }
        match self.write_sector_meta(
            addr,
            Sector { sector_type: SectorType::Free, size: 0, next: 0 },
        ) {
            Err(e) => Err(e),
            Ok(()) => Ok(addr),
        }
    }

    /// Gives the chain that begins at `addr` back to the free list: each of its sectors is
    /// marked free, the old free list is put behind its last sector, and the free list then
    /// begins at `addr`.
    pub(crate) fn free_sectors(&mut self, addr: u64) -> (result: FsResult<()>)
        requires
            old(self).wf(),
            !old(self).read_only(),
        ensures
            final(self).wf(),
            final(self).same_device(old(self)),
            performs(
                old(self).reliable(),
                final(self).disk(),
                kinded(result),
                m_free_chain(old(self).disk(), addr),
            ),
    {
        proof {
            self.lemma_wf();
            reveal(m_free_chain);
        }
        let mut root = match self.root_sector() {
            Ok(root) => root,
            Err(e) => return Err(e),
        };
        let limit = self.dev.blocks();
        let mut steps: usize = 0;
        let mut end_addr = addr;
        loop
            invariant_except_break
                m_mark_free(old(self).disk(), addr, limit as nat) == m_mark_free(
                    self.disk(),
                    end_addr,
                    (limit - steps) as nat,
                ),
            invariant
                self.wf(),
                self.same_device(old(self)),
                !self.read_only(),
                steps <= limit,
                limit == old(self).disk().len(),
                m_root(old(self).disk()) == Ok::<RootView, ErrorKind>(root@),
            ensures
                self.wf(),
                self.same_device(old(self)),
                !self.read_only(),
                m_mark_free(old(self).disk(), addr, limit as nat) == (self.disk(), Ok::<u64, ErrorKind>(end_addr)),
            decreases limit - steps,
        {
            proof {
                reveal(m_mark_free);
                reveal(m_free_chain);
            }
            let meta = match self.read_sector_meta(end_addr) {
                Ok(meta) => meta,
                Err(e) => return Err(e),
            };
            match self.write_sector_meta(
                end_addr,
                Sector { sector_type: SectorType::Free, size: 0, next: meta.next },
            ) {
                Ok(()) => {},
                Err(e) => return Err(e),
            }
            if meta.next == 0 {
                break;
            }
            if steps == limit {
                return Err(FsError::internal("free_sectors: the chain runs in a circle"));
            }
            end_addr = meta.next;
            steps += 1;
        }
        match self.write_sector_meta(
            end_addr,
            Sector { sector_type: SectorType::Free, size: 0, next: root.free },
        ) {
            Ok(()) => {},
            Err(e) => return Err(e),
        }
        root.free = addr;
        self.write_root(&root)
    }
}

/// The largest number of sectors that a volume can be formatted with.
pub const MAX_SECTORS: u64 = 0x7fff_ffff_ffff_ffff;

/// Whether a device can be formatted: it takes writes, its blocks have 4096 bytes, and it
/// has at least 8 of them.
pub open spec fn can_format<B: BlockDevice>(dev: &B) -> bool {
    &&& !dev.spec_read_only()
    &&& dev.spec_block_size() == 4096
    &&& 8 <= dev.blocks_view().len() <= MAX_SECTORS
}

/// Whether a device can hold a volume at all: its blocks have 4096 bytes, and it has one.
pub open spec fn can_mount<B: BlockDevice>(dev: &B) -> bool {
    &&& dev.spec_block_size() == 4096
    &&& 1 <= dev.blocks_view().len()
}

/// Whether `result` is what taking a device that may hold a volume gives. A volume is found
/// where the device can hold one and its root sector has the shape of a formatted volume:
/// the volume is then on that device as it is. Otherwise the device comes back, and so it
/// does where the device fails to read.
pub open spec fn mounted<B: RWBlockDevice>(dev: &B, result: Result<FFAT<B>, B>) -> bool {
    match result {
        Ok(fs) => fs.wf() && fs.disk() == dev.blocks_view() && fs.reliable() == dev.reliable()
            && fs.read_only() == dev.spec_read_only() && can_mount(dev) && m_root(
            dev.blocks_view(),
        ) is Ok,
        Err(back) => back == *dev && (!can_mount(dev) || m_root(dev.blocks_view()) is Err
            || !dev.reliable()),
    }
}

/// Whether `result` is what writing an empty volume onto a device gives. A device that
/// can be formatted holds afterwards the fresh volume, which is sound, can be mounted, and
/// has a root directory without entries. One that cannot be
/// formatted comes back as it is; one that fails to read or write comes back with what was
/// written before.
pub open spec fn formatted<B: RWBlockDevice>(dev: &B, result: Result<FFAT<B>, B>) -> bool {
    match result {
        Ok(fs) => fs.wf() && can_format(dev) && fs.reliable() == dev.reliable()
            && !fs.read_only() && m_format(dev.blocks_view()) == (
            fs.disk(),
            Ok::<(), ErrorKind>(()),
        ) && m_root(fs.disk()) is Ok && crate::ffat::model::m_read_dir(fs.disk(), Seq::empty())
            == Ok::<Seq<Seq<u8>>, ErrorKind>(Seq::empty()) && crate::ffat::sound::sound(
            fs.disk(),
            crate::ffat::sound::fresh_layout(dev.blocks_view().len()),
        ),
        Err(back) => back.dev_wf() && (if can_format(dev) {
            !dev.reliable()
        } else {
            back == *dev
        }),
    }
}

/// The table entry of sector `i` on a freshly formatted volume of `sectors` sectors.
fn fresh_entry(sectors: u64, i: u64) -> (entry: Sector)
    requires
        sectors <= MAX_SECTORS,
    ensures
        entry == format_entry(sectors as nat, i as nat),
{
    let table = sectors / 128 + (if sectors % 128 == 0 {
        0
    } else {
        1
    });
    assert(table == table_sectors(sectors as nat));
    if i <= table || i >= sectors {
        Sector { sector_type: SectorType::Reserved, size: 0, next: 0 }
    } else if i == table + 1 {
        Sector { sector_type: SectorType::Dir, size: 0, next: 0 }
    } else {
        Sector {
            sector_type: SectorType::Free,
            size: 0,
            next: if i + 1 == sectors {
                0
            } else {
                i + 1
            },
        }
    }
}

/// Table sector `k` of a freshly formatted volume of `sectors` sectors.
fn fresh_table_block(sectors: u64, k: u64) -> (block: Vec<u8>)
    requires
        sectors <= MAX_SECTORS,
        k <= table_sectors(sectors as nat),
    ensures
        block@ == format_table_block(sectors as nat, k as nat),
        block@.len() == 4096,
{
    let mut block: Vec<u8> = vec![0u8; 4096];
    let mut j: usize = 0;
    while j < 128
        invariant
            j <= 128,
            sectors <= MAX_SECTORS,
            k <= table_sectors(sectors as nat),
            block@.len() == 4096,
            forall|b: int|
                0 <= b < 32 * j ==> #[trigger] block@[b] == format_entry(
                    sectors as nat,
                    (k * 128 + b / 32) as nat,
                ).spec_encode()[b % 32],
        decreases 128 - j,
    {
        let entry = fresh_entry(sectors, k * 128 + j as u64);
        proof {
            entry.lemma_roundtrip();
        }
        let ghost before = block@;
        entry.write_to(block.as_mut_slice(), j);
        proof {
            assert forall|b: int| 0 <= b < 32 * (j + 1) implies #[trigger] block@[b] == format_entry(
                sectors as nat,
                (k * 128 + b / 32) as nat,
            ).spec_encode()[b % 32] by {
                if b >= 32 * j {
                    assert(b / 32 == j);
                    assert(b % 32 == b - 32 * j);
                } else {
                    assert(block@[b] == before[b]);
                }
            }
        }
        j += 1;
    }
    assert(block@ =~= format_table_block(sectors as nat, k as nat));
    block
}

impl<B: RWBlockDevice> FFAT<B> {
    /// The name of the format.
    pub fn name() -> (name: &'static str)
        ensures
            name@ == "FFAT"@,
    {
        "FFAT"
    }

    /// Takes a device that holds a volume. The device comes back where it cannot hold one,
    /// or where its root sector does not have the shape of a formatted volume.
    pub fn mount(dev: B) -> (result: Result<Self, B>)
        requires
            dev.dev_wf(),
        ensures
            mounted(&dev, result),
    {
        if dev.block_size() != 4096 || dev.blocks() < 1 {
            return Err(dev);
        }
        let fs = FFAT { dev };
        match fs.root_sector() {
            Ok(_) => Ok(fs),
            Err(_) => Err(fs.dev),
        }
    }

    /// Writes an empty volume onto a device: the root sector, the allocation table with all
    /// sectors behind the root directory on the free list, and a root directory without
    /// entries. The device comes back where it cannot be formatted.
    pub fn format(dev: B) -> (result: Result<Self, B>)
        requires
            dev.dev_wf(),
        ensures
            formatted(&dev, result),
    {
        proof {
            dev.lemma_dev_wf();
            reveal(m_format);
            if can_format(&dev) {
                crate::ffat::laws::law_format_gives_empty_root(dev.blocks_view());
                crate::ffat::sound::law_format_sound(dev.blocks_view());
            }
        }
        if dev.is_read_only() || dev.block_size() != 4096 {
            return Err(dev);
        }
        let blocks = dev.blocks();
        if blocks < 8 || blocks as u64 > MAX_SECTORS {
            return Err(dev);
        }
        let sectors = blocks as u64;
        let table = sectors / 128 + (if sectors % 128 == 0 {
            0
        } else {
            1
        });
        assert(table == table_sectors(sectors as nat));
        let ghost d0 = dev.blocks_view();
        let mut fs = FFAT { dev };
        let mut k: u64 = 0;
        while k < table
            invariant
                fs.wf(),
                !fs.read_only(),
                fs.reliable() == dev.reliable(),
                can_format(&dev),
                k <= table,
                table == table_sectors(sectors as nat),
                8 <= sectors <= MAX_SECTORS,
                sectors == d0.len(),
                d0.len() <= usize::MAX,
                fs.disk().len() == d0.len(),
                forall|i: int|
                    0 <= i < d0.len() ==> #[trigger] fs.disk()[i] == (if 1 <= i <= k {
                        format_table_block(sectors as nat, (i - 1) as nat)
                    } else {
                        d0[i]
                    }),
            decreases table - k,
        {
            let block = fresh_table_block(sectors, k);
            assert(1 + k < sectors);
            let at = (1 + k) as usize;
            match fs.write_sector(at, block.as_slice()) {
                Ok(()) => {},
                Err(_) => return Err(fs.dev),
            }
            k += 1;
        }
        let root_sector = RootSector {
            name: [88u8; 64],
            table_begin: 1,
            sectors,
            root: table + 1,
            free: table + 2,
        };
        assert(root_sector.name@ =~= Seq::new(64, |k: int| 88u8));
        assert(root_sector@ == format_root(sectors as nat));
        match fs.write_root(&root_sector) {
            Ok(()) => {},
            Err(_) => return Err(fs.dev),
        }
        assert(fs.disk() =~= format_base(d0));
        let empty: DirData = Vec::new();
        assert(entries_view(empty@) =~= Seq::<(u64, Seq<u8>)>::empty());
        match fs.write_dir_at_addr(root_sector.root, &empty) {
            Ok(()) => Ok(fs),
            Err(_) => Err(fs.dev),
        }
    }
}

} // verus!
