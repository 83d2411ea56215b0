use vstd::prelude::*;
use crate::ffat::layout::{
    get_u64, le_bytes, le_value, lemma_le_roundtrip, put_bytes, put_u64, splice, zeros,
};

verus! {

/// Size of a sector in bytes.
pub const BLOCK_SIZE: usize = 4096;

/// Size of an allocation table entry in bytes.
pub const ENTRY_SIZE: usize = 32;

/// Number of entries in one sector of the allocation table.
pub const FAT_ENTRIES_PER_SECTOR: usize = 128;

/// Size of the volume name in bytes.
pub const NAME_SIZE: usize = 64;

/// What a sector is used for.
#[derive(Copy, Clone, Debug, PartialEq, Eq, Structural)]
pub enum SectorType {
    /// Unused sector.
    Free,
    /// Reserved for special purposes, such as the allocation table.
    Reserved,
    /// Part of a file or directory, but not its first sector.
    Data,
    /// First sector of a file.
    File,
    /// First sector of a directory.
    Dir,
}

impl SectorType {
    /// The byte that stands for the type on disk.
    pub open spec fn spec_to_byte(self) -> u8 {
        match self {
            SectorType::Free => 0,
            SectorType::Reserved => 1,
            SectorType::Data => 2,
            SectorType::File => 3,
            SectorType::Dir => 4,
        }
    }

    /// The type that a byte on disk stands for. A byte that stands for none counts as
    /// reserved, so that nothing is ever built on such a sector.
    pub open spec fn spec_from_byte(byte: u8) -> SectorType {
        if byte == 0 {
            SectorType::Free
        } else if byte == 2 {
            SectorType::Data
        } else if byte == 3 {
            SectorType::File
        } else if byte == 4 {
            SectorType::Dir
        } else {
            SectorType::Reserved
        }
    }

    /// The byte that stands for the type on disk.
    pub fn to_byte(self) -> (byte: u8)
        ensures
            byte == self.spec_to_byte(),
            SectorType::spec_from_byte(byte) == self,
    {
        match self {
            SectorType::Free => 0,
            SectorType::Reserved => 1,
            SectorType::Data => 2,
            SectorType::File => 3,
            SectorType::Dir => 4,
        }
    }

    /// The type that a byte on disk stands for.
    pub fn from_byte(byte: u8) -> (kind: SectorType)
        ensures
            kind == SectorType::spec_from_byte(byte),
    {
        if byte == 0 {
            SectorType::Free
        } else if byte == 2 {
            SectorType::Data
        } else if byte == 3 {
            SectorType::File
        } else if byte == 4 {
            SectorType::Dir
        } else {
            SectorType::Reserved
        }
    }
}

impl Default for SectorType {
    fn default() -> (kind: Self)
        ensures
            kind == SectorType::Reserved,
    {
        SectorType::Reserved
    }
}

/// An entry of the allocation table: what one sector of the volume is used for.
#[derive(Copy, Clone, Debug, PartialEq, Eq, Structural)]
pub struct Sector {
    /// What the sector is used for.
    pub sector_type: SectorType,
    /// Number of payload bytes of the file or directory; zero unless this is its first sector.
    pub size: u64,
    /// Address of the next sector in the chain; zero at its end.
    pub next: u64,
}

impl Default for Sector {
    fn default() -> (entry: Self)
        ensures
            entry == (Sector { sector_type: SectorType::Reserved, size: 0, next: 0 }),
    {
        Sector { sector_type: SectorType::Reserved, size: 0, next: 0 }
    }
}

impl Sector {
    /// The 32 bytes of the entry on disk: the type, seven bytes of padding, the size and the
    /// next address, both least significant byte first, and eight reserved bytes.
    pub open spec fn spec_encode(self) -> Seq<u8> {
        seq![self.sector_type.spec_to_byte()] + zeros(7) + le_bytes(self.size) + le_bytes(self.next)
            + zeros(8)
    }

    /// The entry that 32 bytes on disk hold.
    pub open spec fn spec_decode(bytes: Seq<u8>) -> Sector {
        Sector {
            sector_type: SectorType::spec_from_byte(bytes[0]),
            size: le_value(bytes.subrange(8, 16)),
            next: le_value(bytes.subrange(16, 24)),
        }
    }

    /// An entry takes 32 bytes, and reading what was written gives the entry.
    pub proof fn lemma_roundtrip(self)
        ensures
            self.spec_encode().len() == 32,
            Sector::spec_decode(self.spec_encode()) == self,
    {
        lemma_le_roundtrip();
        let bytes = self.spec_encode();
        assert(bytes.subrange(8, 16) =~= le_bytes(self.size));
        assert(bytes.subrange(16, 24) =~= le_bytes(self.next));
        assert(bytes[0] == self.sector_type.spec_to_byte());
    }

    /// The 32 bytes of the entry on disk.
    pub fn encode(&self) -> (bytes: Vec<u8>)
        ensures
            bytes@ == self.spec_encode(),
            bytes@.len() == 32,
    {
        proof {
            lemma_le_roundtrip();
        }
        let mut bytes: Vec<u8> = vec![0u8; 32];
        bytes[0] = self.sector_type.to_byte();
        put_u64(bytes.as_mut_slice(), 8, self.size);
        put_u64(bytes.as_mut_slice(), 16, self.next);
        assert(bytes@ =~= self.spec_encode());
        bytes
    }

    /// Reads entry `index` of a table sector.
    pub fn read_from(block: &[u8], index: usize) -> (entry: Sector)
        requires
            32 * index + 32 <= block@.len(),
        ensures
            entry == Sector::spec_decode(block@.subrange(32 * index, 32 * index + 32)),
    {
        let len = block.len();
        let offset = ENTRY_SIZE * index;
        let ghost part = block@.subrange(32 * index, 32 * index + 32);
        assert(part.subrange(8, 16) =~= block@.subrange(offset + 8, offset + 16));
        assert(part.subrange(16, 24) =~= block@.subrange(offset + 16, offset + 24));
        Sector {
            sector_type: SectorType::from_byte(block[offset]),
            size: get_u64(block, offset + 8),
            next: get_u64(block, offset + 16),
        }
    }

    /// Writes the entry as entry `index` of a table sector. The other entries keep their bytes.
    pub fn write_to(&self, block: &mut [u8], index: usize)
        requires
            32 * index + 32 <= old(block)@.len(),
        ensures
            final(block)@ == splice(old(block)@, 32 * index, self.spec_encode()),
    {
        let len = block.len();
        let bytes = self.encode();
        put_bytes(block, ENTRY_SIZE * index, bytes.as_slice());
    }
}

/// The entry that a table sector holds at `index`.
pub open spec fn entry_in(block: Seq<u8>, index: int) -> Sector {
    Sector::spec_decode(block.subrange(32 * index, 32 * index + 32))
}

/// Writing an entry into a table sector changes that entry and no other.
pub proof fn lemma_entry_in_splice(block: Seq<u8>, index: int, entry: Sector, other: int)
    requires
        0 <= index,
        32 * index + 32 <= block.len(),
        0 <= other,
        32 * other + 32 <= block.len(),
    ensures
        splice(block, 32 * index, entry.spec_encode()).len() == block.len(),
        entry_in(splice(block, 32 * index, entry.spec_encode()), other) == (if other == index {
            entry
        } else {
            entry_in(block, other)
        }),
{
    entry.lemma_roundtrip();
    crate::ffat::layout::lemma_splice(block, 32 * index, entry.spec_encode());
    if other == index {
    } else {
        assert(32 * other + 32 <= 32 * index || 32 * index + 32 <= 32 * other);
    }
}

/// A sector of the allocation table: the table entries of 128 sectors of the volume.
pub struct AllocationTable {
    /// The 128 entries, in the order of the sectors that they belong to.
    pub entries: Vec<Sector>,
}

impl AllocationTable {
    /// The invariant: a table sector has 128 entries.
    pub open spec fn wf(&self) -> bool {
        self.entries@.len() == 128
    }

    /// The 4096 bytes of the table sector on disk: the entries one after the other.
    pub open spec fn spec_encode(entries: Seq<Sector>) -> Seq<u8> {
        Seq::new(4096, |b: int| entries[b / 32].spec_encode()[b % 32])
    }

    /// The entries that the 4096 bytes of a table sector hold.
    pub open spec fn spec_decode(block: Seq<u8>) -> Seq<Sector> {
        Seq::new(128, |i: int| entry_in(block, i))
    }

    /// Reading the entries of a table sector that was written gives the entries.
    pub proof fn lemma_roundtrip(entries: Seq<Sector>)
        requires
            entries.len() == 128,
        ensures
            AllocationTable::spec_decode(AllocationTable::spec_encode(entries)) == entries,
    {
        let block = AllocationTable::spec_encode(entries);
        assert forall|i: int| 0 <= i < 128 implies #[trigger] entry_in(block, i) == entries[i] by {
            entries[i].lemma_roundtrip();
            assert(block.subrange(32 * i, 32 * i + 32) =~= entries[i].spec_encode()) by {
                assert forall|b: int| 0 <= b < 32 implies block.subrange(32 * i, 32 * i + 32)[b]
                    == entries[i].spec_encode()[b] by {
                    assert((32 * i + b) / 32 == i);
                    assert((32 * i + b) % 32 == b);
                }
            }
        }
        assert(AllocationTable::spec_decode(block) =~= entries);
    }

    /// The table sector that a block holds.
    pub fn decode(block: &[u8]) -> (table: AllocationTable)
        requires
            block@.len() == 4096,
        ensures
            table.wf(),
            table.entries@ == AllocationTable::spec_decode(block@),
    {
        let mut entries: Vec<Sector> = Vec::with_capacity(128);
        let mut i: usize = 0;
        while i < 128
            invariant
                i <= 128,
                block@.len() == 4096,
                entries@.len() == i,
                forall|k: int| 0 <= k < i ==> entries@[k] == entry_in(block@, k),
            decreases 128 - i,
        {
            entries.push(Sector::read_from(block, i));
            i += 1;
        }
        assert(entries@ =~= AllocationTable::spec_decode(block@));
        AllocationTable { entries }
    }

    /// The 4096 bytes of the table sector on disk.
    pub fn encode(&self) -> (block: Vec<u8>)
        requires
            self.wf(),
        ensures
            block@ == AllocationTable::spec_encode(self.entries@),
            block@.len() == 4096,
    {
        let mut block: Vec<u8> = vec![0u8; 4096];
        let mut i: usize = 0;
        while i < 128
            invariant
                i <= 128,
                self.wf(),
                block@.len() == 4096,
                forall|b: int|
                    0 <= b < 32 * i ==> #[trigger] block@[b] == self.entries@[b / 32].spec_encode()[b
                        % 32],
            decreases 128 - i,
        {
            let entry = self.entries[i];
            proof {
                entry.lemma_roundtrip();
            }
            let ghost before = block@;
            entry.write_to(block.as_mut_slice(), i);
            proof {
                assert forall|b: int| 0 <= b < 32 * (i + 1) implies #[trigger] block@[b]
                    == self.entries@[b / 32].spec_encode()[b % 32] by {
                    if b >= 32 * i {
                        assert(b / 32 == i);
                        assert(b % 32 == b - 32 * i);
                    } else {
                        assert(block@[b] == before[b]);
                    }
                }
            }
            i += 1;
        }
        assert(block@ =~= AllocationTable::spec_encode(self.entries@));
        block
    }
}

impl Default for AllocationTable {
    /// A table sector whose entries are all reserved.
    fn default() -> (table: Self)
        ensures
            table.wf(),
            forall|i: int|
                0 <= i < 128 ==> #[trigger] table.entries@[i] == (Sector {
                    sector_type: SectorType::Reserved,
                    size: 0,
                    next: 0,
                }),
    {
        let mut entries: Vec<Sector> = Vec::with_capacity(128);
        let mut i: usize = 0;
        while i < 128
            invariant
                i <= 128,
                entries@.len() == i,
                forall|k: int|
                    0 <= k < i ==> #[trigger] entries@[k] == (Sector {
                        sector_type: SectorType::Reserved,
                        size: 0,
                        next: 0,
                    }),
            decreases 128 - i,
        {
            entries.push(Sector { sector_type: SectorType::Reserved, size: 0, next: 0 });
            i += 1;
        }
        AllocationTable { entries }
    }
}

/// The first sector of a volume, as a value.
pub struct RootView {
    pub name: Seq<u8>,
    pub table_begin: u64,
    pub sectors: u64,
    pub root: u64,
    pub free: u64,
}

/// The first sector of a volume.
pub struct RootSector {
    /// Name of the volume.
    pub name: [u8; 64],
    /// Address of the first sector of the allocation table.
    pub table_begin: u64,
    /// Number of sectors of the volume.
    pub sectors: u64,
    /// Address of the first sector of the root directory.
    pub root: u64,
    /// Address of the first sector of the free list; zero when there is none.
    pub free: u64,
}

impl View for RootSector {
    type V = RootView;

    open spec fn view(&self) -> RootView {
        RootView {
            name: self.name@,
            table_begin: self.table_begin,
            sectors: self.sectors,
            root: self.root,
            free: self.free,
        }
    }
}

impl Default for RootSector {
    fn default() -> (root: Self)
        ensures
            root@ == (RootView {
                name: Seq::new(64, |k: int| 48u8),
                table_begin: 1,
                sectors: 0,
                root: 0,
                free: 0,
            }),
    {
        let root = RootSector { name: [48u8; 64], table_begin: 1, sectors: 0, root: 0, free: 0 };
        assert(root.name@ =~= Seq::new(64, |k: int| 48u8));
        root
    }
}

/// The number of table sectors that a volume of `sectors` sectors needs: one for every 128
/// sectors, rounded up.
pub open spec fn table_sectors(sectors: nat) -> nat {
    (sectors + 127) / 128
}

impl RootView {
    /// The 4096 bytes of the root sector on disk: the name, then the four numbers, least
    /// significant byte first, then reserved bytes.
    pub open spec fn spec_encode(self) -> Seq<u8> {
        self.name + le_bytes(self.table_begin) + le_bytes(self.sectors) + le_bytes(self.root)
            + le_bytes(self.free) + zeros(4000)
    }

    /// The root sector that 4096 bytes on disk hold.
    pub open spec fn spec_decode(bytes: Seq<u8>) -> RootView {
        RootView {
            name: bytes.subrange(0, 64),
            table_begin: le_value(bytes.subrange(64, 72)),
            sectors: le_value(bytes.subrange(72, 80)),
            root: le_value(bytes.subrange(80, 88)),
            free: le_value(bytes.subrange(88, 96)),
        }
    }

    /// Whether the root sector has the shape of a formatted volume on a device of `blocks`
    /// blocks: the table begins at sector 1, the volume fits the device, and the root
    /// directory is the first sector after the table.
    pub open spec fn valid(self, blocks: nat) -> bool {
        &&& self.table_begin == 1
        &&& self.sectors <= blocks
        &&& self.root == table_sectors(self.sectors as nat) + 1
        &&& self.root < self.sectors
    }

    /// Where the allocation table holds the entry of a sector: the address of the table
    /// sector and the index in it. Sectors before the root directory and sectors beyond the
    /// volume have no entry that may be used.
    pub open spec fn locate(self, sector: u64) -> Option<(nat, nat)> {
        if sector < self.root || sector >= self.sectors {
            None
        } else {
            Some(((sector / 128 + self.table_begin) as nat, (sector % 128) as nat))
        }
    }

    /// A root sector takes 4096 bytes, and reading what was written gives the root sector.
    pub proof fn lemma_roundtrip(self)
        requires
            self.name.len() == 64,
        ensures
            self.spec_encode().len() == 4096,
            RootView::spec_decode(self.spec_encode()) == self,
    {
        lemma_le_roundtrip();
        let bytes = self.spec_encode();
        assert(bytes.subrange(0, 64) =~= self.name);
        assert(bytes.subrange(64, 72) =~= le_bytes(self.table_begin));
        assert(bytes.subrange(72, 80) =~= le_bytes(self.sectors));
        assert(bytes.subrange(80, 88) =~= le_bytes(self.root));
        assert(bytes.subrange(88, 96) =~= le_bytes(self.free));
    }

    /// In a valid root sector every sector with an entry has it in a table sector that lies
    /// before the root directory, and so on the device.
    pub proof fn lemma_locate_in_table(self, blocks: nat, sector: u64)
        requires
            self.valid(blocks),
            self.locate(sector) is Some,
        ensures
            1 <= self.locate(sector).unwrap().0 < self.root,
            self.locate(sector).unwrap().0 < blocks,
            self.locate(sector).unwrap().1 < 128,
            self.locate(sector).unwrap().0 == sector / 128 + 1,
            self.locate(sector).unwrap().1 == sector % 128,
    {
    }
}

impl RootSector {
    /// The 4096 bytes of the root sector on disk.
    pub fn encode(&self) -> (bytes: Vec<u8>)
        ensures
            bytes@ == self@.spec_encode(),
            bytes@.len() == 4096,
    {
        proof {
            lemma_le_roundtrip();
        }
        let mut bytes: Vec<u8> = vec![0u8; 4096];
        put_bytes(bytes.as_mut_slice(), 0, self.name.as_slice());
        put_u64(bytes.as_mut_slice(), 64, self.table_begin);
        put_u64(bytes.as_mut_slice(), 72, self.sectors);
        put_u64(bytes.as_mut_slice(), 80, self.root);
        put_u64(bytes.as_mut_slice(), 88, self.free);
        assert(bytes@ =~= self@.spec_encode());
        bytes
    }

    /// The root sector that a block holds.
    pub fn decode(block: &[u8]) -> (root: RootSector)
        requires
            block@.len() == 4096,
        ensures
            root@ == RootView::spec_decode(block@),
    {
        let mut name = [0u8; 64];
        let mut i: usize = 0;
        while i < 64
            invariant
                i <= 64,
                block@.len() == 4096,
                forall|k: int| 0 <= k < i ==> name@[k] == block@[k],
            decreases 64 - i,
        {
            name[i] = block[i];
            i += 1;
        }
        assert(name@ =~= block@.subrange(0, 64));
        RootSector {
            name,
            table_begin: get_u64(block, 64),
            sectors: get_u64(block, 72),
            root: get_u64(block, 80),
            free: get_u64(block, 88),
        }
    }

    /// Whether the root sector has the shape of a formatted volume on a device of `blocks`
    /// blocks.
    pub fn is_valid(&self, blocks: usize) -> (ok: bool)
        ensures
            ok == self@.valid(blocks as nat),
    {
        if self.table_begin != 1 || self.sectors > blocks as u64 {
            return false;
        }
        let table = (self.sectors / 128) + (if self.sectors % 128 == 0 { 0 } else { 1 });
        assert(table == table_sectors(self.sectors as nat));
        self.root == table + 1 && self.root < self.sectors
    }

    /// Where the allocation table holds the entry of a sector.
    pub fn locate(&self, sector: u64) -> (place: Option<(usize, usize)>)
        requires
            self.table_begin == 1,
            self.sectors <= usize::MAX,
        ensures
            place matches Some(p) ==> self@.locate(sector) == Some((p.0 as nat, p.1 as nat)),
            place is None ==> self@.locate(sector) is None,
    {
        if sector < self.root || sector >= self.sectors {
            None
        } else {
            Some(((sector / 128 + self.table_begin) as usize, (sector % 128) as usize))
        }
    }
}

/// Position in an open file.
#[derive(Copy, Clone, Debug, PartialEq, Eq, Structural)]
pub struct FileProgress {
    /// First sector of the file, which holds its size.
    pub head: u64,
    /// Sector that is read or written next; zero once the chain has ended.
    pub sector: u64,
    /// Number of bytes between the start of the file and the position.
    pub byte_offset: u64,
}

impl FileProgress {
    /// Number of bytes between the start of the current sector and the position.
    pub fn current_bytes_processed(&self) -> (n: usize)
        ensures
            n == self.byte_offset % 4096,
    {
        (self.byte_offset % 4096) as usize
    }
}

/// Position in a file opened for reading, and the size that the file had when it was opened.
#[derive(Copy, Clone, Debug, PartialEq, Eq, Structural)]
pub struct ReadProgress(pub FileProgress, pub u64);

/// Position in a file opened for writing.
#[derive(Copy, Clone, Debug, PartialEq, Eq, Structural)]
pub struct WriteProgress(pub FileProgress);

} // verus!
