use vstd::prelude::*;
use crate::error::{ErrorKind, FsResult};
use crate::ffat::dir::{encodable, names_of, position, spec_decode_dir, spec_encode_dir};
use crate::ffat::layout::splice;
use crate::ffat::structs::{
    entry_in, table_sectors, FileProgress, ReadProgress, RootView, Sector, SectorType,
    WriteProgress,
};

verus! {

/// The contents of a volume: its sectors, in address order.
pub type Disk = Seq<Seq<u8>>;

/// What an operation of the model gives.
pub type Answer<T> = Result<T, ErrorKind>;

/// A result without the detail text of its error.
pub open spec fn kinded<T>(result: FsResult<T>) -> Answer<T> {
    crate::filesystem::answer_of(result)
}

/// Whether the result of an operation that only reads is the one that the model gives. On a
/// device that may fault, a device error is the other way to end.
pub open spec fn answers<T>(reliable: bool, result: Answer<T>, model: Answer<T>) -> bool {
    result == model || (!reliable && result == Err::<T, ErrorKind>(ErrorKind::BlockDeviceError))
}

/// Whether an operation that writes left the volume and gave the result that the model
/// gives. On a device that may fault, a device error is the other way to end, and then the
/// volume is left in the middle of the operation.
pub open spec fn performs<T>(reliable: bool, after: Disk, result: Answer<T>, model: (Disk, Answer<T>)) -> bool {
    (after == model.0 && result == model.1) || (!reliable && result == Err::<T, ErrorKind>(
        ErrorKind::BlockDeviceError,
    ))
}

/// A volume that can hold a root sector: at least one sector, and each of 4096 bytes.
pub open spec fn disk_wf(d: Disk) -> bool {
    &&& 1 <= d.len() <= usize::MAX
    &&& forall|i: int| 0 <= i < d.len() ==> (#[trigger] d[i]).len() == 4096
}

/// The root sector of the volume, if it has the shape of a formatted volume.
pub open spec fn m_root(d: Disk) -> Answer<RootView> {
    let root = RootView::spec_decode(d[0]);
    if root.valid(d.len()) {
        Ok(root)
    } else {
        Err(ErrorKind::InvalidSuperBlock)
    }
}

/// The volume with another root sector.
pub open spec fn m_set_root(d: Disk, root: RootView) -> Disk {
    d.update(0, root.spec_encode())
}

/// Where the allocation table holds the entry of a sector.
pub open spec fn m_locate(d: Disk, addr: u64) -> Answer<Option<(nat, nat)>> {
    match m_root(d) {
        Ok(root) => Ok(root.locate(addr)),
        Err(e) => Err(e),
    }
}

/// The table entry of a sector. A sector outside the data region has none to read.
pub open spec fn m_meta(d: Disk, addr: u64) -> Answer<Sector> {
    match m_locate(d, addr) {
        Ok(Some(place)) => Ok(entry_in(d[place.0 as int], place.1 as int)),
        Ok(None) => Err(ErrorKind::IllegalOperation),
        Err(e) => Err(e),
    }
}

/// The volume with another table entry for a sector.
pub open spec fn m_set_meta(d: Disk, addr: u64, entry: Sector) -> (Disk, Answer<()>) {
    match m_locate(d, addr) {
        Ok(Some(place)) => (
            d.update(
                place.0 as int,
                splice(d[place.0 as int], 32 * (place.1 as int), entry.spec_encode()),
            ),
            Ok(()),
        ),
        Ok(None) => (d, Err(ErrorKind::IllegalOperation)),
        Err(e) => (d, Err(e)),
    }
}

/// The sector that follows a sector in its chain, if any.
pub open spec fn m_next(d: Disk, addr: u64) -> Answer<Option<u64>> {
    match m_meta(d, addr) {
        Ok(entry) => Ok(
            if entry.next == 0 {
                None
            } else {
                Some(entry.next)
            },
        ),
        Err(e) => Err(e),
    }
}

/// A free entry without a successor.
pub open spec fn blank_entry() -> Sector {
    Sector { sector_type: SectorType::Free, size: 0, next: 0 }
}

/// Takes the first sector off the free list. The last sector of the list is never handed
/// out: a list of one sector counts as exhausted.
#[verifier::opaque]
pub open spec fn m_alloc(d: Disk) -> (Disk, Answer<u64>) {
    match m_root(d) {
        Err(e) => (d, Err(e)),
        Ok(root) => match m_next(d, root.free) {
            Err(e) => (d, Err(e)),
            Ok(None) => (d, Err(ErrorKind::NotEnoughSpace)),
            Ok(Some(next)) => {
                let d1 = m_set_root(d, RootView { free: next, ..root });
                let (d2, r2) = m_set_meta(d1, root.free, blank_entry());
                match r2 {
                    Ok(()) => (d2, Ok(root.free)),
                    Err(e) => (d2, Err(e)),
                }
            },
        },
    }
}

/// Marks the sectors of a chain as free, one after the other, and gives the last of them.
/// `fuel` bounds the number of steps: a chain that has not ended by then runs in a circle.
#[verifier::opaque]
pub open spec fn m_mark_free(d: Disk, addr: u64, fuel: nat) -> (Disk, Answer<u64>)
    decreases fuel,
{
    match m_meta(d, addr) {
        Err(e) => (d, Err(e)),
        Ok(entry) => {
            let (d1, r1) = m_set_meta(
                d,
                addr,
                Sector { sector_type: SectorType::Free, size: 0, next: entry.next },
            );
            match r1 {
                Err(e) => (d1, Err(e)),
                Ok(()) => if entry.next == 0 {
                    (d1, Ok(addr))
                } else if fuel == 0 {
                    (d1, Err(ErrorKind::InternalError))
                } else {
                    m_mark_free(d1, entry.next, (fuel - 1) as nat)
                },
            }
        },
    }
}

/// Gives a chain back: its sectors become free, the old free list follows its last sector,
/// and the free list begins at its first sector.
#[verifier::opaque]
pub open spec fn m_free_chain(d: Disk, addr: u64) -> (Disk, Answer<()>) {
    match m_root(d) {
        Err(e) => (d, Err(e)),
        Ok(root) => {
            let (d1, r1) = m_mark_free(d, addr, d.len());
            match r1 {
                Err(e) => (d1, Err(e)),
                Ok(end) => {
                    let (d2, r2) = m_set_meta(
                        d1,
                        end,
                        Sector { sector_type: SectorType::Free, size: 0, next: root.free },
                    );
                    match r2 {
                        Err(e) => (d2, Err(e)),
                        Ok(()) => (m_set_root(d2, RootView { free: addr, ..root }), Ok(())),
                    }
                },
            }
        },
    }
}

/// The entries of a directory as the model has them.
pub type Entries = Seq<(u64, Seq<u8>)>;

/// The number of sectors that `len` bytes take.
pub open spec fn chunk_count(len: nat) -> nat {
    (len + 4095) / 4096
}

/// Sector `i` of a payload: its bytes from `4096 * i` on, and zeros where it has ended.
pub open spec fn chunk(bytes: Seq<u8>, i: int) -> Seq<u8> {
    Seq::new(
        4096,
        |k: int|
            if 4096 * i + k < bytes.len() {
                bytes[4096 * i + k]
            } else {
                0u8
            },
    )
}

/// The contents of the first `n` sectors of a chain, appended to `acc`. The chain has to
/// have that many sectors.
#[verifier::opaque]
pub open spec fn m_read_chain(d: Disk, addr: u64, n: nat, acc: Seq<u8>) -> Answer<Seq<u8>>
    decreases n,
{
    if n == 0 {
        Ok(acc)
    } else {
        match m_meta(d, addr) {
            Err(e) => Err(e),
            Ok(entry) => {
                let acc1 = acc + d[addr as int];
                if n == 1 {
                    Ok(acc1)
                } else if entry.next == 0 {
                    Err(ErrorKind::InternalError)
                } else {
                    m_read_chain(d, entry.next, (n - 1) as nat, acc1)
                }
            },
        }
    }
}

/// The entries of the directory whose first sector is `addr`: the first `size` bytes of its
/// chain, decoded.
#[verifier::opaque]
pub open spec fn m_read_dir_at(d: Disk, addr: u64) -> Answer<Entries> {
    match m_meta(d, addr) {
        Err(e) => Err(e),
        Ok(entry) => if entry.sector_type != SectorType::Dir {
            Err(ErrorKind::IllegalOperation)
        } else if chunk_count(entry.size as nat) > d.len() {
            Err(ErrorKind::InternalError)
        } else {
            match m_read_chain(d, addr, chunk_count(entry.size as nat), Seq::empty()) {
                Err(e) => Err(e),
                Ok(bytes) => match spec_decode_dir(bytes.take(entry.size as int)) {
                    Some(entries) => Ok(entries),
                    None => Err(ErrorKind::InternalError),
                },
            }
        },
    }
}

/// The address of the first entry with the given name.
pub open spec fn m_lookup(entries: Entries, name: Seq<u8>) -> Option<u64> {
    match position(entries, name) {
        Some(i) => Some(entries[i].0),
        None => None,
    }
}

/// Follows the names of a path from the directory at `addr`.
#[verifier::opaque]
pub open spec fn m_walk_from(d: Disk, addr: u64, names: Seq<Seq<u8>>) -> Answer<u64>
    decreases names.len(),
{
    if names.len() == 0 {
        Ok(addr)
    } else {
        match m_read_dir_at(d, addr) {
            Err(e) => Err(e),
            Ok(entries) => match m_lookup(entries, names[0]) {
                None => Err(ErrorKind::NotFound),
                Some(next) => m_walk_from(d, next, names.drop_first()),
            },
        }
    }
}

/// The address of the first sector of what a path names.
#[verifier::opaque]
pub open spec fn m_walk(d: Disk, path: Seq<Seq<u8>>) -> Answer<u64> {
    match m_root(d) {
        Err(e) => Err(e),
        Ok(root) => m_walk_from(d, root.root, path),
    }
}

/// Whether a path names something of the given type. A path that leads nowhere names nothing.
#[verifier::opaque]
pub open spec fn m_exists(d: Disk, path: Seq<Seq<u8>>, kind: SectorType) -> Answer<bool> {
    match m_walk(d, path) {
        Err(ErrorKind::NotFound) => Ok(false),
        Err(e) => Err(e),
        Ok(addr) => match m_meta(d, addr) {
            Err(e) => Err(e),
            Ok(entry) => Ok(entry.sector_type == kind),
        },
    }
}

/// The names in the directory that a path names.
#[verifier::opaque]
pub open spec fn m_read_dir(d: Disk, path: Seq<Seq<u8>>) -> Answer<Seq<Seq<u8>>> {
    match m_walk(d, path) {
        Err(e) => Err(e),
        Ok(addr) => match m_read_dir_at(d, addr) {
            Err(e) => Err(e),
            Ok(entries) => Ok(names_of(entries)),
        },
    }
}

/// The position at the start of the file that a path names.
#[verifier::opaque]
pub open spec fn m_open(d: Disk, path: Seq<Seq<u8>>) -> Answer<FileProgress> {
    match m_walk(d, path) {
        Err(e) => Err(e),
        Ok(addr) => match m_meta(d, addr) {
            Err(e) => Err(e),
            Ok(entry) => if entry.sector_type == SectorType::File {
                Ok(FileProgress { head: addr, sector: addr, byte_offset: 0 })
            } else {
                Err(ErrorKind::IllegalOperation)
            },
        },
    }
}

/// Opens a file for reading: the position at its start, and its size at this moment.
#[verifier::opaque]
pub open spec fn m_open_read(d: Disk, path: Seq<Seq<u8>>) -> Answer<ReadProgress> {
    match m_open(d, path) {
        Err(e) => Err(e),
        Ok(progress) => match m_meta(d, progress.head) {
            Err(e) => Err(e),
            Ok(entry) => Ok(ReadProgress(progress, entry.size)),
        },
    }
}

/// A data entry without a successor.
pub open spec fn data_entry() -> Sector {
    Sector { sector_type: SectorType::Data, size: 0, next: 0 }
}

/// Puts a fresh data sector behind `addr` in its chain and gives its address.
#[verifier::opaque]
pub open spec fn m_extend(d: Disk, addr: u64) -> (Disk, Answer<u64>) {
    let (d1, r1) = m_alloc(d);
    match r1 {
        Err(e) => (d1, Err(e)),
        Ok(fresh) => {
            let (d2, r2) = m_set_meta(d1, fresh, data_entry());
            match r2 {
                Err(e) => (d2, Err(e)),
                Ok(()) => match m_meta(d2, addr) {
                    Err(e) => (d2, Err(e)),
                    Ok(entry) => {
                        let (d3, r3) = m_set_meta(d2, addr, Sector { next: fresh, ..entry });
                        match r3 {
                            Err(e) => (d3, Err(e)),
                            Ok(()) => (d3, Ok(fresh)),
                        }
                    },
                },
            }
        },
    }
}

/// Writes sectors `i` to `n - 1` of a payload along the chain from `cur` on, using the
/// sectors that the chain has and extending it where it ends. Gives the sector that took
/// the last of them.
#[verifier::opaque]
pub open spec fn m_write_chunks(d: Disk, cur: u64, bytes: Seq<u8>, i: nat, n: nat) -> (Disk, Answer<u64>)
    decreases n - i,
{
    match m_meta(d, cur) {
        Err(e) => (d, Err(e)),
        Ok(entry) => {
            let d1 = d.update(cur as int, chunk(bytes, i as int));
            if i + 1 >= n {
                (d1, Ok(cur))
            } else if entry.next != 0 {
                m_write_chunks(d1, entry.next, bytes, i + 1, n)
            } else {
                let (d2, r2) = m_extend(d1, cur);
                match r2 {
                    Err(e) => (d2, Err(e)),
                    Ok(fresh) => m_write_chunks(d2, fresh, bytes, i + 1, n),
                }
            }
        },
    }
}

/// Ends a chain at `addr` and gives what followed back to the free list.
#[verifier::opaque]
pub open spec fn m_cut_after(d: Disk, addr: u64) -> (Disk, Answer<()>) {
    match m_meta(d, addr) {
        Err(e) => (d, Err(e)),
        Ok(entry) => if entry.next == 0 {
            (d, Ok(()))
        } else {
            let (d1, r1) = m_set_meta(d, addr, Sector { next: 0, ..entry });
            match r1 {
                Err(e) => (d1, Err(e)),
                Ok(()) => m_free_chain(d1, entry.next),
            }
        },
    }
}

/// Writes a payload into the chain that begins at `addr`, and gives what the chain had
/// beyond the payload back to the free list.
#[verifier::opaque]
pub open spec fn m_write_payload(d: Disk, addr: u64, bytes: Seq<u8>) -> (Disk, Answer<()>) {
    let (d2, r2) = m_write_chunks(d, addr, bytes, 0, chunk_count(bytes.len()));
    match r2 {
        Err(e) => (d2, Err(e)),
        Ok(last) => m_cut_after(d2, last),
    }
}

/// Writes the entries of the directory whose first sector is `addr`: the size of the
/// payload goes into the entry of that sector, the payload into the chain, which grows as
/// needed, and what the chain had beyond the payload goes back to the free list.
#[verifier::opaque]
pub open spec fn m_write_dir_at(d: Disk, addr: u64, entries: Entries) -> (Disk, Answer<()>) {
    if !encodable(entries) || spec_encode_dir(entries).len() > u64::MAX {
        (d, Err(ErrorKind::IllegalOperation))
    } else {
        let bytes = spec_encode_dir(entries);
        match m_meta(d, addr) {
            Err(e) => (d, Err(e)),
            Ok(entry) => {
                let (d1, r1) = m_set_meta(d, addr, Sector { size: bytes.len() as u64, ..entry });
                match r1 {
                    Err(e) => (d1, Err(e)),
                    Ok(()) => m_write_payload(d1, addr, bytes),
                }
            },
        }
    }
}

/// Creates what `path` names, with the given entry for its first sector: the parent has to
/// be a directory without an entry of that name, and the name has to fit an entry.
#[verifier::opaque]
pub open spec fn m_create(d: Disk, path: Seq<Seq<u8>>, meta: Sector) -> (Disk, Answer<u64>) {
    if path.len() == 0 {
        (d, Err(ErrorKind::IllegalOperation))
    } else {
        match m_walk(d, path.drop_last()) {
            Err(e) => (d, Err(e)),
            Ok(parent) => match m_read_dir_at(d, parent) {
                Err(e) => (d, Err(e)),
                Ok(entries) => if position(entries, path.last()) is Some || path.last().len()
                    > 255 {
                    (d, Err(ErrorKind::IllegalOperation))
                } else {
                    let (d1, r1) = m_alloc(d);
                    match r1 {
                        Err(e) => (d1, Err(e)),
                        Ok(fresh) => {
                            let (d2, r2) = m_set_meta(d1, fresh, meta);
                            match r2 {
                                Err(e) => (d2, Err(e)),
                                Ok(()) => {
                                    let (d3, r3) = m_write_dir_at(
                                        d2,
                                        parent,
                                        entries.push((fresh, path.last())),
                                    );
                                    match r3 {
                                        Err(e) => (d3, Err(e)),
                                        Ok(()) => (d3, Ok(fresh)),
                                    }
                                },
                            }
                        },
                    }
                },
            },
        }
    }
}

/// Creates an empty file.
#[verifier::opaque]
pub open spec fn m_create_file(d: Disk, path: Seq<Seq<u8>>) -> (Disk, Answer<()>) {
    let (d1, r1) = m_create(d, path, Sector { sector_type: SectorType::File, size: 0, next: 0 });
    match r1 {
        Err(e) => (d1, Err(e)),
        Ok(_) => (d1, Ok(())),
    }
}

/// The payload of a directory without entries.
pub open spec fn empty_dir_payload() -> Seq<u8> {
    spec_encode_dir(Seq::empty())
}

/// Creates an empty directory: its first sector holds the payload of a directory without
/// entries.
#[verifier::opaque]
pub open spec fn m_create_dir(d: Disk, path: Seq<Seq<u8>>) -> (Disk, Answer<()>) {
    let (d1, r1) = m_create(
        d,
        path,
        Sector { sector_type: SectorType::Dir, size: empty_dir_payload().len() as u64, next: 0 },
    );
    match r1 {
        Err(e) => (d1, Err(e)),
        Ok(fresh) => (d1.update(fresh as int, chunk(empty_dir_payload(), 0)), Ok(())),
    }
}

/// Empties what begins at `addr` but keeps its first sector: the rest of the chain goes back
/// to the free list, and the size becomes zero.
#[verifier::opaque]
pub open spec fn m_clear_at(d: Disk, addr: u64) -> (Disk, Answer<()>) {
    let (d1, r1) = m_cut_after(d, addr);
    match r1 {
        Err(e) => (d1, Err(e)),
        Ok(()) => match m_meta(d1, addr) {
            Err(e) => (d1, Err(e)),
            Ok(entry) => m_set_meta(d1, addr, Sector { size: 0, ..entry }),
        },
    }
}

/// Takes the entry of what `path` names out of its parent, and gives the chain back.
#[verifier::opaque]
pub open spec fn m_unlink(d: Disk, path: Seq<Seq<u8>>) -> (Disk, Answer<()>) {
    if path.len() == 0 {
        (d, Err(ErrorKind::IllegalOperation))
    } else {
        match m_walk(d, path.drop_last()) {
            Err(e) => (d, Err(e)),
            Ok(parent) => match m_read_dir_at(d, parent) {
                Err(e) => (d, Err(e)),
                Ok(entries) => match position(entries, path.last()) {
                    None => (d, Err(ErrorKind::NotFound)),
                    Some(i) => {
                        let (d1, r1) = m_write_dir_at(d, parent, entries.remove(i));
                        match r1 {
                            Err(e) => (d1, Err(e)),
                            Ok(()) => m_free_chain(d1, entries[i].0),
                        }
                    },
                },
            },
        }
    }
}

/// Deletes what `path` names, and first everything below it. `fuel` bounds the depth: a
/// directory tree that is deeper than that runs in a circle.
#[verifier::opaque]
pub open spec fn m_delete(d: Disk, path: Seq<Seq<u8>>, fuel: nat) -> (Disk, Answer<()>)
    decreases fuel, 2nat, 0nat,
{
    if path.len() == 0 {
        (d, Err(ErrorKind::IllegalOperation))
    } else {
        match m_walk(d, path) {
            Err(e) => (d, Err(e)),
            Ok(addr) => match m_meta(d, addr) {
                Err(e) => (d, Err(e)),
                Ok(entry) => if entry.sector_type == SectorType::Dir {
                    let (d1, r1) = m_delete_children(d, path, fuel);
                    match r1 {
                        Err(e) => (d1, Err(e)),
                        Ok(()) => m_unlink(d1, path),
                    }
                } else {
                    m_unlink(d, path)
                },
            },
        }
    }
}

/// Deletes everything in the directory that `path` names.
#[verifier::opaque]
pub open spec fn m_delete_children(d: Disk, path: Seq<Seq<u8>>, fuel: nat) -> (Disk, Answer<()>)
    decreases fuel, 1nat, 0nat,
{
    match m_walk(d, path) {
        Err(e) => (d, Err(e)),
        Ok(addr) => match m_read_dir_at(d, addr) {
            Err(e) => (d, Err(e)),
            Ok(entries) => m_delete_each(d, path, names_of(entries), fuel),
        },
    }
}

/// Deletes the children of `path` with the given names, in order.
#[verifier::opaque]
pub open spec fn m_delete_each(d: Disk, path: Seq<Seq<u8>>, names: Seq<Seq<u8>>, fuel: nat) -> (Disk, Answer<()>)
    decreases fuel, 0nat, names.len(),
{
    if names.len() == 0 {
        (d, Ok(()))
    } else if fuel == 0 {
        (d, Err(ErrorKind::InternalError))
    } else {
        let (d1, r1) = m_delete(d, path.push(names[0]), (fuel - 1) as nat);
        match r1 {
            Err(e) => (d1, Err(e)),
            Ok(()) => m_delete_each(d1, path, names.drop_first(), fuel),
        }
    }
}

/// Empties what `path` names: a file loses its bytes, a directory everything below it.
#[verifier::opaque]
pub open spec fn m_clear(d: Disk, path: Seq<Seq<u8>>) -> (Disk, Answer<()>) {
    match m_walk(d, path) {
        Err(e) => (d, Err(e)),
        Ok(addr) => match m_meta(d, addr) {
            Err(e) => (d, Err(e)),
            Ok(entry) => if entry.sector_type == SectorType::Dir {
                let (d1, r1) = m_delete_children(d, path, d.len());
                match r1 {
                    Err(e) => (d1, Err(e)),
                    Ok(()) => {
                        let (d2, r2) = m_clear_at(d1, addr);
                        match r2 {
                            Err(e) => (d2, Err(e)),
                            Ok(()) => m_write_dir_at(d2, addr, Seq::empty()),
                        }
                    },
                }
            } else if entry.sector_type == SectorType::File {
                m_clear_at(d, addr)
            } else {
                (d, Err(ErrorKind::IllegalOperation))
            },
        },
    }
}

/// Opens a file for writing: the file is emptied, and the position is at its start.
#[verifier::opaque]
pub open spec fn m_open_write(d: Disk, path: Seq<Seq<u8>>) -> (Disk, Answer<WriteProgress>) {
    match m_open(d, path) {
        Err(e) => (d, Err(e)),
        Ok(progress) => {
            let (d1, r1) = m_clear_at(d, progress.head);
            match r1 {
                Err(e) => (d1, Err(e)),
                Ok(()) => (d1, Ok(WriteProgress(progress))),
            }
        },
    }
}

/// The smaller of two numbers.
pub open spec fn min2(a: int, b: int) -> int {
    if a <= b {
        a
    } else {
        b
    }
}

/// Reads up to `want` bytes from the position on, appended to `out`: sector by sector,
/// until enough is read, the size is reached or the chain ends. At the end of the chain the
/// current sector becomes zero.
#[verifier::opaque]
pub open spec fn m_read_loop(d: Disk, p: FileProgress, size: u64, want: nat, out: Seq<u8>) -> Answer<(FileProgress, Seq<u8>)>
    decreases want,
{
    if want == 0 || p.byte_offset >= size {
        Ok((p, out))
    } else {
        let off = p.byte_offset % 4096;
        let take = min2(min2(4096 - off, want as int), size - p.byte_offset);
        match m_meta(d, p.sector) {
            Err(e) => Err(e),
            Ok(entry) => {
                let out1 = out + d[p.sector as int].subrange(off as int, off + take);
                let moved = FileProgress { byte_offset: (p.byte_offset + take) as u64, ..p };
                if off + take == 4096 {
                    if entry.next == 0 {
                        Ok((FileProgress { sector: 0, ..moved }, out1))
                    } else {
                        m_read_loop(
                            d,
                            FileProgress { sector: entry.next, ..moved },
                            size,
                            (want - take) as nat,
                            out1,
                        )
                    }
                } else {
                    m_read_loop(d, moved, size, (want - take) as nat, out1)
                }
            },
        }
    }
}

/// Reads up to `want` bytes of an open file. Once the chain has ended, nothing more is read.
#[verifier::opaque]
pub open spec fn m_read(d: Disk, progress: ReadProgress, want: nat) -> Answer<(FileProgress, Seq<u8>)> {
    if progress.0.sector == 0 {
        Ok((progress.0, Seq::empty()))
    } else {
        m_read_loop(d, progress.0, progress.1, want, Seq::empty())
    }
}

/// The sector that `hops` steps along the chain from `addr` lead to; the last sector of the
/// chain where it is shorter.
#[verifier::opaque]
pub open spec fn m_hop(d: Disk, addr: u64, hops: nat) -> Answer<u64>
    decreases hops,
{
    if hops == 0 {
        Ok(addr)
    } else {
        match m_meta(d, addr) {
            Err(e) => Err(e),
            Ok(entry) => if entry.next == 0 {
                Ok(addr)
            } else {
                m_hop(d, entry.next, (hops - 1) as nat)
            },
        }
    }
}

/// Moves the position of an open file forward by `delta` bytes, and finds the sector of the
/// new position from the first sector of the file.
#[verifier::opaque]
pub open spec fn m_seek(d: Disk, progress: ReadProgress, delta: nat) -> Answer<ReadProgress> {
    let target = if progress.0.byte_offset + delta > u64::MAX {
        u64::MAX
    } else {
        (progress.0.byte_offset + delta) as u64
    };
    match m_hop(d, progress.0.head, (target / 4096) as nat) {
        Err(e) => Err(e),
        Ok(sector) => Ok(
            ReadProgress(
                FileProgress { head: progress.0.head, sector, byte_offset: target },
                progress.1,
            ),
        ),
    }
}

/// Writes the bytes of `data` from index `i` on at the position: sector by sector, each
/// read, changed and written back, with a fresh sector put behind each one that is filled.
#[verifier::opaque]
pub open spec fn m_write_loop(d: Disk, p: FileProgress, data: Seq<u8>, i: nat) -> (Disk, Answer<FileProgress>)
    decreases data.len() - i,
{
    if i >= data.len() {
        (d, Ok(p))
    } else {
        let off = p.byte_offset % 4096;
        let take = min2(4096 - off, data.len() - i);
        match m_meta(d, p.sector) {
            Err(e) => (d, Err(e)),
            Ok(entry) => if p.byte_offset + take > u64::MAX {
                (d, Err(ErrorKind::InternalError))
            } else {
                let d1 = d.update(
                    p.sector as int,
                    splice(d[p.sector as int], off as int, data.subrange(i as int, i + take)),
                );
                let moved = FileProgress { byte_offset: (p.byte_offset + take) as u64, ..p };
                if off + take == 4096 {
                    let (d2, r2) = m_extend(d1, p.sector);
                    match r2 {
                        Err(e) => (d2, Err(e)),
                        Ok(fresh) => m_write_loop(
                            d2,
                            FileProgress { sector: fresh, ..moved },
                            data,
                            (i + take) as nat,
                        ),
                    }
                } else {
                    m_write_loop(d1, moved, data, (i + take) as nat)
                }
            },
        }
    }
}

/// Writes `data` at the position of a file opened for writing, and adds its length to the
/// size of the file.
#[verifier::opaque]
pub open spec fn m_write(d: Disk, progress: WriteProgress, data: Seq<u8>) -> (Disk, Answer<WriteProgress>) {
    let (d1, r1) = m_write_loop(d, progress.0, data, 0);
    match r1 {
        Err(e) => (d1, Err(e)),
        Ok(moved) => match m_meta(d1, moved.head) {
            Err(e) => (d1, Err(e)),
            Ok(entry) => if entry.size + data.len() > u64::MAX {
                (d1, Err(ErrorKind::InternalError))
            } else {
                let (d2, r2) = m_set_meta(
                    d1,
                    moved.head,
                    Sector { size: (entry.size + data.len()) as u64, ..entry },
                );
                match r2 {
                    Err(e) => (d2, Err(e)),
                    Ok(()) => (d2, Ok(WriteProgress(moved))),
                }
            },
        },
    }
}

/// The table entry of sector `i` on a freshly formatted volume of `sectors` sectors: the
/// root sector and the table are reserved, the root directory follows, every sector after
/// it is free and linked to the next one, and entries beyond the volume are reserved.
pub open spec fn format_entry(sectors: nat, i: nat) -> Sector {
    let table = table_sectors(sectors);
    if i <= table || i >= sectors {
        Sector { sector_type: SectorType::Reserved, size: 0, next: 0 }
    } else if i == table + 1 {
        Sector { sector_type: SectorType::Dir, size: 0, next: 0 }
    } else {
        Sector {
            sector_type: SectorType::Free,
            size: 0,
            next: if i + 1 == sectors {
                0
            } else {
                (i + 1) as u64
            },
        }
    }
}

/// Table sector `k` of a freshly formatted volume.
pub open spec fn format_table_block(sectors: nat, k: nat) -> Seq<u8> {
    Seq::new(4096, |b: int| format_entry(sectors, (k * 128 + b / 32) as nat).spec_encode()[b % 32])
}

/// The root sector of a freshly formatted volume.
pub open spec fn format_root(sectors: nat) -> RootView {
    RootView {
        name: Seq::new(64, |k: int| 88u8),
        table_begin: 1,
        sectors: sectors as u64,
        root: (table_sectors(sectors) + 1) as u64,
        free: (table_sectors(sectors) + 2) as u64,
    }
}

/// A volume after its root sector and table have been written: the data sectors are as before.
pub open spec fn format_base(d: Disk) -> Disk {
    Seq::new(
        d.len(),
        |i: int|
            if i == 0 {
                format_root(d.len()).spec_encode()
            } else if i <= table_sectors(d.len()) {
                format_table_block(d.len(), (i - 1) as nat)
            } else {
                d[i]
            },
    )
}

/// A freshly formatted volume: root sector and table, and a root directory without entries.
#[verifier::opaque]
pub open spec fn m_format(d: Disk) -> (Disk, Answer<()>) {
    m_write_dir_at(format_base(d), (table_sectors(d.len()) + 1) as u64, Seq::empty())
}

/// A sector that has a table entry lies in the data region of the volume, behind the table.
pub proof fn lemma_meta_ok(d: Disk, addr: u64)
    requires
        disk_wf(d),
        m_meta(d, addr) is Ok,
    ensures
        2 <= addr < d.len(),
        m_root(d) is Ok,
        m_root(d).unwrap().root <= addr < m_root(d).unwrap().sectors,
{
}

/// What allocation gives lies in the data region, and the volume keeps its size.
pub proof fn lemma_alloc_fresh(d: Disk)
    requires
        disk_wf(d),
        m_alloc(d).1 is Ok,
    ensures
        2 <= m_alloc(d).1.unwrap() < d.len(),
{
    reveal(m_alloc);
    let root = m_root(d).unwrap();
    lemma_meta_ok(d, root.free);
}

/// What creation gives lies in the data region.
pub proof fn lemma_create_fresh(d: Disk, path: Seq<Seq<u8>>, meta: Sector)
    requires
        disk_wf(d),
        m_create(d, path, meta).1 is Ok,
    ensures
        2 <= m_create(d, path, meta).1.unwrap() < d.len(),
{
    reveal(m_create);
    lemma_alloc_fresh(d);
}

} // verus!
