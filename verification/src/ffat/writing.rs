use vstd::prelude::*;
use crate::block::RWBlockDevice;
use crate::bytes::clone_bytes;
use crate::copy::copy_offset;
use crate::error::{ErrorKind, FsError, FsResult};
use crate::ffat::dir::{encode_dir, entries_view, entry_names, find_entry, names_of, DirData};
use crate::ffat::layout::splice;
use crate::ffat::model::{
    chunk, chunk_count, kinded, lemma_meta_ok, m_clear, m_clear_at, m_create, m_create_dir, m_create_file, m_cut_after, m_delete, m_delete_children, m_delete_each, m_extend, m_open_write, m_unlink, m_write, m_write_chunks, m_write_dir_at, m_write_loop, m_write_payload, performs, lemma_create_fresh,
};
use crate::ffat::structs::{FileProgress, Sector, SectorType, WriteProgress};
use crate::ffat::FFAT;
use crate::path::Path;

verus! {

/// Sector `i` of a payload, filled up with zeros.
pub fn make_chunk(bytes: &Vec<u8>, i: usize) -> (block: Vec<u8>)
    requires
        4096 * i <= bytes@.len(),
    ensures
        block@ == chunk(bytes@, i as int),
        block@.len() == 4096,
{
    let mut block: Vec<u8> = vec![0u8; 4096];
    let len = bytes.len();
    let start = 4096 * i;
    let rest = bytes.len() - start;
    let n = if rest < 4096 {
        rest
    } else {
        4096
    };
    copy_offset(bytes.as_slice(), block.as_mut_slice(), n, start, 0);
    assert(block@ =~= chunk(bytes@, i as int));
    block
}

impl<B: RWBlockDevice> FFAT<B> {
    /// Puts a fresh data sector behind `addr` in its chain and gives its address.
    pub(crate) fn extend(&mut self, addr: u64) -> (result: FsResult<u64>)
        requires
            old(self).wf(),
            !old(self).read_only(),
        ensures
            final(self).wf(),
            final(self).same_device(old(self)),
            performs(
                old(self).reliable(),
                final(self).disk(),
                kinded(result),
                m_extend(old(self).disk(), addr),
            ),
    {
        proof {
            reveal(m_extend);
        }
        let fresh = match self.allocate_sector() {
            Ok(fresh) => fresh,
            Err(e) => return Err(e),
        };
        match self.write_sector_meta(
            fresh,
            Sector { sector_type: SectorType::Data, size: 0, next: 0 },
        ) {
            Ok(()) => {},
            Err(e) => return Err(e),
        }
        let mut meta = match self.read_sector_meta(addr) {
            Ok(meta) => meta,
            Err(e) => return Err(e),
        };
        meta.next = fresh;
        match self.write_sector_meta(addr, meta) {
            Ok(()) => Ok(fresh),
            Err(e) => Err(e),
        }
    }

    /// Ends a chain at `addr` and gives what followed back to the free list.
    pub(crate) fn cut_after(&mut self, addr: u64) -> (result: FsResult<()>)
        requires
            old(self).wf(),
            !old(self).read_only(),
        ensures
            final(self).wf(),
            final(self).same_device(old(self)),
            performs(
                old(self).reliable(),
                final(self).disk(),
                kinded(result),
                m_cut_after(old(self).disk(), addr),
            ),
    {
        proof {
            reveal(m_cut_after);
        }
        let mut meta = match self.read_sector_meta(addr) {
            Ok(meta) => meta,
            Err(e) => return Err(e),
        };
        if meta.next == 0 {
            return Ok(());
        }
        let tail = meta.next;
        meta.next = 0;
        match self.write_sector_meta(addr, meta) {
            Ok(()) => {},
            Err(e) => return Err(e),
        }
        self.free_sectors(tail)
    }

    /// Empties what begins at `addr` but keeps its first sector.
    pub(crate) fn clear_at_addr(&mut self, addr: u64) -> (result: FsResult<()>)
        requires
            old(self).wf(),
            !old(self).read_only(),
        ensures
            final(self).wf(),
            final(self).same_device(old(self)),
            performs(
                old(self).reliable(),
                final(self).disk(),
                kinded(result),
                m_clear_at(old(self).disk(), addr),
            ),
    {
        proof {
            reveal(m_clear_at);
        }
        match self.cut_after(addr) {
            Ok(()) => {},
            Err(e) => return Err(e),
        }
        let mut meta = match self.read_sector_meta(addr) {
            Ok(meta) => meta,
            Err(e) => return Err(e),
        };
        meta.size = 0;
        self.write_sector_meta(addr, meta)
    }

    /// Writes the entries of the directory whose first sector is `addr`.
    pub(crate) fn write_dir_at_addr(&mut self, addr: u64, dir_data: &DirData) -> (result: FsResult<()>)
        requires
            old(self).wf(),
            !old(self).read_only(),
        ensures
            final(self).wf(),
            final(self).same_device(old(self)),
            performs(
                old(self).reliable(),
                final(self).disk(),
                kinded(result),
                m_write_dir_at(old(self).disk(), addr, entries_view(dir_data@)),
            ),
    {
        proof {
            reveal(m_write_dir_at);
        }
        let ghost total = m_write_dir_at(old(self).disk(), addr, entries_view(dir_data@));
        let bytes = match encode_dir(dir_data) {
            Some(bytes) => bytes,
            None => return Err(FsError::illegal("a name is longer than 255 bytes")),
        };
        let len = bytes.len();
        let mut meta = match self.read_sector_meta(addr) {
            Ok(meta) => meta,
            Err(e) => return Err(e),
        };
        meta.size = len as u64;
        match self.write_sector_meta(addr, meta) {
            Ok(()) => {},
            Err(e) => return Err(e),
        }
        let n = len / 4096 + (if len % 4096 == 0 {
            0
        } else {
            1
        });
        proof {
            crate::ffat::layout::lemma_le_roundtrip();
            assert(len >= 8);
            assert(n == chunk_count(len as nat));
        }
        let ghost d1 = self.disk();
        proof {
            assert(total == m_write_payload(d1, addr, bytes@));
            reveal(m_write_payload);
        }
        let mut cur = addr;
        let mut i: usize = 0;
        loop
            invariant_except_break
                m_write_chunks(d1, addr, bytes@, 0, n as nat) == m_write_chunks(
                    self.disk(),
                    cur,
                    bytes@,
                    i as nat,
                    n as nat,
                ),
            invariant
                self.wf(),
                self.same_device(old(self)),
                !self.read_only(),
                i < n,
                n == chunk_count(len as nat),
                len == bytes@.len(),
                total == m_write_dir_at(old(self).disk(), addr, entries_view(dir_data@)),
                total == (match m_write_chunks(d1, addr, bytes@, 0, n as nat) {
                    (d2, Err(e)) => (d2, Err::<(), ErrorKind>(e)),
                    (d2, Ok(last)) => m_cut_after(d2, last),
                }),
            ensures
                m_write_chunks(d1, addr, bytes@, 0, n as nat) == (
                    self.disk(),
                    Ok::<u64, ErrorKind>(cur),
                ),
            decreases n - i,
        {
            proof {
                self.lemma_wf();
                reveal(m_write_chunks);
            }
            let entry = match self.read_sector_meta(cur) {
                Ok(entry) => entry,
                Err(e) => return Err(e),
            };
            proof {
                lemma_meta_ok(self.disk(), cur);
            }
            let block = make_chunk(&bytes, i);
            match self.write_sector(cur as usize, block.as_slice()) {
                Ok(()) => {},
                Err(e) => return Err(e),
            }
            if i + 1 >= n {
                break;
            }
            if entry.next != 0 {
                cur = entry.next;
            } else {
                cur = match self.extend(cur) {
                    Ok(fresh) => fresh,
                    Err(e) => return Err(e),
                };
            }
            i += 1;
        }
        self.cut_after(cur)
    }

    /// Creates what `path` names, with `meta` as the entry of its first sector, and gives
    /// the address of that sector.
    pub(crate) fn create(&mut self, path: &Path, meta: Sector) -> (result: FsResult<u64>)
        requires
            old(self).wf(),
            !old(self).read_only(),
        ensures
            final(self).wf(),
            final(self).same_device(old(self)),
            performs(
                old(self).reliable(),
                final(self).disk(),
                kinded(result),
                m_create(old(self).disk(), path@, meta),
            ),
    {
        proof {
            reveal(m_create);
        }
        let parent = match path.parent_dir() {
            Some(parent) => parent,
            None => return Err(FsError::illegal("cannot create the root directory")),
        };
        let filename = match path.name() {
            Some(name) => name,
            None => return Err(FsError::illegal("cannot create the root directory")),
        };
        let parent_addr = match self.walk(&parent) {
            Ok(addr) => addr,
            Err(e) => return Err(e),
        };
        let mut dir_data = match self.read_dir_at_addr(parent_addr) {
            Ok(data) => data,
            Err(e) => return Err(e),
        };
        match find_entry(&dir_data, &filename) {
            Some(_) => return Err(
                FsError::illegal("a file or directory with this name already exists"),
            ),
            None => {},
        }
        if filename.len() > 255 {
            return Err(FsError::illegal("the name is longer than 255 bytes"));
        }
        let file_addr = match self.allocate_sector() {
            Ok(addr) => addr,
            Err(e) => return Err(e),
        };
        match self.write_sector_meta(file_addr, meta) {
            Ok(()) => {},
            Err(e) => return Err(e),
        }
        let ghost before = entries_view(dir_data@);
        dir_data.push((file_addr, filename));
        assert(entries_view(dir_data@) =~= before.push((file_addr, path@.last())));
        match self.write_dir_at_addr(parent_addr, &dir_data) {
            Ok(()) => Ok(file_addr),
            Err(e) => Err(e),
        }
    }

    /// Creates an empty file.
    pub(crate) fn make_file(&mut self, path: &Path) -> (result: FsResult<()>)
        requires
            old(self).wf(),
            !old(self).read_only(),
        ensures
            final(self).wf(),
            final(self).same_device(old(self)),
            performs(
                old(self).reliable(),
                final(self).disk(),
                kinded(result),
                m_create_file(old(self).disk(), path@),
            ),
    {
        proof {
            reveal(m_create_file);
        }
        match self.create(path, Sector { sector_type: SectorType::File, size: 0, next: 0 }) {
            Ok(_) => Ok(()),
            Err(e) => Err(e),
        }
    }

    /// Creates an empty directory.
    pub(crate) fn make_dir(&mut self, path: &Path) -> (result: FsResult<()>)
        requires
            old(self).wf(),
            !old(self).read_only(),
        ensures
            final(self).wf(),
            final(self).same_device(old(self)),
            performs(
                old(self).reliable(),
                final(self).disk(),
                kinded(result),
                m_create_dir(old(self).disk(), path@),
            ),
    {
        proof {
            reveal(m_create_dir);
        }
        let empty: DirData = Vec::new();
        assert(entries_view(empty@) =~= Seq::<(u64, Seq<u8>)>::empty());
        let bytes = match encode_dir(&empty) {
            Some(bytes) => bytes,
            None => return Err(FsError::internal("an empty directory cannot be written")),
        };
        let block = make_chunk(&bytes, 0);
        let meta = Sector { sector_type: SectorType::Dir, size: bytes.len() as u64, next: 0 };
        let addr = match self.create(path, meta) {
            Ok(addr) => addr,
            Err(e) => return Err(e),
        };
        proof {
            old(self).lemma_wf();
            lemma_create_fresh(old(self).disk(), path@, meta);
        }
        self.write_sector(addr as usize, block.as_slice())
    }

    /// Takes the entry of what `path` names out of its parent, and gives the chain back.
    pub(crate) fn unlink(&mut self, path: &Path) -> (result: FsResult<()>)
        requires
            old(self).wf(),
            !old(self).read_only(),
        ensures
            final(self).wf(),
            final(self).same_device(old(self)),
            performs(
                old(self).reliable(),
                final(self).disk(),
                kinded(result),
                m_unlink(old(self).disk(), path@),
            ),
    {
        proof {
            reveal(m_unlink);
        }
        let parent = match path.parent_dir() {
            Some(parent) => parent,
            None => return Err(FsError::illegal("cannot delete the root directory")),
        };
        let name = match path.name() {
            Some(name) => name,
            None => return Err(FsError::illegal("cannot delete the root directory")),
        };
        let parent_addr = match self.walk(&parent) {
            Ok(addr) => addr,
            Err(e) => return Err(e),
        };
        let mut dir_data = match self.read_dir_at_addr(parent_addr) {
            Ok(data) => data,
            Err(e) => return Err(e),
        };
        let index = match find_entry(&dir_data, &name) {
            Some(index) => index,
            None => return Err(FsError::NotFound),
        };
        let ghost before = entries_view(dir_data@);
        let child = dir_data.remove(index);
        assert(entries_view(dir_data@) =~= before.remove(index as int));
        match self.write_dir_at_addr(parent_addr, &dir_data) {
            Ok(()) => {},
            Err(e) => return Err(e),
        }
        self.free_sectors(child.0)
    }

    /// Deletes what `path` names, and first everything below it, as long as that lies no
    /// deeper than `fuel` directories.
    pub(crate) fn delete_within(&mut self, path: &Path, fuel: usize) -> (result: FsResult<()>)
        requires
            old(self).wf(),
            !old(self).read_only(),
        ensures
            final(self).wf(),
            final(self).same_device(old(self)),
            performs(
                old(self).reliable(),
                final(self).disk(),
                kinded(result),
                m_delete(old(self).disk(), path@, fuel as nat),
            ),
        decreases fuel, 2nat,
    {
        proof {
            reveal(m_delete);
            reveal(m_delete_children);
            reveal(m_delete_each);
        }
        if path.is_root() {
            return Err(FsError::illegal("cannot delete the root directory"));
        }
        let addr = match self.walk(path) {
            Ok(addr) => addr,
            Err(e) => return Err(e),
        };
        let meta = match self.read_sector_meta(addr) {
            Ok(meta) => meta,
            Err(e) => return Err(e),
        };
        match meta.sector_type {
            SectorType::Dir => {
                match self.delete_children(path, fuel) {
                    Ok(()) => {},
                    Err(e) => return Err(e),
                }
            },
            _ => {},
        }
        self.unlink(path)
    }

    /// Deletes everything in the directory that `path` names.
    pub(crate) fn delete_children(&mut self, path: &Path, fuel: usize) -> (result: FsResult<()>)
        requires
            old(self).wf(),
            !old(self).read_only(),
        ensures
            final(self).wf(),
            final(self).same_device(old(self)),
            performs(
                old(self).reliable(),
                final(self).disk(),
                kinded(result),
                m_delete_children(old(self).disk(), path@, fuel as nat),
            ),
        decreases fuel, 1nat,
    {
        proof {
            reveal(m_delete);
            reveal(m_delete_children);
            reveal(m_delete_each);
        }
        let addr = match self.walk(path) {
            Ok(addr) => addr,
            Err(e) => return Err(e),
        };
        let dir_data = match self.read_dir_at_addr(addr) {
            Ok(data) => data,
            Err(e) => return Err(e),
        };
        let names = entry_names(&dir_data);
        let ghost all = names_of(entries_view(dir_data@));
        let ghost total = m_delete_children(old(self).disk(), path@, fuel as nat);
        let n = names.len();
        let mut i: usize = 0;
        assert(all.skip(0) =~= all);
        while i < n
            invariant
                self.wf(),
                self.same_device(old(self)),
                !self.read_only(),
                i <= n,
                n == names@.len(),
                all == crate::bytes::names_view(names@),
                total == m_delete_children(old(self).disk(), path@, fuel as nat),
                total == m_delete_each(self.disk(), path@, all.skip(i as int), fuel as nat),
                i == n ==> total == (self.disk(), Ok::<(), ErrorKind>(())),
            decreases fuel, 0nat, n - i,
        {
            proof {
                reveal(m_delete);
                reveal(m_delete_each);
                assert(all.skip(i as int)[0] == all[i as int]);
                assert(all.skip(i as int).drop_first() =~= all.skip(i + 1));
            }
            assert(all.skip(i as int).len() > 0);
            if fuel == 0 {
                return Err(FsError::internal("the directory tree is deeper than the volume is large"));
            }
            let ghost here = self.disk();
            let child = path.concat(clone_bytes(&names[i]));
            match self.delete_within(&child, fuel - 1) {
                Ok(()) => {},
                Err(e) => return Err(e),
            }
            i += 1;
            proof {
                if i == n {
                    assert(all.skip(i as int).len() == 0);
                    assert(m_delete_each(self.disk(), path@, all.skip(i as int), fuel as nat) == (
                        self.disk(),
                        Ok::<(), ErrorKind>(()),
                    ));
                }
            }
        }
        Ok(())
    }

    /// Empties what `path` names.
    pub(crate) fn clear_path(&mut self, path: &Path) -> (result: FsResult<()>)
        requires
            old(self).wf(),
            !old(self).read_only(),
        ensures
            final(self).wf(),
            final(self).same_device(old(self)),
            performs(
                old(self).reliable(),
                final(self).disk(),
                kinded(result),
                m_clear(old(self).disk(), path@),
            ),
    {
        proof {
            reveal(m_clear);
        }
        let addr = match self.walk(path) {
            Ok(addr) => addr,
            Err(e) => return Err(e),
        };
        let meta = match self.read_sector_meta(addr) {
            Ok(meta) => meta,
            Err(e) => return Err(e),
        };
        match meta.sector_type {
            SectorType::Dir => {
                let fuel = self.sectors();
                match self.delete_children(path, fuel) {
                    Ok(()) => {},
                    Err(e) => return Err(e),
                }
                match self.clear_at_addr(addr) {
                    Ok(()) => {},
                    Err(e) => return Err(e),
                }
                let empty: DirData = Vec::new();
                assert(entries_view(empty@) =~= Seq::<(u64, Seq<u8>)>::empty());
                self.write_dir_at_addr(addr, &empty)
            },
            SectorType::File => self.clear_at_addr(addr),
            _ => Err(FsError::illegal("only files and directories can be cleared")),
        }
    }

    /// Opens the file that `path` names for writing, and empties it.
    pub(crate) fn start_write(&mut self, path: &Path) -> (result: FsResult<WriteProgress>)
        requires
            old(self).wf(),
            !old(self).read_only(),
        ensures
            final(self).wf(),
            final(self).same_device(old(self)),
            performs(
                old(self).reliable(),
                final(self).disk(),
                kinded(result),
                m_open_write(old(self).disk(), path@),
            ),
    {
        proof {
            reveal(m_open_write);
        }
        let progress = match self.open(path) {
            Ok(progress) => progress,
            Err(e) => return Err(e),
        };
        match self.clear_at_addr(progress.head) {
            Ok(()) => Ok(WriteProgress(progress)),
            Err(e) => Err(e),
        }
    }

    /// Writes `buffer` at the position of a file opened for writing, moves the position
    /// behind it, and adds the number of bytes to the size of the file.
    pub(crate) fn write_file(&mut self, progress: &mut WriteProgress, buffer: &[u8]) -> (result: FsResult<()>)
        requires
            old(self).wf(),
            !old(self).read_only(),
        ensures
            final(self).wf(),
            final(self).same_device(old(self)),
            performs(
                old(self).reliable(),
                final(self).disk(),
                match result {
                    Ok(()) => Ok::<WriteProgress, ErrorKind>(*final(progress)),
                    Err(e) => Err::<WriteProgress, ErrorKind>(e.spec_kind()),
                },
                m_write(old(self).disk(), *old(progress), buffer@),
            ),
    {
        proof {
            reveal(m_write);
            reveal(m_write_loop);
        }
        let ghost total = m_write(old(self).disk(), *old(progress), buffer@);
        let len = buffer.len();
        let mut i: usize = 0;
        while i < len
            invariant
                self.wf(),
                self.same_device(old(self)),
                !self.read_only(),
                i <= len,
                len == buffer@.len(),
                total == m_write(old(self).disk(), *old(progress), buffer@),
                m_write_loop(old(self).disk(), old(progress).0, buffer@, 0) == m_write_loop(
                    self.disk(),
                    progress.0,
                    buffer@,
                    i as nat,
                ),
                i == len ==> m_write_loop(old(self).disk(), old(progress).0, buffer@, 0) == (
                    self.disk(),
                    Ok::<FileProgress, ErrorKind>(progress.0),
                ),
            decreases len - i,
        {
            proof {
                self.lemma_wf();
                reveal(m_write);
                reveal(m_write_loop);
            }
            let off = (progress.0.byte_offset % 4096) as usize;
            let to_end = 4096 - off;
            let to_buffer = len - i;
            let take = if to_end < to_buffer {
                to_end
            } else {
                to_buffer
            };
            let meta = match self.read_sector_meta(progress.0.sector) {
                Ok(meta) => meta,
                Err(e) => return Err(e),
            };
            if progress.0.byte_offset > u64::MAX - take as u64 {
                return Err(FsError::internal("the file is larger than a size can say"));
            }
            proof {
                lemma_meta_ok(self.disk(), progress.0.sector);
            }
            let mut block = match self.read_sector(progress.0.sector as usize) {
                Ok(block) => block,
                Err(e) => return Err(e),
            };
            let ghost before = block@;
            copy_offset(buffer, block.as_mut_slice(), take, i, off);
            assert(block@ =~= splice(before, off as int, buffer@.subrange(i as int, i + take)));
            match self.write_sector(progress.0.sector as usize, block.as_slice()) {
                Ok(()) => {},
                Err(e) => return Err(e),
            }
            progress.0.byte_offset = progress.0.byte_offset + take as u64;
            if off + take == 4096 {
                let fresh = match self.extend(progress.0.sector) {
                    Ok(fresh) => fresh,
                    Err(e) => return Err(e),
                };
                progress.0.sector = fresh;
            }
            i += take;
            proof {
                if i == len {
                    assert(m_write_loop(self.disk(), progress.0, buffer@, i as nat) == (
                        self.disk(),
                        Ok::<FileProgress, ErrorKind>(progress.0),
                    ));
                }
            }
        }
        let mut meta = match self.read_sector_meta(progress.0.head) {
            Ok(meta) => meta,
            Err(e) => return Err(e),
        };
        if meta.size > u64::MAX - len as u64 {
            return Err(FsError::internal("the file is larger than a size can say"));
        }
        meta.size = meta.size + len as u64;
        match self.write_sector_meta(progress.0.head, meta) {
            Ok(()) => Ok(()),
            Err(e) => Err(e),
        }
    }
}

} // verus!

