use vstd::prelude::*;
use vstd::slice::slice_subrange;
use crate::block::ReadBlockDevice;
use crate::bytes::names_view;
use crate::copy::copy_offset;
use crate::error::{ErrorKind, FsError, FsResult};
use crate::ffat::dir::{decode_dir, entries_view, entry_names, find_entry, DirData};
use crate::ffat::model::{
    answers, chunk_count, kinded, lemma_meta_ok, m_exists, m_hop, m_meta, m_open, m_open_read, m_read, m_read_chain, m_read_dir, m_read_dir_at, m_read_loop, m_seek, m_walk, m_walk_from, Entries,
};
use crate::ffat::structs::{FileProgress, ReadProgress, Sector, SectorType};
use crate::ffat::FFAT;
use crate::path::{Filename, Path};

verus! {

impl<B: ReadBlockDevice> FFAT<B> {
    /// Reads the entries of the directory whose first sector is `addr`.
    pub(crate) fn read_dir_at_addr(&self, addr: u64) -> (result: FsResult<DirData>)
        requires
            self.wf(),
        ensures
            match result {
                Ok(data) => m_read_dir_at(self.disk(), addr) == Ok::<Entries, ErrorKind>(
                    entries_view(data@),
                ),
                Err(e) => answers(
                    self.reliable(),
                    Err::<Entries, ErrorKind>(e.spec_kind()),
                    m_read_dir_at(self.disk(), addr),
                ),
            },
    {
        proof {
            self.lemma_wf();
            reveal(m_read_dir_at);
        }
        let entry = match self.read_sector_meta(addr) {
            Ok(entry) => entry,
            Err(e) => return Err(e),
        };
        match entry.sector_type {
            SectorType::Dir => {},
            _ => return Err(FsError::illegal("the address does not refer to a directory")),
        }
        let count = entry.size / 4096 + (if entry.size % 4096 == 0 {
            0
        } else {
            1
        });
        assert(count == chunk_count(entry.size as nat));
        let limit = self.sectors();
        if count > limit as u64 {
            return Err(FsError::internal("the directory is larger than the volume"));
        }
        let n = count as usize;
        let mut bytes: Vec<u8> = Vec::new();
        let mut cur = addr;
        let mut i: usize = 0;
        while i < n
            invariant
                self.wf(),
                i <= n,
                n <= limit,
                limit == self.disk().len(),
                bytes@.len() == 4096 * i,
                m_meta(self.disk(), addr) == Ok::<Sector, ErrorKind>(entry),
                entry.sector_type == SectorType::Dir,
                n == chunk_count(entry.size as nat),
                m_read_chain(self.disk(), addr, n as nat, Seq::empty()) == m_read_chain(
                    self.disk(),
                    cur,
                    (n - i) as nat,
                    bytes@,
                ),
            decreases n - i,
        {
            proof {
                self.lemma_wf();
                reveal(m_read_dir_at);
                reveal(m_read_chain);
            }
            let meta = match self.read_sector_meta(cur) {
                Ok(meta) => meta,
                Err(e) => return Err(e),
            };
            proof {
                lemma_meta_ok(self.disk(), cur);
            }
            let mut block = match self.read_sector(cur as usize) {
                Ok(block) => block,
                Err(e) => return Err(e),
            };
            bytes.append(&mut block);
            if i + 1 < n {
                if meta.next == 0 {
                    return Err(FsError::internal("the directory ends before its size is reached"));
                }
                cur = meta.next;
            }
            i += 1;
        }
        proof {
            reveal(m_read_chain);
        }
        let total = bytes.len();
        assert(entry.size <= 4096 * chunk_count(entry.size as nat));
        assert(entry.size <= total);
        let payload = slice_subrange(bytes.as_slice(), 0, entry.size as usize);
        assert(payload@ =~= bytes@.take(entry.size as int));
        match decode_dir(payload) {
            Some(data) => Ok(data),
            None => Err(FsError::internal("the directory does not hold directory entries")),
        }
    }

    /// Follows the names of `path` from the directory whose first sector is `addr`, and
    /// gives the address of the first sector of what the path names.
    pub(crate) fn walk_from(&self, addr: u64, path: &Path) -> (result: FsResult<u64>)
        requires
            self.wf(),
        ensures
            answers(self.reliable(), kinded(result), m_walk_from(self.disk(), addr, path@)),
    {
        proof {
            reveal(m_walk_from);
        }
        let n = path.len();
        let mut cur = addr;
        let mut i: usize = 0;
        assert(path@.skip(0) =~= path@);
        while i < n
            invariant
                self.wf(),
                i <= n,
                n == path@.len(),
                m_walk_from(self.disk(), addr, path@) == m_walk_from(
                    self.disk(),
                    cur,
                    path@.skip(i as int),
                ),
            decreases n - i,
        {
            proof {
                reveal(m_walk_from);
            }
            let data = match self.read_dir_at_addr(cur) {
                Ok(data) => data,
                Err(e) => return Err(e),
            };
            proof {
                assert(path@.skip(i as int)[0] == path@[i as int]);
                assert(path@.skip(i as int).drop_first() =~= path@.skip(i + 1));
            }
            match find_entry(&data, path.get(i)) {
                Some(k) => {
                    cur = data[k].0;
                },
                None => {
                    return Err(FsError::NotFound);
                },
            }
            i += 1;
        }
        Ok(cur)
    }

    /// Follows the names of `path` from the root directory.
    pub(crate) fn walk(&self, path: &Path) -> (result: FsResult<u64>)
        requires
            self.wf(),
        ensures
            answers(self.reliable(), kinded(result), m_walk(self.disk(), path@)),
    {
        proof {
            reveal(m_walk);
        }
        let root = match self.root_sector() {
            Ok(root) => root,
            Err(e) => return Err(e),
        };
        self.walk_from(root.root, path)
    }

    /// Whether `path` names something of the given type.
    pub(crate) fn exists_as(&self, path: &Path, sector_type: SectorType) -> (result: FsResult<bool>)
        requires
            self.wf(),
        ensures
            answers(self.reliable(), kinded(result), m_exists(self.disk(), path@, sector_type)),
    {
        proof {
            reveal(m_exists);
        }
        match self.walk(path) {
            Err(FsError::NotFound) => Ok(false),
            Ok(addr) => {
                match self.read_sector_meta(addr) {
                    Ok(meta) => Ok(meta.sector_type == sector_type),
                    Err(e) => Err(e),
                }
            },
            Err(e) => Err(e),
        }
    }

    /// The position at the start of the file that `path` names.
    pub(crate) fn open(&self, path: &Path) -> (result: FsResult<FileProgress>)
        requires
            self.wf(),
        ensures
            answers(self.reliable(), kinded(result), m_open(self.disk(), path@)),
    {
        proof {
            reveal(m_open);
        }
        let addr = match self.walk(path) {
            Ok(addr) => addr,
            Err(e) => return Err(e),
        };
        let meta = match self.read_sector_meta(addr) {
            Ok(meta) => meta,
            Err(e) => return Err(e),
        };
        match meta.sector_type {
            SectorType::File => Ok(FileProgress { byte_offset: 0, head: addr, sector: addr }),
            _ => Err(FsError::illegal("cannot open what is not a file")),
        }
    }

    /// The names in the directory that `path` names.
    pub(crate) fn list(&self, path: &Path) -> (result: FsResult<Vec<Filename>>)
        requires
            self.wf(),
        ensures
            match result {
                Ok(names) => m_read_dir(self.disk(), path@) == Ok::<Seq<Seq<u8>>, ErrorKind>(
                    names_view(names@),
                ),
                Err(e) => answers(
                    self.reliable(),
                    Err::<Seq<Seq<u8>>, ErrorKind>(e.spec_kind()),
                    m_read_dir(self.disk(), path@),
                ),
            },
    {
        proof {
            reveal(m_read_dir);
        }
        let addr = match self.walk(path) {
            Ok(addr) => addr,
            Err(e) => return Err(e),
        };
        match self.read_dir_at_addr(addr) {
            Ok(data) => Ok(entry_names(&data)),
            Err(e) => Err(e),
        }
    }

    /// Opens the file that `path` names for reading.
    pub(crate) fn start_read(&self, path: &Path) -> (result: FsResult<ReadProgress>)
        requires
            self.wf(),
        ensures
            answers(self.reliable(), kinded(result), m_open_read(self.disk(), path@)),
    {
        proof {
            reveal(m_open_read);
        }
        let progress = match self.open(path) {
            Ok(progress) => progress,
            Err(e) => return Err(e),
        };
        match self.read_sector_meta(progress.head) {
            Ok(meta) => Ok(ReadProgress(progress, meta.size)),
            Err(e) => Err(e),
        }
    }

    /// Reads from an open file into `buffer`, from the position on, and moves the position
    /// behind what was read. Gives the number of bytes read: less than the buffer holds only
    /// where the file or its chain ends.
    pub(crate) fn read_file(&self, progress: &mut ReadProgress, buffer: &mut [u8]) -> (result: FsResult<usize>)
        requires
            self.wf(),
        ensures
            final(buffer)@.len() == old(buffer)@.len(),
            final(progress).1 == old(progress).1,
            old(progress).0.sector == 0 || old(buffer)@.len() == 0 || old(progress).0.byte_offset
                >= old(progress).1 ==> result is Ok,
            match result {
                Ok(n) => n <= old(buffer)@.len() && m_read(
                    self.disk(),
                    *old(progress),
                    old(buffer)@.len(),
                ) == Ok::<(FileProgress, Seq<u8>), ErrorKind>(
                    (final(progress).0, final(buffer)@.take(n as int)),
                ) && final(buffer)@.skip(n as int) == old(buffer)@.skip(n as int),
                Err(e) => answers(
                    self.reliable(),
                    Err::<(FileProgress, Seq<u8>), ErrorKind>(e.spec_kind()),
                    m_read(self.disk(), *old(progress), old(buffer)@.len()),
                ),
            },
    {
        proof {
            reveal(m_read);
            reveal(m_read_loop);
        }
        let size = progress.1;
        let want = buffer.len();
        if progress.0.sector == 0 {
            assert(buffer@.take(0) =~= Seq::<u8>::empty());
            return Ok(0);
        }
        let mut idx: usize = 0;
        assert(buffer@.take(0) =~= Seq::<u8>::empty());
        while idx < want && progress.0.byte_offset < size
            invariant
                self.wf(),
                idx <= want,
                want == buffer@.len(),
                want == old(buffer)@.len(),
                progress.1 == size,
                size == old(progress).1,
                old(progress).0.sector != 0,
                old(progress).0.byte_offset <= progress.0.byte_offset,
                buffer@.skip(idx as int) == old(buffer)@.skip(idx as int),
                m_read_loop(self.disk(), old(progress).0, size, want as nat, Seq::empty())
                    == m_read_loop(
                    self.disk(),
                    progress.0,
                    size,
                    (want - idx) as nat,
                    buffer@.take(idx as int),
                ),
            decreases want - idx,
        {
            proof {
                self.lemma_wf();
                reveal(m_read);
                reveal(m_read_loop);
            }
            let off = (progress.0.byte_offset % 4096) as usize;
            let to_end = 4096 - off;
            let to_buffer = want - idx;
            let to_eof = size - progress.0.byte_offset;
            let mut take = if to_end < to_buffer {
                to_end
            } else {
                to_buffer
            };
            if take as u64 > to_eof {
                take = to_eof as usize;
            }
            let meta = match self.read_sector_meta(progress.0.sector) {
                Ok(meta) => meta,
                Err(e) => return Err(e),
            };
            proof {
                lemma_meta_ok(self.disk(), progress.0.sector);
            }
            let block = match self.read_sector(progress.0.sector as usize) {
                Ok(block) => block,
                Err(e) => return Err(e),
            };
            let ghost before = buffer@;
            copy_offset(block.as_slice(), buffer, take, off, idx);
            proof {
                assert(buffer@.take(idx + take) =~= before.take(idx as int) + block@.subrange(
                    off as int,
                    off + take,
                ));
                assert(buffer@.skip(idx + take) =~= old(buffer)@.skip(idx + take)) by {
                    assert forall|k: int| 0 <= k < want - idx - take implies #[trigger] buffer@.skip(
                        idx + take,
                    )[k] == old(buffer)@.skip(idx + take)[k] by {
                        assert(before.skip(idx as int)[k + take] == old(buffer)@.skip(idx as int)[k
                            + take]);
                    }
                }
            }
            idx += take;
            progress.0.byte_offset = progress.0.byte_offset + take as u64;
            if off + take == 4096 {
                if meta.next == 0 {
                    progress.0.sector = 0;
                    return Ok(idx);
                } else {
                    progress.0.sector = meta.next;
                }
            }
        }
        Ok(idx)
    }

    /// Moves the position of an open file forward by `seeking` bytes. The sector of the new
    /// position is found from the first sector of the file; beyond the end of the chain it
    /// is the last sector.
    pub(crate) fn seek_file(&self, progress: &mut ReadProgress, seeking: usize) -> (result: FsResult<()>)
        requires
            self.wf(),
        ensures
            match result {
                Ok(()) => m_seek(self.disk(), *old(progress), seeking as nat) == Ok::<
                    ReadProgress,
                    ErrorKind,
                >(*final(progress)),
                Err(e) => *final(progress) == *old(progress) && answers(
                    self.reliable(),
                    Err::<ReadProgress, ErrorKind>(e.spec_kind()),
                    m_seek(self.disk(), *old(progress), seeking as nat),
                ),
            },
    {
        proof {
            reveal(m_seek);
            reveal(m_hop);
        }
        let target = progress.0.byte_offset.saturating_add(seeking as u64);
        let hops = target / 4096;
        let head = progress.0.head;
        let mut cur = head;
        let mut i: u64 = 0;
        while i < hops
            invariant_except_break
                m_hop(self.disk(), head, hops as nat) == m_hop(
                    self.disk(),
                    cur,
                    (hops - i) as nat,
                ),
            invariant
                self.wf(),
                i <= hops,
                i == hops ==> m_hop(self.disk(), head, hops as nat) == Ok::<u64, ErrorKind>(cur),
                *progress == *old(progress),
                head == old(progress).0.head,
                hops == target / 4096,
                target == (if old(progress).0.byte_offset + seeking > u64::MAX {
                    u64::MAX
                } else {
                    (old(progress).0.byte_offset + seeking) as u64
                }),
            ensures
                m_hop(self.disk(), head, hops as nat) == Ok::<u64, ErrorKind>(cur),
            decreases hops - i,
        {
            proof {
                reveal(m_seek);
                reveal(m_hop);
            }
            let meta = match self.read_sector_meta(cur) {
                Ok(meta) => meta,
                Err(e) => return Err(e),
            };
            if meta.next == 0 {
                break;
            }
            cur = meta.next;
            i += 1;
        }
        progress.0.sector = cur;
        progress.0.byte_offset = target;
        Ok(())
    }
}

} // verus!
