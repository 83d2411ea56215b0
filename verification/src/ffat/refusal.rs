use vstd::prelude::*;
use crate::block::RWBlockDevice;
use crate::error::{ErrorKind, FsError, FsResult};
use crate::ffat::dir::{find_entry, position};
use crate::ffat::model::{
    answers, kinded, m_clear, m_create, m_create_dir, m_create_file, m_delete,
    m_delete_children, m_delete_each, m_meta, m_open, m_open_write, m_read_dir_at, m_walk,
    m_write, m_write_loop, min2, Answer, Disk,
};
use crate::ffat::structs::{Sector, SectorType, WriteProgress};
use crate::ffat::FFAT;
use crate::path::Path;

verus! {

/// The answer of a check that finds an operation refused, or lets it go on.
pub open spec fn refused(refusal: Option<ErrorKind>) -> Answer<()> {
    match refusal {
        Some(e) => Err(e),
        None => Ok(()),
    }
}

/// The error with which creating `path` ends before anything is written: the root cannot be
/// created, the parent has to be a directory that can be read, and the name has to be new
/// there and to fit an entry.
pub open spec fn create_refusal(d: Disk, path: Seq<Seq<u8>>) -> Option<ErrorKind> {
    if path.len() == 0 {
        Some(ErrorKind::IllegalOperation)
    } else {
        match m_walk(d, path.drop_last()) {
            Err(e) => Some(e),
            Ok(parent) => match m_read_dir_at(d, parent) {
                Err(e) => Some(e),
                Ok(entries) => if position(entries, path.last()) is Some || path.last().len()
                    > 255 {
                    Some(ErrorKind::IllegalOperation)
                } else {
                    None
                },
            },
        }
    }
}

/// The error with which opening `path` for writing ends before anything is written: the
/// path has to lead to a file.
pub open spec fn open_write_refusal(d: Disk, path: Seq<Seq<u8>>) -> Option<ErrorKind> {
    match m_open(d, path) {
        Err(e) => Some(e),
        Ok(_) => None,
    }
}

/// The error with which deleting `path` ends before anything is written: the root cannot be
/// deleted, and the path has to lead to a sector with an entry in the table.
pub open spec fn delete_refusal(d: Disk, path: Seq<Seq<u8>>) -> Option<ErrorKind> {
    if path.len() == 0 {
        Some(ErrorKind::IllegalOperation)
    } else {
        match m_walk(d, path) {
            Err(e) => Some(e),
            Ok(addr) => match m_meta(d, addr) {
                Err(e) => Some(e),
                Ok(_) => None,
            },
        }
    }
}

/// The error with which emptying `path` ends before anything is written: the path has to
/// lead to a file or a directory.
pub open spec fn clear_refusal(d: Disk, path: Seq<Seq<u8>>) -> Option<ErrorKind> {
    match m_walk(d, path) {
        Err(e) => Some(e),
        Ok(addr) => match m_meta(d, addr) {
            Err(e) => Some(e),
            Ok(entry) => if entry.sector_type == SectorType::Dir || entry.sector_type
                == SectorType::File {
                None
            } else {
                Some(ErrorKind::IllegalOperation)
            },
        },
    }
}

/// The error with which writing `data` at a position ends before anything is written: the
/// sector of the position (the first sector of the file, where there is nothing to write)
/// has to have an entry in the table, and the position after the first sector written has to
/// fit a `u64`.
pub open spec fn write_refusal(d: Disk, progress: WriteProgress, data: Seq<u8>) -> Option<
    ErrorKind,
> {
    if data.len() == 0 {
        match m_meta(d, progress.0.head) {
            Err(e) => Some(e),
            Ok(_) => None,
        }
    } else {
        match m_meta(d, progress.0.sector) {
            Err(e) => Some(e),
            Ok(_) => if progress.0.byte_offset + min2(
                4096 - progress.0.byte_offset % 4096,
                data.len() as int,
            ) > u64::MAX {
                Some(ErrorKind::InternalError)
            } else {
                None
            },
        }
    }
}

/// Creating ends with the error of its refusal, and leaves the volume as it was.
pub proof fn law_create_refused(d: Disk, path: Seq<Seq<u8>>, meta: Sector)
    requires
        create_refusal(d, path) is Some,
    ensures
        m_create(d, path, meta) == (d, Err::<u64, ErrorKind>(create_refusal(d, path).unwrap())),
        m_create_file(d, path) == (d, Err::<(), ErrorKind>(create_refusal(d, path).unwrap())),
        m_create_dir(d, path) == (d, Err::<(), ErrorKind>(create_refusal(d, path).unwrap())),
{
    reveal(m_create);
    reveal(m_create_file);
    reveal(m_create_dir);
}

/// Opening for writing ends with the error of its refusal, and leaves the volume as it was.
pub proof fn law_open_write_refused(d: Disk, path: Seq<Seq<u8>>)
    requires
        open_write_refusal(d, path) is Some,
    ensures
        m_open_write(d, path) == (
            d,
            Err::<WriteProgress, ErrorKind>(open_write_refusal(d, path).unwrap()),
        ),
{
    reveal(m_open_write);
}

/// Deleting ends with the error of its refusal, and leaves the volume as it was.
pub proof fn law_delete_refused(d: Disk, path: Seq<Seq<u8>>, fuel: nat)
    requires
        delete_refusal(d, path) is Some,
    ensures
        m_delete(d, path, fuel) == (d, Err::<(), ErrorKind>(delete_refusal(d, path).unwrap())),
{
    reveal(m_delete);
    reveal(m_delete_children);
    reveal(m_delete_each);
}

/// Emptying ends with the error of its refusal, and leaves the volume as it was.
pub proof fn law_clear_refused(d: Disk, path: Seq<Seq<u8>>)
    requires
        clear_refusal(d, path) is Some,
    ensures
        m_clear(d, path) == (d, Err::<(), ErrorKind>(clear_refusal(d, path).unwrap())),
{
    reveal(m_clear);
}

/// Writing ends with the error of its refusal, and leaves the volume as it was.
pub proof fn law_write_refused(d: Disk, progress: WriteProgress, data: Seq<u8>)
    requires
        write_refusal(d, progress, data) is Some,
    ensures
        m_write(d, progress, data) == (
            d,
            Err::<WriteProgress, ErrorKind>(write_refusal(d, progress, data).unwrap()),
        ),
{
    reveal(m_write);
    reveal(m_write_loop);
}

/// What leads nowhere cannot be opened for writing, emptied or deleted: each is refused with
/// a not-found error, whether or not the device takes writes.
pub proof fn law_missing_is_refused(d: Disk, path: Seq<Seq<u8>>)
    requires
        m_walk(d, path) == Err::<u64, ErrorKind>(ErrorKind::NotFound),
    ensures
        open_write_refusal(d, path) == Some(ErrorKind::NotFound),
        clear_refusal(d, path) == Some(ErrorKind::NotFound),
        path.len() > 0 ==> delete_refusal(d, path) == Some(ErrorKind::NotFound),
{
    reveal(m_open);
}

/// Nothing can be created in a directory that is not there: it is refused with a not-found
/// error, whether or not the device takes writes.
pub proof fn law_missing_parent_is_refused(d: Disk, path: Seq<Seq<u8>>)
    requires
        path.len() > 0,
        m_walk(d, path.drop_last()) == Err::<u64, ErrorKind>(ErrorKind::NotFound),
    ensures
        create_refusal(d, path) == Some(ErrorKind::NotFound),
{
}

impl<B: RWBlockDevice> FFAT<B> {
    /// Whether creating `path` is refused before anything is written. The root is refused
    /// without a look at the device.
    pub(crate) fn refuse_create(&self, path: &Path) -> (result: FsResult<()>)
        requires
            self.wf(),
        ensures
            answers(self.reliable(), kinded(result), refused(create_refusal(self.disk(), path@))),
            path@.len() == 0 ==> kinded(result) == Err::<(), ErrorKind>(
                ErrorKind::IllegalOperation,
            ),
    {
        let parent = match path.parent_dir() {
            Some(parent) => parent,
            None => return Err(FsError::illegal("cannot create the root directory")),
        };
        let filename = match path.name() {
            Some(name) => name,
            None => return Err(FsError::illegal("cannot create the root directory")),
        };
        let parent_addr = match self.walk(&parent) {
            Ok(addr) => addr,
            Err(e) => return Err(e),
        };
        let dir_data = match self.read_dir_at_addr(parent_addr) {
            Ok(data) => data,
            Err(e) => return Err(e),
        };
        match find_entry(&dir_data, &filename) {
            Some(_) => return Err(
                FsError::illegal("a file or directory with this name already exists"),
            ),
            None => {},
        }
        if filename.len() > 255 {
            return Err(FsError::illegal("the name is longer than 255 bytes"));
        }
        Ok(())
    }

    /// Whether opening `path` for writing is refused before anything is written.
    pub(crate) fn refuse_open_write(&self, path: &Path) -> (result: FsResult<()>)
        requires
            self.wf(),
        ensures
            answers(
                self.reliable(),
                kinded(result),
                refused(open_write_refusal(self.disk(), path@)),
            ),
    {
        match self.open(path) {
            Ok(_) => Ok(()),
            Err(e) => Err(e),
        }
    }

    /// Whether deleting `path` is refused before anything is written. The root is refused
    /// without a look at the device.
    pub(crate) fn refuse_delete(&self, path: &Path) -> (result: FsResult<()>)
        requires
            self.wf(),
        ensures
            answers(self.reliable(), kinded(result), refused(delete_refusal(self.disk(), path@))),
            path@.len() == 0 ==> kinded(result) == Err::<(), ErrorKind>(
                ErrorKind::IllegalOperation,
            ),
    {
        if path.is_root() {
            return Err(FsError::illegal("cannot delete the root directory"));
        }
        let addr = match self.walk(path) {
            Ok(addr) => addr,
            Err(e) => return Err(e),
        };
        match self.read_sector_meta(addr) {
            Ok(_) => Ok(()),
            Err(e) => Err(e),
        }
    }

    /// Whether emptying `path` is refused before anything is written.
    pub(crate) fn refuse_clear(&self, path: &Path) -> (result: FsResult<()>)
        requires
            self.wf(),
        ensures
            answers(self.reliable(), kinded(result), refused(clear_refusal(self.disk(), path@))),
    {
        let addr = match self.walk(path) {
            Ok(addr) => addr,
            Err(e) => return Err(e),
        };
        let meta = match self.read_sector_meta(addr) {
            Ok(meta) => meta,
            Err(e) => return Err(e),
        };
        match meta.sector_type {
            SectorType::Dir => Ok(()),
            SectorType::File => Ok(()),
            _ => Err(FsError::illegal("only files and directories can be cleared")),
        }
    }

    /// Whether writing `buffer` at a position is refused before anything is written.
    pub(crate) fn refuse_write(&self, progress: &WriteProgress, buffer: &[u8]) -> (result:
        FsResult<()>)
        requires
            self.wf(),
        ensures
            answers(
                self.reliable(),
                kinded(result),
                refused(write_refusal(self.disk(), *progress, buffer@)),
            ),
    {
        let len = buffer.len();
        if len == 0 {
            return match self.read_sector_meta(progress.0.head) {
                Ok(_) => Ok(()),
                Err(e) => Err(e),
            };
        }
        match self.read_sector_meta(progress.0.sector) {
            Ok(_) => {},
            Err(e) => return Err(e),
        }
        let off = (progress.0.byte_offset % 4096) as usize;
        let to_end = 4096 - off;
        let take = if to_end < len {
            to_end
        } else {
            len
        };
        if progress.0.byte_offset > u64::MAX - take as u64 {
            return Err(FsError::internal("the file is larger than a size can say"));
        }
        Ok(())
    }
}

} // verus!
