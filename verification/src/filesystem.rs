use vstd::prelude::*;
use crate::block::RWBlockDevice;
use crate::bytes::names_view;
use crate::error::{ErrorKind, FsResult};
use crate::path::{Filename, Path};

verus! {

/// What an operation gives, without the detail text of an error.
pub type Answer<T> = Result<T, ErrorKind>;

/// A result without the detail text of its error.
pub open spec fn answer_of<T>(result: FsResult<T>) -> Answer<T> {
    match result {
        Ok(value) => Ok(value),
        Err(e) => Err(e.spec_kind()),
    }
}

/// A list of names as values, without the detail text of an error.
pub open spec fn names_answer(result: FsResult<Vec<Filename>>) -> Answer<Seq<Seq<u8>>> {
    match result {
        Ok(names) => Ok(names_view(names@)),
        Err(e) => Err(e.spec_kind()),
    }
}

/// What every file system can do: list a directory, and say whether a path names a
/// directory or a file.
///
/// For each operation the file system says, by a predicate over its state, which answers
/// the operation may give.
pub trait BaseFileSystem {
    /// The invariant of the file system.
    spec fn fs_wf(&self) -> bool;

    /// Whether `answer` is what listing the directory at `path` may give.
    spec fn read_dir_answer(&self, path: Seq<Seq<u8>>, answer: Answer<Seq<Seq<u8>>>) -> bool;

    /// Whether `answer` is what asking for a directory at `path` may give.
    spec fn exists_dir_answer(&self, path: Seq<Seq<u8>>, answer: Answer<bool>) -> bool;

    /// Whether `answer` is what asking for a file at `path` may give.
    spec fn exists_file_answer(&self, path: Seq<Seq<u8>>, answer: Answer<bool>) -> bool;

    /// The names in the directory at `path`.
    fn read_dir(&self, path: Path) -> (result: FsResult<Vec<Filename>>)
        requires
            self.fs_wf(),
        ensures
            self.read_dir_answer(path@, names_answer(result)),
    ;

    /// Whether `path` names a directory.
    fn exists_dir(&self, path: Path) -> (result: FsResult<bool>)
        requires
            self.fs_wf(),
        ensures
            self.exists_dir_answer(path@, answer_of(result)),
    ;

    /// Whether `path` names a file.
    fn exists_file(&self, path: Path) -> (result: FsResult<bool>)
        requires
            self.fs_wf(),
        ensures
            self.exists_file_answer(path@, answer_of(result)),
    ;
}

/// A file system on a block device, which can be put there and taken from there.
pub trait MountedFileSystem<B: RWBlockDevice>: BaseFileSystem + Sized {
    /// The blocks of the device that the file system is on.
    spec fn mounted_blocks(&self) -> Seq<Seq<u8>>;

    /// The name of the file system, as text.
    spec fn spec_name() -> Seq<char>;

    /// The name of the file system.
    fn name() -> (name: &'static str)
        ensures
            name@ == Self::spec_name(),
    ;

    /// Whether `result` is what taking `device` may give: on which devices the file system
    /// is found, and what comes back where it is not.
    spec fn mount_answer(device: &B, result: Result<Self, B>) -> bool;

    /// Whether `result` is what writing an empty file system onto `device` may give: which
    /// devices can be formatted, and what they hold afterwards.
    spec fn format_answer(device: &B, result: Result<Self, B>) -> bool;

    /// Takes a device that holds a file system; the device comes back where it holds none.
    fn mount(device: B) -> (result: Result<Self, B>)
        requires
            device.dev_wf(),
        ensures
            match result {
                Ok(fs) => fs.fs_wf() && fs.mounted_blocks() == device.blocks_view(),
                Err(back) => back == device,
            },
            Self::mount_answer(&device, result),
    ;

    /// Writes an empty file system onto a device; the device comes back where that fails.
    fn format(device: B) -> (result: Result<Self, B>)
        requires
            device.dev_wf(),
        ensures
            match result {
                Ok(fs) => fs.fs_wf(),
                Err(back) => back.dev_wf(),
            },
            Self::format_answer(&device, result),
    ;

    /// Gives the device back.
    fn inner(self) -> (device: B)
        requires
            self.fs_wf(),
        ensures
            device.dev_wf(),
            device.blocks_view() == self.mounted_blocks(),
    ;
}

/// A file system whose files can be read.
pub trait ReadFileSystem: BaseFileSystem {
    /// The position in a file that is being read.
    type ReadProgress;

    /// Whether `answer` is what opening the file at `path` for reading may give.
    spec fn open_read_answer(&self, path: Seq<Seq<u8>>, answer: Answer<Self::ReadProgress>) -> bool;

    /// Whether reading up to `want` bytes at `before` may give `answer`: the position after
    /// the read and the bytes read.
    spec fn read_answer(
        &self,
        before: Self::ReadProgress,
        want: nat,
        answer: Answer<(Self::ReadProgress, Seq<u8>)>,
    ) -> bool;

    /// Whether moving the position `before` forward by `seek` bytes may give `answer`.
    spec fn seek_answer(&self, before: Self::ReadProgress, seek: nat, answer: Answer<Self::ReadProgress>) -> bool;

    /// Opens a file for reading.
    fn open_read(&self, path: Path) -> (result: FsResult<Self::ReadProgress>)
        requires
            self.fs_wf(),
        ensures
            self.open_read_answer(path@, answer_of(result)),
    ;

    /// Reads from the position on into `buffer` and gives the number of bytes read, which
    /// fill the front of the buffer. The rest of the buffer is as before.
    fn read(&self, progress: &mut Self::ReadProgress, buffer: &mut [u8]) -> (result: FsResult<usize>)
        requires
            self.fs_wf(),
        ensures
            final(buffer)@.len() == old(buffer)@.len(),
            match result {
                Ok(n) => n <= old(buffer)@.len() && final(buffer)@.skip(n as int) == old(buffer)@.skip(n as int) && self.read_answer(
                    *old(progress),
                    old(buffer)@.len(),
                    Ok((*final(progress), final(buffer)@.take(n as int))),
                ),
                Err(e) => self.read_answer(
                    *old(progress),
                    old(buffer)@.len(),
                    Err(e.spec_kind()),
                ),
            },
    ;

    /// Moves the position forward.
    fn seek(&self, progress: &mut Self::ReadProgress, seek: usize) -> (result: FsResult<()>)
        requires
            self.fs_wf(),
        ensures
            match result {
                Ok(()) => self.seek_answer(*old(progress), seek as nat, Ok(*final(progress))),
                Err(e) => self.seek_answer(*old(progress), seek as nat, Err(e.spec_kind())),
            },
    ;
}

/// A file system whose files can be written.
pub trait WriteFileSystem: BaseFileSystem {
    /// The position in a file that is being written.
    type WriteProgress;

    /// Whether opening the file at `path` for writing may lead from this state to `after`
    /// with `answer`.
    spec fn open_write_effect(&self, after: &Self, path: Seq<Seq<u8>>, answer: Answer<Self::WriteProgress>) -> bool;

    /// Whether writing `data` at `before` may lead from this state to `after` with `answer`:
    /// the position after the write.
    spec fn write_effect(
        &self,
        after: &Self,
        before: Self::WriteProgress,
        data: Seq<u8>,
        answer: Answer<Self::WriteProgress>,
    ) -> bool;

    /// Opens a file for writing.
    fn open_write(&mut self, path: Path) -> (result: FsResult<Self::WriteProgress>)
        requires
            old(self).fs_wf(),
        ensures
            final(self).fs_wf(),
            old(self).open_write_effect(final(self), path@, answer_of(result)),
    ;

    /// Writes `buffer` at the position and moves the position behind it.
    fn write(&mut self, progress: &mut Self::WriteProgress, buffer: &[u8]) -> (result: FsResult<()>)
        requires
            old(self).fs_wf(),
        ensures
            final(self).fs_wf(),
            old(self).write_effect(
                final(self),
                *old(progress),
                buffer@,
                match result {
                    Ok(()) => Ok(*final(progress)),
                    Err(e) => Err(e.spec_kind()),
                },
            ),
    ;
}

/// A file system whose files and directories can be created and removed.
pub trait ManageFileSystem: BaseFileSystem {
    /// Whether deleting what `path` names may lead from this state to `after` with `answer`.
    spec fn delete_effect(&self, after: &Self, path: Seq<Seq<u8>>, answer: Answer<()>) -> bool;

    /// Whether emptying what `path` names may lead from this state to `after` with `answer`.
    spec fn clear_effect(&self, after: &Self, path: Seq<Seq<u8>>, answer: Answer<()>) -> bool;

    /// Whether creating a file at `path` may lead from this state to `after` with `answer`.
    spec fn create_file_effect(&self, after: &Self, path: Seq<Seq<u8>>, answer: Answer<()>) -> bool;

    /// Whether creating a directory at `path` may lead from this state to `after` with `answer`.
    spec fn create_dir_effect(&self, after: &Self, path: Seq<Seq<u8>>, answer: Answer<()>) -> bool;

    /// Deletes a file, or a directory with everything in it.
    fn delete(&mut self, path: Path) -> (result: FsResult<()>)
        requires
            old(self).fs_wf(),
        ensures
            final(self).fs_wf(),
            old(self).delete_effect(final(self), path@, answer_of(result)),
    ;

    /// Empties a file or a directory.
    fn clear(&mut self, path: Path) -> (result: FsResult<()>)
        requires
            old(self).fs_wf(),
        ensures
            final(self).fs_wf(),
            old(self).clear_effect(final(self), path@, answer_of(result)),
    ;

    /// Creates an empty file.
    fn create_file(&mut self, path: Path) -> (result: FsResult<()>)
        requires
            old(self).fs_wf(),
        ensures
            final(self).fs_wf(),
            old(self).create_file_effect(final(self), path@, answer_of(result)),
    ;

    /// Creates an empty directory.
    fn create_dir(&mut self, path: Path) -> (result: FsResult<()>)
        requires
            old(self).fs_wf(),
        ensures
            final(self).fs_wf(),
            old(self).create_dir_effect(final(self), path@, answer_of(result)),
    ;
}

/// A file system that can be read, written and managed.
pub trait FunctionalFileSystem: ReadFileSystem + WriteFileSystem + ManageFileSystem {
}

impl<FS> FunctionalFileSystem for FS where FS: ReadFileSystem + WriteFileSystem + ManageFileSystem {
}

/// A file system that can be read, written and managed, and lives on a block device.
pub trait CompleteFileSystem<B: RWBlockDevice>: FunctionalFileSystem + MountedFileSystem<B> {
}

impl<FS, B> CompleteFileSystem<B> for FS where FS: FunctionalFileSystem + MountedFileSystem<B>, B: RWBlockDevice {
}

} // verus!
