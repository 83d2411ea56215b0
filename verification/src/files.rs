use std::collections::BTreeMap;
use vstd::prelude::*;
use crate::bytes::{bytes_eq, names_view};
use crate::error::{ErrorKind, FsError, FsResult};
use crate::filesystem::{answer_of, names_answer, Answer, FunctionalFileSystem};
use crate::path::{Filename, Path};

verus! {

broadcast use {vstd::laws_cmp::group_laws_cmp, vstd::std_specs::btree::group_btree_axioms};

/// The error for a descriptor that is not open.
pub fn no_such_fd<T>() -> (result: FsResult<T>)
    ensures
        result matches Err(e) && e.spec_kind() == ErrorKind::IllegalOperation,
{
    Err(FsError::illegal("no such file descriptor"))
}

/// Whether some name occurs in both lists.
pub open spec fn spec_names_conflict(a: Seq<Seq<u8>>, b: Seq<Seq<u8>>) -> bool {
    exists|i: int, j: int| 0 <= i < a.len() && 0 <= j < b.len() && a[i] == b[j]
}

/// Whether some name occurs in both lists.
pub fn names_conflict(a: &Vec<Filename>, b: &Vec<Filename>) -> (conflict: bool)
    ensures
        conflict == spec_names_conflict(names_view(a@), names_view(b@)),
{
    let mut i: usize = 0;
    while i < a.len()
        invariant
            i <= a.len(),
            forall|x: int, y: int| 0 <= x < i && 0 <= y < b@.len() ==> a@[x]@ != b@[y]@,
        decreases a.len() - i,
    {
        let mut j: usize = 0;
        while j < b.len()
            invariant
                i < a.len(),
                j <= b.len(),
                forall|y: int| 0 <= y < j ==> a@[i as int]@ != b@[y]@,
            decreases b.len() - j,
        {
            if bytes_eq(&a[i], &b[j]) {
                assert(names_view(a@)[i as int] == names_view(b@)[j as int]);
                return true;
            }
            j += 1;
        }
        i += 1;
    }
    assert(!spec_names_conflict(names_view(a@), names_view(b@))) by {
        if spec_names_conflict(names_view(a@), names_view(b@)) {
            let (x, y) = choose|x: int, y: int|
                0 <= x < a@.len() && 0 <= y < b@.len() && names_view(a@)[x] == names_view(b@)[y];
            assert(a@[x]@ != b@[y]@);
        }
    }
    false
}

/// A file system in the namespace: where it is attached, and the positions of the files
/// that are open on it, by descriptor.
pub struct AttachedFileSystem<T: FunctionalFileSystem> {
    /// The file system.
    pub fs: T,
    /// The path at which the root of the file system appears.
    pub attach_point: Path,
    /// The files that are open for reading.
    pub files_read: BTreeMap<i64, T::ReadProgress>,
    /// The files that are open for writing.
    pub files_write: BTreeMap<i64, T::WriteProgress>,
}

impl<T: FunctionalFileSystem> AttachedFileSystem<T> {
    /// The invariant: that of the file system.
    pub open spec fn wf(&self) -> bool {
        self.fs.fs_wf()
    }

    /// Whether opening `path` for reading under `fd` may lead from this state to `after`
    /// with `answer`: the file system is asked, and where it opens the file, the position
    /// is kept under `fd`.
    pub open spec fn open_read_effect(&self, after: &Self, fd: i64, path: Seq<Seq<u8>>, answer: Answer<()>) -> bool {
        &&& after.fs == self.fs
        &&& after.attach_point@ == self.attach_point@
        &&& after.files_write@ == self.files_write@
        &&& match answer {
            Ok(()) => exists|p: T::ReadProgress|
                self.fs.open_read_answer(path, Ok(p)) && after.files_read@
                    == self.files_read@.insert(fd, p),
            Err(kind) => self.fs.open_read_answer(path, Err(kind)) && after.files_read@
                == self.files_read@,
        }
    }

    /// Whether opening `path` for writing under `fd` may lead from this state to `after`
    /// with `answer`.
    pub open spec fn open_write_effect(&self, after: &Self, fd: i64, path: Seq<Seq<u8>>, answer: Answer<()>) -> bool {
        &&& after.attach_point@ == self.attach_point@
        &&& after.files_read@ == self.files_read@
        &&& match answer {
            Ok(()) => exists|p: T::WriteProgress|
                self.fs.open_write_effect(&after.fs, path, Ok(p)) && after.files_write@
                    == self.files_write@.insert(fd, p),
            Err(kind) => self.fs.open_write_effect(&after.fs, path, Err(kind))
                && after.files_write@ == self.files_write@,
        }
    }

    /// Whether reading up to `want` bytes from `fd` may lead from this state to `after`
    /// with `answer`, the bytes read. A descriptor that is not open for reading here is an
    /// illegal operation.
    pub open spec fn read_effect(&self, after: &Self, fd: i64, want: nat, answer: Answer<Seq<u8>>) -> bool {
        &&& after.fs == self.fs
        &&& after.attach_point@ == self.attach_point@
        &&& after.files_write@ == self.files_write@
        &&& if self.files_read@.contains_key(fd) {
            exists|p: T::ReadProgress|
                after.files_read@ == self.files_read@.insert(fd, p) && match answer {
                    Ok(bytes) => self.fs.read_answer(self.files_read@[fd], want, Ok((p, bytes))),
                    Err(kind) => self.fs.read_answer(self.files_read@[fd], want, Err(kind)),
                }
        } else {
            answer == Err::<Seq<u8>, ErrorKind>(ErrorKind::IllegalOperation) && after.files_read@
                == self.files_read@
        }
    }

    /// Whether moving the position of `fd` forward may lead from this state to `after` with
    /// `answer`.
    pub open spec fn seek_effect(&self, after: &Self, fd: i64, seek: nat, answer: Answer<()>) -> bool {
        &&& after.fs == self.fs
        &&& after.attach_point@ == self.attach_point@
        &&& after.files_write@ == self.files_write@
        &&& if self.files_read@.contains_key(fd) {
            exists|p: T::ReadProgress|
                after.files_read@ == self.files_read@.insert(fd, p) && match answer {
                    Ok(()) => self.fs.seek_answer(self.files_read@[fd], seek, Ok(p)),
                    Err(kind) => self.fs.seek_answer(self.files_read@[fd], seek, Err(kind)),
                }
        } else {
            answer == Err::<(), ErrorKind>(ErrorKind::IllegalOperation) && after.files_read@
                == self.files_read@
        }
    }

    /// Whether writing `data` to `fd` may lead from this state to `after` with `answer`.
    pub open spec fn write_effect(&self, after: &Self, fd: i64, data: Seq<u8>, answer: Answer<()>) -> bool {
        &&& after.attach_point@ == self.attach_point@
        &&& after.files_read@ == self.files_read@
        &&& if self.files_write@.contains_key(fd) {
            exists|p: T::WriteProgress|
                after.files_write@ == self.files_write@.insert(fd, p) && match answer {
                    Ok(()) => self.fs.write_effect(&after.fs, self.files_write@[fd], data, Ok(p)),
                    Err(kind) => self.fs.write_effect(
                        &after.fs,
                        self.files_write@[fd],
                        data,
                        Err(kind),
                    ),
                }
        } else {
            answer == Err::<(), ErrorKind>(ErrorKind::IllegalOperation) && after.files_write@
                == self.files_write@ && after.fs == self.fs
        }
    }

    /// A file system attached at `attach_point`, with no file open.
    pub fn new(fs: T, attach_point: Path) -> (attached: Self)
        ensures
            attached.fs == fs,
            attached.attach_point@ == attach_point@,
            attached.files_read@ == Map::<i64, T::ReadProgress>::empty(),
            attached.files_write@ == Map::<i64, T::WriteProgress>::empty(),
    {
        AttachedFileSystem {
            fs,
            attach_point,
            files_read: BTreeMap::new(),
            files_write: BTreeMap::new(),
        }
    }

    /// Opens a file for reading and keeps its position under `fd`.
    pub fn open_read(&mut self, fd: i64, path: Path) -> (result: FsResult<()>)
        requires
            old(self).wf(),
        ensures
            final(self).wf(),
            old(self).open_read_effect(final(self), fd, path@, answer_of(result)),
    {
        match self.fs.open_read(path) {
            Ok(progress) => {
                self.files_read.insert(fd, progress);
                Ok(())
            },
            Err(e) => Err(e),
        }
    }

    /// Opens a file for writing and keeps its position under `fd`.
    pub fn open_write(&mut self, fd: i64, path: Path) -> (result: FsResult<()>)
        requires
            old(self).wf(),
        ensures
            final(self).wf(),
            old(self).open_write_effect(final(self), fd, path@, answer_of(result)),
    {
        match self.fs.open_write(path) {
            Ok(progress) => {
                self.files_write.insert(fd, progress);
                Ok(())
            },
            Err(e) => Err(e),
        }
    }

    /// Reads from the file that is open for reading under `fd`.
    pub fn read(&mut self, fd: i64, buffer: &mut [u8]) -> (result: FsResult<usize>)
        requires
            old(self).wf(),
        ensures
            final(self).wf(),
            final(buffer)@.len() == old(buffer)@.len(),
            match result {
                Ok(n) => n <= old(buffer)@.len() && final(buffer)@.skip(n as int) == old(buffer)@.skip(n as int) && old(self).read_effect(
                    final(self),
                    fd,
                    old(buffer)@.len(),
                    Ok(final(buffer)@.take(n as int)),
                ),
                Err(e) => old(self).read_effect(
                    final(self),
                    fd,
                    old(buffer)@.len(),
                    Err(e.spec_kind()),
                ),
            },
    {
        match self.files_read.remove(&fd) {
            None => {
                assert(self.files_read@ =~= old(self).files_read@);
                no_such_fd()
            },
            Some(mut progress) => {
                let result = self.fs.read(&mut progress, buffer);
                self.files_read.insert(fd, progress);
                assert(self.files_read@ =~= old(self).files_read@.insert(fd, progress));
                result
            },
        }
    }

    /// Writes to the file that is open for writing under `fd`.
    pub fn write(&mut self, fd: i64, buffer: &[u8]) -> (result: FsResult<()>)
        requires
            old(self).wf(),
        ensures
            final(self).wf(),
            old(self).write_effect(final(self), fd, buffer@, answer_of(result)),
    {
        match self.files_write.remove(&fd) {
            None => {
                assert(self.files_write@ =~= old(self).files_write@);
                no_such_fd()
            },
            Some(mut progress) => {
                let result = self.fs.write(&mut progress, buffer);
                self.files_write.insert(fd, progress);
                assert(self.files_write@ =~= old(self).files_write@.insert(fd, progress));
                result
            },
        }
    }

    /// Moves the position of the file that is open for reading under `fd` forward.
    pub fn seek(&mut self, fd: i64, seek: usize) -> (result: FsResult<()>)
        requires
            old(self).wf(),
        ensures
            final(self).wf(),
            old(self).seek_effect(final(self), fd, seek as nat, answer_of(result)),
    {
        match self.files_read.remove(&fd) {
            None => {
                assert(self.files_read@ =~= old(self).files_read@);
                no_such_fd()
            },
            Some(mut progress) => {
                let result = self.fs.seek(&mut progress, seek);
                self.files_read.insert(fd, progress);
                assert(self.files_read@ =~= old(self).files_read@.insert(fd, progress));
                result
            },
        }
    }

    /// Forgets the positions kept under `fd`.
    pub fn close(&mut self, fd: i64)
        ensures
            final(self).fs == old(self).fs,
            final(self).attach_point@ == old(self).attach_point@,
            final(self).files_read@ == old(self).files_read@.remove(fd),
            final(self).files_write@ == old(self).files_write@.remove(fd),
    {
        self.files_read.remove(&fd);
        self.files_write.remove(&fd);
    }
}

/// Whether the file system at index `i` of `volumes` holds `path`: it is attached, and its
/// attach point is a prefix of the path.
pub open spec fn holds<T: FunctionalFileSystem>(
    volumes: Seq<Option<AttachedFileSystem<T>>>,
    i: int,
    path: Seq<Seq<u8>>,
) -> bool {
    0 <= i < volumes.len() && volumes[i] is Some && volumes[i].unwrap().attach_point@.is_prefix_of(
        path,
    )
}

/// The length of the attach point of the file system at index `i`.
pub open spec fn attach_len<T: FunctionalFileSystem>(
    volumes: Seq<Option<AttachedFileSystem<T>>>,
    i: int,
) -> nat {
    volumes[i].unwrap().attach_point@.len()
}

/// The index, among the first `upto` file systems, of the one that `path` goes to, if any
/// holds it: the one with the longest attach point, and of several with attach points of
/// that length the first.
pub open spec fn best<T: FunctionalFileSystem>(
    volumes: Seq<Option<AttachedFileSystem<T>>>,
    path: Seq<Seq<u8>>,
    upto: int,
) -> Option<int>
    decreases upto,
{
    if upto <= 0 {
        None
    } else {
        let before = best(volumes, path, upto - 1);
        if holds(volumes, upto - 1, path) && (before is None || attach_len(volumes, before.unwrap())
            < attach_len(volumes, upto - 1)) {
            Some(upto - 1)
        } else {
            before
        }
    }
}

/// The file system that a path goes to holds it, and no file system that holds the path
/// has a longer attach point, nor an earlier one an attach point as long. Where the path
/// goes nowhere, no file system holds it.
pub proof fn lemma_best<T: FunctionalFileSystem>(
    volumes: Seq<Option<AttachedFileSystem<T>>>,
    path: Seq<Seq<u8>>,
    upto: int,
)
    requires
        0 <= upto <= volumes.len(),
    ensures
        match best(volumes, path, upto) {
            Some(i) => 0 <= i < upto && holds(volumes, i, path) && forall|j: int|
                0 <= j < upto && #[trigger] holds(volumes, j, path) ==> attach_len(volumes, j)
                    < attach_len(volumes, i) || (attach_len(volumes, j) == attach_len(volumes, i)
                    && i <= j),
            None => forall|j: int| 0 <= j < upto ==> !#[trigger] holds(volumes, j, path),
        },
    decreases upto,
{
    if upto > 0 {
        lemma_best(volumes, path, upto - 1);
    }
}

/// The namespace: the attached file systems, the next descriptor, and for every open
/// descriptor the index of the file system that it belongs to.
pub struct RootFileSystem<T: FunctionalFileSystem> {
    /// The attached file systems, in the order of their attachment. A detached file system
    /// leaves its place empty, so that indices stay what they were.
    pub file_systems: Vec<Option<AttachedFileSystem<T>>>,
    /// The next descriptor that is handed out.
    pub next_fd: i64,
    /// The descriptors that were opened for reading.
    pub files_read: BTreeMap<i64, usize>,
    /// The descriptors that were opened for writing.
    pub files_write: BTreeMap<i64, usize>,
}

impl<T: FunctionalFileSystem> RootFileSystem<T> {
    /// The file system at index `i`.
    pub open spec fn volume(&self, i: int) -> AttachedFileSystem<T> {
        self.file_systems@[i].unwrap()
    }

    /// Whether a file system is attached at index `i`.
    pub open spec fn attached(&self, i: int) -> bool {
        0 <= i < self.file_systems@.len() && self.file_systems@[i] is Some
    }

    /// The invariant: every attached file system keeps its own invariant, descriptors start
    /// at 1, every descriptor in use lies below the next one, and every open descriptor
    /// belongs to an index of the list.
    pub open spec fn wf(&self) -> bool {
        &&& self.next_fd >= 1
        &&& forall|i: int| self.attached(i) ==> (#[trigger] self.volume(i)).wf()
        &&& forall|fd: i64| #[trigger]
            self.files_read@.contains_key(fd) ==> 1 <= fd < self.next_fd && self.files_read@[fd]
                < self.file_systems@.len()
        &&& forall|fd: i64| #[trigger]
            self.files_write@.contains_key(fd) ==> 1 <= fd < self.next_fd
                && self.files_write@[fd] < self.file_systems@.len()
        &&& forall|i: int, fd: i64|
            self.attached(i) && #[trigger] self.volume(i).files_read@.contains_key(fd) ==> 1 <= fd
                < self.next_fd
        &&& forall|i: int, fd: i64|
            self.attached(i) && #[trigger] self.volume(i).files_write@.contains_key(fd) ==> 1
                <= fd < self.next_fd
    }

    /// The index of the file system that `path` goes to.
    pub open spec fn route(&self, path: Seq<Seq<u8>>) -> Option<int> {
        best(self.file_systems@, path, self.file_systems@.len() as int)
    }

    /// What is left of `path` below the attach point of the file system at index `i`.
    pub open spec fn local(&self, i: int, path: Seq<Seq<u8>>) -> Seq<Seq<u8>> {
        path.skip(self.volume(i).attach_point@.len() as int)
    }

    /// Whether everything but the file system at index `i` is in `after` as it is here,
    /// and that one is still attached where it was.
    pub open spec fn rest_kept(&self, after: &Self, i: int) -> bool {
        &&& after.next_fd == self.next_fd
        &&& after.files_read@ == self.files_read@
        &&& after.files_write@ == self.files_write@
        &&& after.file_systems@.len() == self.file_systems@.len()
        &&& after.attached(i)
        &&& after.volume(i).attach_point@ == self.volume(i).attach_point@
        &&& forall|j: int|
            0 <= j < self.file_systems@.len() && j != i ==> #[trigger] after.file_systems@[j]
                == self.file_systems@[j]
    }

    /// Whether `after` differs from this state at most in the file system of the volume at
    /// index `i`: the open files of that volume are as before.
    pub open spec fn only_fs_changed(&self, after: &Self, i: int) -> bool {
        &&& self.rest_kept(after, i)
        &&& after.volume(i).files_read@ == self.volume(i).files_read@
        &&& after.volume(i).files_write@ == self.volume(i).files_write@
    }

    /// Whether `answer` is what listing the directory at `path` may give: the answer of the
    /// file system that the path goes to, for what is left of the path there.
    pub open spec fn read_dir_answer(&self, path: Seq<Seq<u8>>, answer: Answer<Seq<Seq<u8>>>) -> bool {
        match self.route(path) {
            Some(i) => self.volume(i).fs.read_dir_answer(self.local(i, path), answer),
            None => answer == Err::<Seq<Seq<u8>>, ErrorKind>(ErrorKind::IllegalOperation),
        }
    }

    /// A namespace without file systems. The first descriptor is 1.
    pub fn new() -> (root: Self)
        ensures
            root.wf(),
            root.file_systems@.len() == 0,
            root.next_fd == 1,
            root.files_read@ == Map::<i64, usize>::empty(),
            root.files_write@ == Map::<i64, usize>::empty(),
    {
        RootFileSystem {
            file_systems: Vec::new(),
            next_fd: 1,
            files_read: BTreeMap::new(),
            files_write: BTreeMap::new(),
        }
    }

    /// The number of file systems that are attached.
    pub open spec fn spec_attach_count(&self, upto: int) -> nat
        decreases upto,
    {
        if upto <= 0 {
            0
        } else {
            self.spec_attach_count(upto - 1) + (if self.attached(upto - 1) {
                1nat
            } else {
                0nat
            })
        }
    }

    /// The number of file systems that are attached.
    pub fn attach_count(&self) -> (count: usize)
        ensures
            count == self.spec_attach_count(self.file_systems@.len() as int),
    {
        let mut count: usize = 0;
        let mut i: usize = 0;
        while i < self.file_systems.len()
            invariant
                i <= self.file_systems.len(),
                count <= i,
                count == self.spec_attach_count(i as int),
            decreases self.file_systems.len() - i,
        {
            if self.file_systems[i].is_some() {
                count += 1;
            }
            i += 1;
        }
        count
    }

    /// The file system that `path` goes to, and what is left of the path below its attach
    /// point. A path that no attached file system holds is an illegal operation.
    pub fn suitable_fs(&self, path: Path) -> (result: FsResult<(usize, Path)>)
        ensures
            match result {
                Ok((i, rest)) => self.route(path@) == Some(i as int) && self.attached(i as int)
                    && rest@ == self.local(i as int, path@),
                Err(e) => self.route(path@) is None && e.spec_kind() == ErrorKind::IllegalOperation,
            },
    {
        let mut found: Option<(usize, Path)> = None;
        let mut i: usize = 0;
        while i < self.file_systems.len()
            invariant
                i <= self.file_systems.len(),
                match found {
                    Some((k, rest)) => best(self.file_systems@, path@, i as int) == Some(k as int) && k < i
                        && self.attached(k as int) && rest@ == self.local(k as int, path@)
                        && self.volume(k as int).attach_point@.len() <= path@.len(),
                    None => best(self.file_systems@, path@, i as int) is None,
                },
            decreases self.file_systems.len() - i,
        {
            match &self.file_systems[i] {
                Some(volume) => {
                    match path.clone().relative_to(volume.attach_point.clone()) {
                        Some(rest) => {
                            let better = match &found {
                                Some((_, shortest)) => rest.len() < shortest.len(),
                                None => true,
                            };
                            if better {
                                found = Some((i, rest));
                            }
                        },
                        None => {},
                    }
                },
                None => {},
            }
            i += 1;
        }
        match found {
            Some(pair) => Ok(pair),
            None => Err(FsError::illegal("the path is not contained in an attached file system")),
        }
    }

    /// Hands out the next descriptor. There is none left once they have run out.
    pub fn get_free_fd(&mut self) -> (fd: Option<i64>)
        requires
            old(self).wf(),
        ensures
            final(self).wf(),
            final(self).file_systems == old(self).file_systems,
            final(self).files_read == old(self).files_read,
            final(self).files_write == old(self).files_write,
            old(self).next_fd < i64::MAX ==> fd == Some(old(self).next_fd) && final(self).next_fd
                == old(self).next_fd + 1,
            old(self).next_fd == i64::MAX ==> fd is None && final(self).next_fd == old(self).next_fd,
    {
        if self.next_fd == i64::MAX {
            return None;
        }
        let fd = self.next_fd;
        self.next_fd = self.next_fd + 1;
        assert forall|i: int| self.attached(i) implies (#[trigger] self.volume(i)).wf() by {
            assert(old(self).attached(i));
            assert(self.volume(i) == old(self).volume(i));
        }
        assert forall|i: int, fd: i64|
            self.attached(i) && #[trigger] self.volume(i).files_read@.contains_key(fd) implies 1 <= fd
            < self.next_fd by {
            assert(old(self).attached(i));
            assert(old(self).volume(i).files_read@.contains_key(fd));
        }
        assert forall|i: int, fd: i64|
            self.attached(i) && #[trigger] self.volume(i).files_write@.contains_key(fd) implies 1
            <= fd < self.next_fd by {
            assert(old(self).attached(i));
            assert(old(self).volume(i).files_write@.contains_key(fd));
        }
        Some(fd)
    }

    /// The names in the directory at `path`.
    pub fn read_dir(&self, path: Path) -> (result: FsResult<Vec<Filename>>)
        requires
            self.wf(),
        ensures
            self.read_dir_answer(path@, names_answer(result)),
    {
        let (index, rest) = match self.suitable_fs(path) {
            Ok(pair) => pair,
            Err(e) => return Err(e),
        };
        match &self.file_systems[index] {
            Some(volume) => {
                assert(volume == self.volume(index as int));
                volume.fs.read_dir(rest)
            },
            None => Err(FsError::illegal("the file system is detached")),
        }
    }

    /// Whether `path` names a directory.
    pub fn exists_dir(&self, path: Path) -> (result: FsResult<bool>)
        requires
            self.wf(),
        ensures
            match self.route(path@) {
                Some(i) => self.volume(i).fs.exists_dir_answer(
                    self.local(i, path@),
                    answer_of(result),
                ),
                None => answer_of(result) == Err::<bool, ErrorKind>(ErrorKind::IllegalOperation),
            },
    {
        let (index, rest) = match self.suitable_fs(path) {
            Ok(pair) => pair,
            Err(e) => return Err(e),
        };
        match &self.file_systems[index] {
            Some(volume) => {
                assert(volume == self.volume(index as int));
                volume.fs.exists_dir(rest)
            },
            None => Err(FsError::illegal("the file system is detached")),
        }
    }

    /// Whether `path` names a file.
    pub fn exists_file(&self, path: Path) -> (result: FsResult<bool>)
        requires
            self.wf(),
        ensures
            match self.route(path@) {
                Some(i) => self.volume(i).fs.exists_file_answer(
                    self.local(i, path@),
                    answer_of(result),
                ),
                None => answer_of(result) == Err::<bool, ErrorKind>(ErrorKind::IllegalOperation),
            },
    {
        let (index, rest) = match self.suitable_fs(path) {
            Ok(pair) => pair,
            Err(e) => return Err(e),
        };
        match &self.file_systems[index] {
            Some(volume) => {
                assert(volume == self.volume(index as int));
                volume.fs.exists_file(rest)
            },
            None => Err(FsError::illegal("the file system is detached")),
        }
    }

    /// The invariant holds again after a change that touched only the volume at index `i`,
    /// left the descriptors of its open files as they were or added `fd` to them, and kept
    /// its own invariant.
    proof fn lemma_rest_kept_wf(&self, after: &Self, i: int)
        requires
            self.wf(),
            self.attached(i),
            self.rest_kept(after, i),
            after.volume(i).wf(),
            forall|fd: i64| #[trigger]
                after.volume(i).files_read@.contains_key(fd) ==> 1 <= fd < after.next_fd,
            forall|fd: i64| #[trigger]
                after.volume(i).files_write@.contains_key(fd) ==> 1 <= fd < after.next_fd,
        ensures
            after.wf(),
    {
        assert forall|j: int| after.attached(j) implies (#[trigger] after.volume(j)).wf() by {
            if j != i {
                assert(after.file_systems@[j] == self.file_systems@[j]);
                assert(self.attached(j));
                assert(self.volume(j).wf());
                assert(after.volume(j) == self.volume(j));
            }
        }
        assert forall|j: int, fd: i64|
            after.attached(j) && #[trigger] after.volume(j).files_read@.contains_key(fd) implies 1
            <= fd < after.next_fd by {
            if j != i {
                assert(after.file_systems@[j] == self.file_systems@[j]);
                assert(self.attached(j));
                assert(self.volume(j).files_read@.contains_key(fd));
            }
        }
        assert forall|j: int, fd: i64|
            after.attached(j) && #[trigger] after.volume(j).files_write@.contains_key(fd) implies 1
            <= fd < after.next_fd by {
            if j != i {
                assert(after.file_systems@[j] == self.file_systems@[j]);
                assert(self.attached(j));
                assert(self.volume(j).files_write@.contains_key(fd));
            }
        }
    }

    /// The invariant holds again after a change to the descriptor tables alone that keeps
    /// them within bounds.
    proof fn lemma_tables_wf(&self, after: &Self)
        requires
            self.wf(),
            after.file_systems == self.file_systems,
            after.next_fd == self.next_fd,
            forall|fd: i64| #[trigger]
                after.files_read@.contains_key(fd) ==> 1 <= fd < after.next_fd
                    && after.files_read@[fd] < after.file_systems@.len(),
            forall|fd: i64| #[trigger]
                after.files_write@.contains_key(fd) ==> 1 <= fd < after.next_fd
                    && after.files_write@[fd] < after.file_systems@.len(),
        ensures
            after.wf(),
    {
        assert forall|i: int| after.attached(i) implies (#[trigger] after.volume(i)).wf() by {
            assert(self.attached(i));
            assert(self.volume(i).wf());
        }
        assert forall|i: int, fd: i64|
            after.attached(i) && #[trigger] after.volume(i).files_read@.contains_key(fd) implies 1
            <= fd < after.next_fd by {
            assert(self.attached(i));
            assert(self.volume(i).files_read@.contains_key(fd));
        }
        assert forall|i: int, fd: i64|
            after.attached(i) && #[trigger] after.volume(i).files_write@.contains_key(fd) implies 1
            <= fd < after.next_fd by {
            assert(self.attached(i));
            assert(self.volume(i).files_write@.contains_key(fd));
        }
    }

    /// Creates an empty file at `path`, on the file system that the path goes to.
    pub fn create_file(&mut self, path: Path) -> (result: FsResult<()>)
        requires
            old(self).wf(),
        ensures
            final(self).wf(),
            match old(self).route(path@) {
                Some(i) => old(self).only_fs_changed(final(self), i) && old(self).volume(
                    i,
                ).fs.create_file_effect(
                    &final(self).volume(i).fs,
                    old(self).local(i, path@),
                    answer_of(result),
                ),
                None => *final(self) == *old(self) && answer_of(result) == Err::<(), ErrorKind>(
                    ErrorKind::IllegalOperation,
                ),
            },
    {
        let (index, rest) = match self.suitable_fs(path) {
            Ok(pair) => pair,
            Err(e) => return Err(e),
        };
        let result = match &mut self.file_systems[index] {
            Some(volume) => volume.fs.create_file(rest),
            None => Err(FsError::illegal("the file system is detached")),
        };
        proof {
            old(self).lemma_rest_kept_wf(self, index as int);
        }
        result
    }

    /// Creates an empty directory at `path`, on the file system that the path goes to.
    pub fn create_dir(&mut self, path: Path) -> (result: FsResult<()>)
        requires
            old(self).wf(),
        ensures
            final(self).wf(),
            match old(self).route(path@) {
                Some(i) => old(self).only_fs_changed(final(self), i) && old(self).volume(
                    i,
                ).fs.create_dir_effect(
                    &final(self).volume(i).fs,
                    old(self).local(i, path@),
                    answer_of(result),
                ),
                None => *final(self) == *old(self) && answer_of(result) == Err::<(), ErrorKind>(
                    ErrorKind::IllegalOperation,
                ),
            },
    {
        let (index, rest) = match self.suitable_fs(path) {
            Ok(pair) => pair,
            Err(e) => return Err(e),
        };
        let result = match &mut self.file_systems[index] {
            Some(volume) => volume.fs.create_dir(rest),
            None => Err(FsError::illegal("the file system is detached")),
        };
        proof {
            old(self).lemma_rest_kept_wf(self, index as int);
        }
        result
    }

    /// Deletes what `path` names, on the file system that the path goes to.
    pub fn delete(&mut self, path: Path) -> (result: FsResult<()>)
        requires
            old(self).wf(),
        ensures
            final(self).wf(),
            match old(self).route(path@) {
                Some(i) => old(self).only_fs_changed(final(self), i) && old(self).volume(
                    i,
                ).fs.delete_effect(
                    &final(self).volume(i).fs,
                    old(self).local(i, path@),
                    answer_of(result),
                ),
                None => *final(self) == *old(self) && answer_of(result) == Err::<(), ErrorKind>(
                    ErrorKind::IllegalOperation,
                ),
            },
    {
        let (index, rest) = match self.suitable_fs(path) {
            Ok(pair) => pair,
            Err(e) => return Err(e),
        };
        let result = match &mut self.file_systems[index] {
            Some(volume) => volume.fs.delete(rest),
            None => Err(FsError::illegal("the file system is detached")),
        };
        proof {
            old(self).lemma_rest_kept_wf(self, index as int);
        }
        result
    }

    /// Empties what `path` names, on the file system that the path goes to.
    pub fn clear(&mut self, path: Path) -> (result: FsResult<()>)
        requires
            old(self).wf(),
        ensures
            final(self).wf(),
            match old(self).route(path@) {
                Some(i) => old(self).only_fs_changed(final(self), i) && old(self).volume(
                    i,
                ).fs.clear_effect(
                    &final(self).volume(i).fs,
                    old(self).local(i, path@),
                    answer_of(result),
                ),
                None => *final(self) == *old(self) && answer_of(result) == Err::<(), ErrorKind>(
                    ErrorKind::IllegalOperation,
                ),
            },
    {
        let (index, rest) = match self.suitable_fs(path) {
            Ok(pair) => pair,
            Err(e) => return Err(e),
        };
        let result = match &mut self.file_systems[index] {
            Some(volume) => volume.fs.clear(rest),
            None => Err(FsError::illegal("the file system is detached")),
        };
        proof {
            old(self).lemma_rest_kept_wf(self, index as int);
        }
        result
    }

    /// Opens the file at `path` for reading and gives its descriptor: the next descriptor,
    /// which is used up whether or not the file can be opened.
    pub fn open_read(&mut self, path: Path) -> (result: FsResult<i64>)
        requires
            old(self).wf(),
        ensures
            final(self).wf(),
            final(self).files_write@ == old(self).files_write@,
            final(self).file_systems@.len() == old(self).file_systems@.len(),
            old(self).next_fd == i64::MAX ==> *final(self) == *old(self) && answer_of(result)
                == Err::<i64, ErrorKind>(ErrorKind::IllegalOperation),
            old(self).next_fd < i64::MAX ==> final(self).next_fd == old(self).next_fd + 1 && (
            match old(self).route(path@) {
                Some(i) => final(self).attached(i) && old(self).volume(i).open_read_effect(
                    &final(self).volume(i),
                    old(self).next_fd,
                    old(self).local(i, path@),
                    match result {
                        Ok(_) => Ok(()),
                        Err(e) => Err(e.spec_kind()),
                    },
                ) && (forall|j: int|
                    0 <= j < old(self).file_systems@.len() && j != i
                        ==> #[trigger] final(self).file_systems@[j] == old(self).file_systems@[j])
                    && (match result {
                    Ok(fd) => fd == old(self).next_fd && final(self).files_read@ == old(self).files_read@.insert(fd, i as usize),
                    Err(_) => final(self).files_read@ == old(self).files_read@,
                }),
                None => final(self).file_systems == old(self).file_systems && final(self).files_read@ == old(self).files_read@ && answer_of(result) == Err::<
                    i64,
                    ErrorKind,
                >(ErrorKind::IllegalOperation),
            }),
    {
        let fd = match self.get_free_fd() {
            Some(fd) => fd,
            None => return Err(FsError::illegal("the descriptors have run out")),
        };
        let ghost mid = *self;
        let (index, rest) = match self.suitable_fs(path) {
            Ok(pair) => pair,
            Err(e) => return Err(e),
        };
        assert(mid.attached(index as int));
        assert(mid.volume(index as int).wf());
        let result = match &mut self.file_systems[index] {
            Some(volume) => volume.open_read(fd, rest),
            None => Err(FsError::illegal("the file system is detached")),
        };
        proof {
            let after = self.volume(index as int);
            let before = mid.volume(index as int);
            assert forall|other: i64| #[trigger]
                after.files_read@.contains_key(other) implies 1 <= other < self.next_fd by {
                if other != fd {
                    assert(before.files_read@.contains_key(other));
                }
            }
            assert forall|other: i64| #[trigger]
                after.files_write@.contains_key(other) implies 1 <= other < self.next_fd by {
                assert(before.files_write@.contains_key(other));
            }
            mid.lemma_rest_kept_wf(self, index as int);
        }
        match result {
            Ok(()) => {
                let ghost opened = *self;
                self.files_read.insert(fd, index);
                proof {
                    opened.lemma_tables_wf(self);
                }
                Ok(fd)
            },
            Err(e) => Err(e),
        }
    }

    /// Opens the file at `path` for writing and gives its descriptor: the next descriptor,
    /// which is used up whether or not the file can be opened.
    pub fn open_write(&mut self, path: Path) -> (result: FsResult<i64>)
        requires
            old(self).wf(),
        ensures
            final(self).wf(),
            final(self).files_read@ == old(self).files_read@,
            final(self).file_systems@.len() == old(self).file_systems@.len(),
            old(self).next_fd == i64::MAX ==> *final(self) == *old(self) && answer_of(result)
                == Err::<i64, ErrorKind>(ErrorKind::IllegalOperation),
            old(self).next_fd < i64::MAX ==> final(self).next_fd == old(self).next_fd + 1 && (
            match old(self).route(path@) {
                Some(i) => final(self).attached(i) && old(self).volume(i).open_write_effect(
                    &final(self).volume(i),
                    old(self).next_fd,
                    old(self).local(i, path@),
                    match result {
                        Ok(_) => Ok(()),
                        Err(e) => Err(e.spec_kind()),
                    },
                ) && (forall|j: int|
                    0 <= j < old(self).file_systems@.len() && j != i
                        ==> #[trigger] final(self).file_systems@[j] == old(self).file_systems@[j])
                    && (match result {
                    Ok(fd) => fd == old(self).next_fd && final(self).files_write@ == old(self).files_write@.insert(fd, i as usize),
                    Err(_) => final(self).files_write@ == old(self).files_write@,
                }),
                None => final(self).file_systems == old(self).file_systems && final(self).files_write@ == old(self).files_write@ && answer_of(result) == Err::<
                    i64,
                    ErrorKind,
                >(ErrorKind::IllegalOperation),
            }),
    {
        let fd = match self.get_free_fd() {
            Some(fd) => fd,
            None => return Err(FsError::illegal("the descriptors have run out")),
        };
        let ghost mid = *self;
        let (index, rest) = match self.suitable_fs(path) {
            Ok(pair) => pair,
            Err(e) => return Err(e),
        };
        assert(mid.attached(index as int));
        assert(mid.volume(index as int).wf());
        let result = match &mut self.file_systems[index] {
            Some(volume) => volume.open_write(fd, rest),
            None => Err(FsError::illegal("the file system is detached")),
        };
        proof {
            let after = self.volume(index as int);
            let before = mid.volume(index as int);
            assert forall|other: i64| #[trigger]
                after.files_write@.contains_key(other) implies 1 <= other < self.next_fd by {
                if other != fd {
                    assert(before.files_write@.contains_key(other));
                }
            }
            assert forall|other: i64| #[trigger]
                after.files_read@.contains_key(other) implies 1 <= other < self.next_fd by {
                assert(before.files_read@.contains_key(other));
            }
            mid.lemma_rest_kept_wf(self, index as int);
        }
        match result {
            Ok(()) => {
                let ghost opened = *self;
                self.files_write.insert(fd, index);
                proof {
                    opened.lemma_tables_wf(self);
                }
                Ok(fd)
            },
            Err(e) => Err(e),
        }
    }

    /// The index of the file system on which `fd` is open for reading, if it is, and the
    /// file system is still attached.
    pub open spec fn reader(&self, fd: i64) -> Option<int> {
        if self.files_read@.contains_key(fd) && self.attached(self.files_read@[fd] as int) {
            Some(self.files_read@[fd] as int)
        } else {
            None
        }
    }

    /// The index of the file system on which `fd` is open for writing, if it is, and the
    /// file system is still attached.
    pub open spec fn writer(&self, fd: i64) -> Option<int> {
        if self.files_write@.contains_key(fd) && self.attached(self.files_write@[fd] as int) {
            Some(self.files_write@[fd] as int)
        } else {
            None
        }
    }

    /// Reads from the file that is open for reading under `fd`. A descriptor that is not
    /// open for reading, or whose file system is detached, is an illegal operation.
    pub fn read(&mut self, fd: i64, buffer: &mut [u8]) -> (result: FsResult<usize>)
        requires
            old(self).wf(),
        ensures
            final(self).wf(),
            final(buffer)@.len() == old(buffer)@.len(),
            match old(self).reader(fd) {
                Some(i) => old(self).rest_kept(final(self), i) && (match result {
                    Ok(n) => n <= old(buffer)@.len() && final(buffer)@.skip(n as int) == old(buffer)@.skip(n as int) && old(self).volume(i).read_effect(
                        &final(self).volume(i),
                        fd,
                        old(buffer)@.len(),
                        Ok(final(buffer)@.take(n as int)),
                    ),
                    Err(e) => old(self).volume(i).read_effect(
                        &final(self).volume(i),
                        fd,
                        old(buffer)@.len(),
                        Err(e.spec_kind()),
                    ),
                }),
                None => *final(self) == *old(self) && final(buffer)@ == old(buffer)@ && answer_of(
                    result,
                ) == Err::<usize, ErrorKind>(ErrorKind::IllegalOperation),
            },
    {
        let index = match self.files_read.get(&fd) {
            Some(index) => *index,
            None => return Err(FsError::illegal("no such file descriptor")),
        };
        assert(self.files_read@.contains_key(fd));
        if self.file_systems[index].is_none() {
            return Err(FsError::illegal("read after detached"));
        }
        assert(self.attached(index as int));
        assert(self.volume(index as int).wf());
        let result = match &mut self.file_systems[index] {
            Some(volume) => volume.read(fd, buffer),
            None => Err(FsError::illegal("read after detached")),
        };
        proof {
            let after = self.volume(index as int);
            let before = old(self).volume(index as int);
            assert(old(self).attached(index as int));
            assert forall|other: i64| #[trigger]
                after.files_read@.contains_key(other) implies 1 <= other < self.next_fd by {
                if other != fd {
                    assert(before.files_read@.contains_key(other));
                }
            }
            assert forall|other: i64| #[trigger]
                after.files_write@.contains_key(other) implies 1 <= other < self.next_fd by {
                assert(before.files_write@.contains_key(other));
            }
            old(self).lemma_rest_kept_wf(self, index as int);
        }
        result
    }

    /// Writes to the file that is open for writing under `fd`. A descriptor that is not
    /// open for writing, or whose file system is detached, is an illegal operation.
    pub fn write(&mut self, fd: i64, buffer: &[u8]) -> (result: FsResult<()>)
        requires
            old(self).wf(),
        ensures
            final(self).wf(),
            match old(self).writer(fd) {
                Some(i) => old(self).rest_kept(final(self), i) && old(self).volume(
                    i,
                ).write_effect(&final(self).volume(i), fd, buffer@, answer_of(result)),
                None => *final(self) == *old(self) && answer_of(result) == Err::<(), ErrorKind>(
                    ErrorKind::IllegalOperation,
                ),
            },
    {
        let index = match self.files_write.get(&fd) {
            Some(index) => *index,
            None => return Err(FsError::illegal("no such file descriptor")),
        };
        assert(self.files_write@.contains_key(fd));
        if self.file_systems[index].is_none() {
            return Err(FsError::illegal("write after detached"));
        }
        assert(self.attached(index as int));
        assert(self.volume(index as int).wf());
        let result = match &mut self.file_systems[index] {
            Some(volume) => volume.write(fd, buffer),
            None => Err(FsError::illegal("write after detached")),
        };
        proof {
            let after = self.volume(index as int);
            let before = old(self).volume(index as int);
            assert(old(self).attached(index as int));
            assert forall|other: i64| #[trigger]
                after.files_write@.contains_key(other) implies 1 <= other < self.next_fd by {
                if other != fd {
                    assert(before.files_write@.contains_key(other));
                }
            }
            assert forall|other: i64| #[trigger]
                after.files_read@.contains_key(other) implies 1 <= other < self.next_fd by {
                assert(before.files_read@.contains_key(other));
            }
            old(self).lemma_rest_kept_wf(self, index as int);
        }
        result
    }

    /// Moves the position of the file that is open for reading under `fd` forward. A
    /// descriptor that is not open for reading, or whose file system is detached, is an
    /// illegal operation.
    pub fn seek(&mut self, fd: i64, seek: usize) -> (result: FsResult<()>)
        requires
            old(self).wf(),
        ensures
            final(self).wf(),
            match old(self).reader(fd) {
                Some(i) => old(self).rest_kept(final(self), i) && old(self).volume(i).seek_effect(
                    &final(self).volume(i),
                    fd,
                    seek as nat,
                    answer_of(result),
                ),
                None => *final(self) == *old(self) && answer_of(result) == Err::<(), ErrorKind>(
                    ErrorKind::IllegalOperation,
                ),
            },
    {
        let index = match self.files_read.get(&fd) {
            Some(index) => *index,
            None => return Err(FsError::illegal("no such file descriptor")),
        };
        assert(self.files_read@.contains_key(fd));
        if self.file_systems[index].is_none() {
            return Err(FsError::illegal("seek after detached"));
        }
        assert(self.attached(index as int));
        assert(self.volume(index as int).wf());
        let result = match &mut self.file_systems[index] {
            Some(volume) => volume.seek(fd, seek),
            None => Err(FsError::illegal("seek after detached")),
        };
        proof {
            let after = self.volume(index as int);
            let before = old(self).volume(index as int);
            assert(old(self).attached(index as int));
            assert forall|other: i64| #[trigger]
                after.files_read@.contains_key(other) implies 1 <= other < self.next_fd by {
                if other != fd {
                    assert(before.files_read@.contains_key(other));
                }
            }
            assert forall|other: i64| #[trigger]
                after.files_write@.contains_key(other) implies 1 <= other < self.next_fd by {
                assert(before.files_write@.contains_key(other));
            }
            old(self).lemma_rest_kept_wf(self, index as int);
        }
        result
    }

    /// Attaches a file system at `attach_point`. The first file system, attached at the
    /// root, is always accepted. Any other is accepted where both its own root directory and
    /// the directory at the attach point can be listed, and no name occurs in both;
    /// otherwise it comes back.
    pub fn attach(&mut self, fs: T, attach_point: Path) -> (result: Result<(), T>)
        requires
            old(self).wf(),
            fs.fs_wf(),
        ensures
            final(self).wf(),
            match result {
                Ok(()) => final(self).next_fd == old(self).next_fd && final(self).files_read
                    == old(self).files_read && final(self).files_write == old(self).files_write
                    && final(self).file_systems@.len() == old(self).file_systems@.len() + 1
                    && final(self).file_systems@.drop_last() == old(self).file_systems@
                    && final(self).attached(old(self).file_systems@.len() as int) && ({
                    let added = final(self).volume(old(self).file_systems@.len() as int);
                    added.fs == fs && added.attach_point@ == attach_point@ && added.files_read@
                        == Map::<i64, T::ReadProgress>::empty() && added.files_write@ == Map::<
                        i64,
                        T::WriteProgress,
                    >::empty()
                }),
                Err(back) => back == fs && *final(self) == *old(self),
            },
            if attach_point@.len() == 0 && old(self).spec_attach_count(
                old(self).file_systems@.len() as int,
            ) == 0 {
                result is Ok
            } else {
                exists|own: Answer<Seq<Seq<u8>>>, mounted: Answer<Seq<Seq<u8>>>|
                    fs.read_dir_answer(Seq::empty(), own) && old(self).read_dir_answer(
                        attach_point@,
                        mounted,
                    ) && (result is Ok <==> spec_attach_allowed(own, mounted))
            },
    {
        let first = attach_point.is_root() && self.attach_count() == 0;
        if !first {
            let own = fs.read_dir(Path::root());
            let mounted = self.read_dir(attach_point.clone());
            if !attach_allowed(&own, &mounted) {
                return Err(fs);
            }
        }
        let ghost before = *self;
        self.file_systems.push(Some(AttachedFileSystem::new(fs, attach_point)));
        proof {
            assert(self.file_systems@.drop_last() =~= before.file_systems@);
            let n = before.file_systems@.len() as int;
            assert forall|i: int| self.attached(i) implies (#[trigger] self.volume(i)).wf() by {
                if i < n {
                    assert(before.attached(i));
                    assert(before.volume(i).wf());
                }
            }
            assert forall|i: int, fd: i64|
                self.attached(i) && #[trigger] self.volume(i).files_read@.contains_key(fd) implies 1
                <= fd < self.next_fd by {
                if i < n {
                    assert(before.attached(i));
                    assert(before.volume(i).files_read@.contains_key(fd));
                }
            }
            assert forall|i: int, fd: i64|
                self.attached(i) && #[trigger] self.volume(i).files_write@.contains_key(fd) implies 1
                <= fd < self.next_fd by {
                if i < n {
                    assert(before.attached(i));
                    assert(before.volume(i).files_write@.contains_key(fd));
                }
            }
        }
        Ok(())
    }

    /// Takes the file system at `index` out of the namespace and gives it back. Its
    /// descriptors stay in the tables, and every use of them is an illegal operation from
    /// then on. An index at which nothing is attached gives nothing.
    pub fn detach(&mut self, index: usize) -> (fs: Option<T>)
        requires
            old(self).wf(),
        ensures
            final(self).wf(),
            final(self).next_fd == old(self).next_fd,
            final(self).files_read == old(self).files_read,
            final(self).files_write == old(self).files_write,
            match fs {
                Some(taken) => old(self).attached(index as int) && taken == old(self).volume(
                    index as int,
                ).fs && final(self).file_systems@ == old(self).file_systems@.update(
                    index as int,
                    None,
                ),
                None => !old(self).attached(index as int) && final(self).file_systems == old(self).file_systems,
            },
    {
        if index >= self.file_systems.len() {
            return None;
        }
        if self.file_systems[index].is_none() {
            return None;
        }
        let taken = {
            let slot = &mut self.file_systems[index];
            slot.take()
        };
        proof {
            assert(self.file_systems@ =~= old(self).file_systems@.update(index as int, None));
            assert forall|i: int| self.attached(i) implies (#[trigger] self.volume(i)).wf() by {
                assert(old(self).attached(i));
                assert(old(self).volume(i).wf());
            }
            assert forall|i: int, fd: i64|
                self.attached(i) && #[trigger] self.volume(i).files_read@.contains_key(fd) implies 1
                <= fd < self.next_fd by {
                assert(old(self).attached(i));
                assert(old(self).volume(i).files_read@.contains_key(fd));
            }
            assert forall|i: int, fd: i64|
                self.attached(i) && #[trigger] self.volume(i).files_write@.contains_key(fd) implies 1
                <= fd < self.next_fd by {
                assert(old(self).attached(i));
                assert(old(self).volume(i).files_write@.contains_key(fd));
            }
        }
        match taken {
            Some(volume) => Some(volume.fs),
            None => None,
        }
    }
}

/// Whether reading a file from the position `from` on, 4096 bytes at a time, gives the
/// bytes of `out` in `steps` reads that each give some bytes, and leads to the position `to`.
pub open spec fn reaches<T: FunctionalFileSystem>(
    fs: T,
    from: T::ReadProgress,
    out: Seq<u8>,
    steps: nat,
    to: T::ReadProgress,
) -> bool
    decreases steps,
{
    if steps == 0 {
        out.len() == 0 && to == from
    } else {
        exists|after: T::ReadProgress, part: Seq<u8>|
            0 < part.len() <= out.len() && #[trigger] fs.read_answer(from, 4096, Ok((after, part)))
                && out.take(part.len() as int) == part && reaches(
                fs,
                after,
                out.skip(part.len() as int),
                (steps - 1) as nat,
                to,
            )
    }
}

/// Reading some more bytes at the position that reads have led to leads further.
pub proof fn lemma_reaches_more<T: FunctionalFileSystem>(
    fs: T,
    from: T::ReadProgress,
    out: Seq<u8>,
    steps: nat,
    to: T::ReadProgress,
    next: T::ReadProgress,
    part: Seq<u8>,
)
    requires
        reaches(fs, from, out, steps, to),
        part.len() > 0,
        fs.read_answer(to, 4096, Ok((next, part))),
    ensures
        reaches(fs, from, out + part, steps + 1, next),
    decreases steps,
{
    let all = out + part;
    if steps == 0 {
        assert(all =~= part);
        assert(all.take(part.len() as int) =~= part);
        assert(all.skip(part.len() as int).len() == 0);
        assert(reaches(fs, next, all.skip(part.len() as int), 0, next));
        assert(fs.read_answer(from, 4096, Ok((next, part))));
    } else {
        let (after, first) = choose|after: T::ReadProgress, first: Seq<u8>|
            0 < first.len() <= out.len() && #[trigger] fs.read_answer(
                from,
                4096,
                Ok((after, first)),
            ) && out.take(first.len() as int) == first && reaches(
                fs,
                after,
                out.skip(first.len() as int),
                (steps - 1) as nat,
                to,
            );
        lemma_reaches_more(
            fs,
            after,
            out.skip(first.len() as int),
            (steps - 1) as nat,
            to,
            next,
            part,
        );
        assert(all.take(first.len() as int) =~= first);
        assert(all.skip(first.len() as int) =~= out.skip(first.len() as int) + part);
        assert(fs.read_answer(from, 4096, Ok((after, first))));
    }
}

/// Whether reading the whole file at `path` of a file system may end with an error of
/// `kind`: the file system does not open the file, or it opens it and, after reads that
/// each gave some bytes, a read fails, or gives more than fits into memory with what was
/// read before, which is an internal error.
pub open spec fn gives_up<T: FunctionalFileSystem>(
    fs: T,
    path: Seq<Seq<u8>>,
    kind: ErrorKind,
) -> bool {
    ||| fs.open_read_answer(path, Err(kind))
    ||| exists|start: T::ReadProgress, out: Seq<u8>, steps: nat, at: T::ReadProgress|
        fs.open_read_answer(path, Ok(start)) && #[trigger] reaches(fs, start, out, steps, at) && (
        fs.read_answer(at, 4096, Err(kind)) || (kind == ErrorKind::InternalError && exists|
            after: T::ReadProgress,
            part: Seq<u8>,
        | #[trigger]
            fs.read_answer(at, 4096, Ok((after, part))) && out.len() + part.len() > usize::MAX))
}

/// Whether reading a file from the position `from` on, 4096 bytes at a time, gives the
/// bytes of `out` in `steps` reads and then nothing: each of the reads gives some bytes, and
/// the read after them none.
pub open spec fn drains<T: FunctionalFileSystem>(
    fs: T,
    from: T::ReadProgress,
    out: Seq<u8>,
    steps: nat,
) -> bool
    decreases steps,
{
    if steps == 0 {
        out.len() == 0 && exists|after: T::ReadProgress|
            fs.read_answer(from, 4096, Ok((after, Seq::<u8>::empty())))
    } else {
        exists|after: T::ReadProgress, part: Seq<u8>|
            0 < part.len() <= out.len() && #[trigger] fs.read_answer(from, 4096, Ok((after, part)))
                && out.take(part.len() as int) == part && drains(
                fs,
                after,
                out.skip(part.len() as int),
                (steps - 1) as nat,
            )
    }
}

/// Reading some bytes and then draining the file is draining the file.
pub proof fn lemma_drains_more<T: FunctionalFileSystem>(
    fs: T,
    from: T::ReadProgress,
    after: T::ReadProgress,
    part: Seq<u8>,
    rest: Seq<u8>,
    steps: nat,
)
    requires
        part.len() > 0,
        fs.read_answer(from, 4096, Ok((after, part))),
        drains(fs, after, rest, steps),
    ensures
        drains(fs, from, part + rest, steps + 1),
{
    let out = part + rest;
    assert(out.take(part.len() as int) =~= part);
    assert(out.skip(part.len() as int) =~= rest);
}

/// Whether the slot `after` is the slot `before` with the descriptor `fd` closed on it, where
/// `owner` says that the descriptor belongs to this slot: the positions kept under `fd` are
/// forgotten there, and nothing else changes.
pub open spec fn slot_closed<T: FunctionalFileSystem>(
    before: Option<AttachedFileSystem<T>>,
    after: Option<AttachedFileSystem<T>>,
    fd: i64,
    owner: bool,
) -> bool {
    if owner && before is Some {
        after is Some && after.unwrap().fs == before.unwrap().fs && after.unwrap().attach_point@
            == before.unwrap().attach_point@ && after.unwrap().files_read@
            == before.unwrap().files_read@.remove(fd) && after.unwrap().files_write@
            == before.unwrap().files_write@.remove(fd)
    } else {
        after == before
    }
}

impl<T: FunctionalFileSystem> RootFileSystem<T> {
    /// Forgets the positions kept under `fd` on the file system at `index`.
    fn close_on(&mut self, index: usize, fd: i64)
        requires
            old(self).wf(),
        ensures
            final(self).wf(),
            final(self).next_fd == old(self).next_fd,
            final(self).files_read == old(self).files_read,
            final(self).files_write == old(self).files_write,
            final(self).file_systems@.len() == old(self).file_systems@.len(),
            forall|j: int|
                0 <= j < old(self).file_systems@.len() ==> slot_closed(
                    old(self).file_systems@[j],
                    #[trigger] final(self).file_systems@[j],
                    fd,
                    j == index,
                ),
    {
        if index >= self.file_systems.len() {
            return ;
        }
        if self.file_systems[index].is_none() {
            return ;
        }
        match &mut self.file_systems[index] {
            Some(volume) => volume.close(fd),
            None => {},
        }
        proof {
            let i = index as int;
            assert(old(self).attached(i));
            assert(old(self).volume(i).wf());
            let after = self.volume(i);
            let before = old(self).volume(i);
            assert forall|other: i64| #[trigger]
                after.files_read@.contains_key(other) implies 1 <= other < self.next_fd by {
                assert(before.files_read@.contains_key(other));
            }
            assert forall|other: i64| #[trigger]
                after.files_write@.contains_key(other) implies 1 <= other < self.next_fd by {
                assert(before.files_write@.contains_key(other));
            }
            old(self).lemma_rest_kept_wf(self, i);
        }
    }

    /// Closes a descriptor: it leaves the tables, and the file system that it belongs to
    /// forgets its position. A descriptor that is not open is an illegal operation.
    pub fn close(&mut self, fd: i64) -> (result: FsResult<()>)
        requires
            old(self).wf(),
        ensures
            final(self).wf(),
            final(self).next_fd == old(self).next_fd,
            final(self).files_read@ == old(self).files_read@.remove(fd),
            final(self).files_write@ == old(self).files_write@.remove(fd),
            final(self).file_systems@.len() == old(self).file_systems@.len(),
            result is Ok <==> old(self).files_read@.contains_key(fd) || old(self).files_write@.contains_key(fd),
            result matches Err(e) ==> e.spec_kind() == ErrorKind::IllegalOperation,
            forall|j: int|
                0 <= j < old(self).file_systems@.len() ==> slot_closed(
                    old(self).file_systems@[j],
                    #[trigger] final(self).file_systems@[j],
                    fd,
                    (old(self).files_read@.contains_key(fd) && old(self).files_read@[fd] == j) || (
                    old(self).files_write@.contains_key(fd) && old(self).files_write@[fd] == j),
                ),
    {
        let ghost start = *self;
        let reader = self.files_read.remove(&fd);
        let writer = self.files_write.remove(&fd);
        proof {
            start.lemma_tables_wf(self);
        }
        let ghost mid = *self;
        match reader {
            Some(index) => self.close_on(index, fd),
            None => {},
        }
        let ghost mid2 = *self;
        match writer {
            Some(index) => self.close_on(index, fd),
            None => {},
        }
        proof {
            assert forall|j: int| 0 <= j < start.file_systems@.len() implies slot_closed(
                start.file_systems@[j],
                #[trigger] self.file_systems@[j],
                fd,
                (start.files_read@.contains_key(fd) && start.files_read@[fd] == j) || (
                start.files_write@.contains_key(fd) && start.files_write@[fd] == j),
            ) by {
                let a = start.file_systems@[j];
                let b = mid2.file_systems@[j];
                let c = self.file_systems@[j];
                if reader is Some {
                    assert(slot_closed(a, b, fd, j == reader.unwrap()));
                } else {
                    assert(a == b);
                }
                if writer is Some {
                    assert(slot_closed(b, c, fd, j == writer.unwrap()));
                } else {
                    assert(b == c);
                }
                if b is Some && c is Some && a is Some {
                    assert(a.unwrap().files_read@.remove(fd).remove(fd) =~= a.unwrap().files_read@.remove(fd));
                    assert(a.unwrap().files_write@.remove(fd).remove(fd) =~= a.unwrap().files_write@.remove(fd));
                }
            }
        }
        if reader.is_some() || writer.is_some() {
            Ok(())
        } else {
            Err(FsError::illegal("no such file descriptor"))
        }
    }

    /// Reads the whole file at `path`: the file is opened for reading and read, 4096 bytes
    /// at a time, until a read gives nothing. What comes back is what those reads gave, one
    /// after the other. The descriptor stays open.
    ///
    /// It is an illegal operation where the descriptors have run out or no file system
    /// holds the path. Any other error is the one with which the file system did not open
    /// the file or failed to read, or the internal error of a file that does not fit into
    /// memory.
    pub fn read_all(&mut self, path: Path) -> (result: FsResult<Vec<u8>>)
        requires
            old(self).wf(),
        ensures
            final(self).wf(),
            final(self).file_systems@.len() == old(self).file_systems@.len(),
            final(self).files_write@ == old(self).files_write@,
            old(self).next_fd == i64::MAX ==> answer_of(result) == Err::<Vec<u8>, ErrorKind>(
                ErrorKind::IllegalOperation,
            ) && *final(self) == *old(self),
            old(self).next_fd < i64::MAX ==> final(self).next_fd == old(self).next_fd + 1,
            result matches Err(e) ==> old(self).next_fd == i64::MAX || old(self).route(path@)
                is None || gives_up(
                old(self).volume(old(self).route(path@).unwrap()).fs,
                old(self).local(old(self).route(path@).unwrap(), path@),
                e.spec_kind(),
            ),
            old(self).route(path@) is None ==> answer_of(result) == Err::<Vec<u8>, ErrorKind>(
                ErrorKind::IllegalOperation,
            ),
            result matches Ok(bytes) ==> old(self).route(path@) is Some && exists|
                start: T::ReadProgress,
                steps: nat,
            |
                old(self).volume(old(self).route(path@).unwrap()).fs.open_read_answer(
                    old(self).local(old(self).route(path@).unwrap(), path@),
                    Ok(start),
                ) && #[trigger] drains(
                    old(self).volume(old(self).route(path@).unwrap()).fs,
                    start,
                    bytes@,
                    steps,
                ),
    {
        let handle = match self.open_read(path) {
            Ok(handle) => handle,
            Err(e) => return Err(e),
        };
        assert(old(self).route(path@) is Some);
        let ghost index = old(self).route(path@).unwrap();
        let ghost fs = old(self).volume(index).fs;
        let ghost start = self.volume(index).files_read@[handle];
        assert(self.volume(index).files_read@.contains_key(handle));
        assert(fs.open_read_answer(old(self).local(index, path@), Ok(start)));
        let ghost cur = start;
        let ghost taken: nat = 0;
        let mut out: Vec<u8> = Vec::new();
        let mut buffer: Vec<u8> = vec![0u8; 4096];
        assert(out@ =~= Seq::<u8>::empty());
        assert forall|rest: Seq<u8>, n: nat| #[trigger] drains(fs, cur, rest, n) implies drains(
            fs,
            start,
            out@ + rest,
            n + taken,
        ) by {
            assert(out@ + rest =~= rest);
        }
        proof {
            lemma_best(old(self).file_systems@, path@, old(self).file_systems@.len() as int);
        }
        let count = self.file_systems.len();
        assert(0 <= index < count);
        assert(self.files_read@[handle] as int == index);
        loop
            invariant_except_break
                self.volume(index).files_read@[handle] == cur,
                reaches(fs, start, out@, taken, cur),
                forall|rest: Seq<u8>, n: nat| #[trigger]
                    drains(fs, cur, rest, n) ==> drains(fs, start, out@ + rest, n + taken),
            invariant
                self.wf(),
                buffer@.len() == 4096,
                self.file_systems@.len() == old(self).file_systems@.len(),
                self.files_write@ == old(self).files_write@,
                self.next_fd == old(self).next_fd + 1,
                old(self).route(path@) == Some(index),
                self.files_read@.contains_key(handle),
                self.files_read@[handle] as int == index,
                self.attached(index),
                self.volume(index).fs == fs,
                old(self).volume(index).fs == fs,
                self.volume(index).files_read@.contains_key(handle),
                fs.open_read_answer(old(self).local(index, path@), Ok(start)),
            ensures
                drains(fs, start, out@, taken),
            decreases usize::MAX - out.len(),
        {
            let ghost before = *self;
            let answer = self.read(handle, buffer.as_mut_slice());
            assert(before.reader(handle) == Some(index as int));
            let bytes_read = match answer {
                Ok(n) => n,
                Err(e) => {
                    assert(fs.read_answer(cur, 4096, Err(e.spec_kind())));
                    assert(gives_up(fs, old(self).local(index, path@), e.spec_kind()));
                    return Err(e);
                },
            };
            let ghost part = buffer@.take(bytes_read as int);
            let ghost next = self.volume(index).files_read@[handle];
            assert(fs.read_answer(cur, 4096, Ok((next, part))) && self.volume(
                index,
            ).files_read@.contains_key(handle));
            if bytes_read == 0 {
                proof {
                    assert(part =~= Seq::<u8>::empty());
                    assert(drains(fs, cur, Seq::<u8>::empty(), 0));
                    assert(out@ + Seq::<u8>::empty() =~= out@);
                    assert(drains(fs, start, out@ + Seq::<u8>::empty(), 0 + taken));
                }
                break;
            }
            if bytes_read > usize::MAX - out.len() {
                assert(gives_up(fs, old(self).local(index, path@), ErrorKind::InternalError));
                return Err(FsError::internal("the file does not fit into memory"));
            }
            let ghost had = out@;
            let mut i: usize = 0;
            while i < bytes_read
                invariant
                    i <= bytes_read <= buffer@.len(),
                    out@ == had + buffer@.take(i as int),
                    had.len() + bytes_read <= usize::MAX,
                decreases bytes_read - i,
            {
                out.push(buffer[i]);
                assert(buffer@.take(i as int).push(buffer@[i as int]) =~= buffer@.take(i + 1));
                assert(out@ =~= had + buffer@.take(i + 1));
                i += 1;
            }
            proof {
                assert forall|rest: Seq<u8>, n: nat| #[trigger]
                    drains(fs, next, rest, n) implies drains(
                    fs,
                    start,
                    out@ + rest,
                    n + taken + 1,
                ) by {
                    lemma_drains_more(fs, cur, next, part, rest, n);
                    assert(drains(fs, cur, part + rest, n + 1));
                    assert(had + (part + rest) =~= out@ + rest);
                }
                lemma_reaches_more(fs, start, had, taken, cur, next, part);
                assert(out@ =~= had + part);
                cur = next;
                taken = taken + 1;
            }
        }
        Ok(out)
    }
}

/// Whether a file system may be attached, given the listing of its own root directory and
/// the listing of the directory at the attach point: both succeeded, and no name occurs in
/// both.
pub open spec fn spec_attach_allowed(own: Answer<Seq<Seq<u8>>>, mounted: Answer<Seq<Seq<u8>>>) -> bool {
    own is Ok && mounted is Ok && !spec_names_conflict(mounted.unwrap(), own.unwrap())
}

/// Whether a file system may be attached, given the listing of its own root directory and
/// the listing of the directory at the attach point.
pub fn attach_allowed(own: &FsResult<Vec<Filename>>, mounted: &FsResult<Vec<Filename>>) -> (allowed: bool)
    ensures
        allowed == spec_attach_allowed(names_answer(*own), names_answer(*mounted)),
{
    match own {
        Ok(own_names) => match mounted {
            Ok(mounted_names) => !names_conflict(mounted_names, own_names),
            Err(_) => false,
        },
        Err(_) => false,
    }
}

} // verus!
