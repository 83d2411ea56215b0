use vstd::prelude::*;
use crate::block::{BlockDevice, RWBlockDevice};
use crate::error::{ErrorKind, FsError, FsResult};
use crate::ffat::model::{
    answers, m_clear, m_create_dir, m_create_file, m_delete, m_exists, m_open_read, m_open_write,
    m_read, m_read_dir, m_seek, m_write, performs, Answer, Disk,
};
use crate::ffat::appending::{law_write_sound, valid_writer, written_layout};
use crate::ffat::clearing::law_clear_sound;
use crate::ffat::creation::{law_create_dir_sound, law_create_file_sound};
use crate::ffat::file_laws::law_open_write_sound;
use crate::ffat::pruning::law_delete_sound;
use crate::ffat::refusal::{
    clear_refusal, create_refusal, delete_refusal, open_write_refusal, write_refusal,
};
use crate::ffat::sound::{entry_of, sound, Layout};
use crate::ffat::structs::{FileProgress, ReadProgress, SectorType, WriteProgress};
use crate::ffat::{formatted, mounted, FFAT};
use crate::filesystem::{
    BaseFileSystem, ManageFileSystem, MountedFileSystem, ReadFileSystem, WriteFileSystem,
};
use crate::path::{Filename, Path};

verus! {

/// Whether an operation on the root that can only be refused, which is refused without a
/// look at the device, gave that answer: on any other path this says nothing.
pub open spec fn root_refused<T>(path: Seq<Seq<u8>>, answer: Answer<T>) -> bool {
    path.len() == 0 ==> answer == Err::<T, ErrorKind>(ErrorKind::IllegalOperation)
}

/// Whether a read looks at no sector: the chain has ended, nothing is wanted, or the
/// position is at the end of the file.
pub open spec fn idle_read(before: ReadProgress, want: nat) -> bool {
    before.0.sector == 0 || want == 0 || before.0.byte_offset >= before.1
}

/// Whether an operation that writes led from `before` to `after` with `answer`, where
/// `refusal` is the error with which it ends before it writes anything, if there is one, and
/// `model` is what it does to a volume.
///
/// An operation that is refused leaves the volume as it is and gives the error of the
/// refusal. One that is not refused is carried out on a device that takes writes; a device
/// that refuses writes is left as it is, with an illegal-operation error. On a device that
/// may fault, a device error is the other way to end.
pub open spec fn effect<B: BlockDevice, T>(
    before: &FFAT<B>,
    after: &FFAT<B>,
    answer: Answer<T>,
    refusal: Option<ErrorKind>,
    model: (Disk, Answer<T>),
) -> bool {
    &&& after.same_device(before)
    &&& match refusal {
        Some(e) => after.disk() == before.disk() && answers(
            before.reliable(),
            answer,
            Err::<T, ErrorKind>(e),
        ),
        None => if before.read_only() {
            after.disk() == before.disk() && answers(
                before.reliable(),
                answer,
                Err::<T, ErrorKind>(ErrorKind::IllegalOperation),
            )
        } else {
            performs(before.reliable(), after.disk(), answer, model)
        },
    }
}

impl<B: BlockDevice> FFAT<B> {
    /// Whether the volume is sound: its sectors are shared out between the free list and
    /// the chains of its files and directories, every size fits its chain, and the files
    /// and directories form a tree below the root directory. A freshly formatted volume is
    /// sound, and every operation that succeeds leaves a sound volume sound.
    pub open spec fn consistent(&self) -> bool {
        exists|l: Layout| sound(self.disk(), l)
    }

    /// Whether `progress` is the position of a file of a sound volume that is open for
    /// writing: it stands at the end of the file.
    pub open spec fn writable(&self, progress: WriteProgress) -> bool {
        exists|l: Layout| sound(self.disk(), l) && valid_writer(self.disk(), l, progress)
    }
}

/// Where opening a file for writing succeeds, the path leads to a file.
pub proof fn lemma_open_write_ok(d: Disk, path: Seq<Seq<u8>>)
    requires
        m_open_write(d, path).1 is Ok,
    ensures
        crate::ffat::model::m_walk(d, path) is Ok,
        entry_of(d, crate::ffat::model::m_walk(d, path).unwrap()).sector_type
            == SectorType::File,
{
    reveal(m_open_write);
    reveal(crate::ffat::model::m_open);
}

impl<B: RWBlockDevice> BaseFileSystem for FFAT<B> {
    open spec fn fs_wf(&self) -> bool {
        self.wf()
    }

    open spec fn read_dir_answer(&self, path: Seq<Seq<u8>>, answer: Answer<Seq<Seq<u8>>>) -> bool {
        answers(self.reliable(), answer, m_read_dir(self.disk(), path))
    }

    open spec fn exists_dir_answer(&self, path: Seq<Seq<u8>>, answer: Answer<bool>) -> bool {
        answers(self.reliable(), answer, m_exists(self.disk(), path, SectorType::Dir))
    }

    open spec fn exists_file_answer(&self, path: Seq<Seq<u8>>, answer: Answer<bool>) -> bool {
        answers(self.reliable(), answer, m_exists(self.disk(), path, SectorType::File))
    }

    fn read_dir(&self, path: Path) -> (result: FsResult<Vec<Filename>>) {
        self.list(&path)
    }

    fn exists_dir(&self, path: Path) -> (result: FsResult<bool>) {
        self.exists_as(&path, SectorType::Dir)
    }

    fn exists_file(&self, path: Path) -> (result: FsResult<bool>) {
        self.exists_as(&path, SectorType::File)
    }
}

impl<B: RWBlockDevice> ReadFileSystem for FFAT<B> {
    type ReadProgress = ReadProgress;

    open spec fn open_read_answer(&self, path: Seq<Seq<u8>>, answer: Answer<ReadProgress>) -> bool {
        answers(self.reliable(), answer, m_open_read(self.disk(), path))
    }

    open spec fn read_answer(
        &self,
        before: ReadProgress,
        want: nat,
        answer: Answer<(ReadProgress, Seq<u8>)>,
    ) -> bool {
        match answer {
            Ok((after, out)) => after.1 == before.1 && m_read(self.disk(), before, want) == Ok::<
                (FileProgress, Seq<u8>),
                ErrorKind,
            >((after.0, out)),
            Err(kind) => !idle_read(before, want) && answers(
                self.reliable(),
                Err::<(FileProgress, Seq<u8>), ErrorKind>(kind),
                m_read(self.disk(), before, want),
            ),
        }
    }

    open spec fn seek_answer(&self, before: ReadProgress, seek: nat, answer: Answer<ReadProgress>) -> bool {
        answers(self.reliable(), answer, m_seek(self.disk(), before, seek))
    }

    fn open_read(&self, path: Path) -> (result: FsResult<ReadProgress>) {
        self.start_read(&path)
    }

    fn read(&self, progress: &mut ReadProgress, buffer: &mut [u8]) -> (result: FsResult<usize>) {
        self.read_file(progress, buffer)
    }

    fn seek(&self, progress: &mut ReadProgress, seek: usize) -> (result: FsResult<()>) {
        self.seek_file(progress, seek)
    }
}

impl<B: RWBlockDevice> WriteFileSystem for FFAT<B> {
    type WriteProgress = WriteProgress;

    open spec fn open_write_effect(&self, after: &Self, path: Seq<Seq<u8>>, answer: Answer<WriteProgress>) -> bool {
        effect(
            self,
            after,
            answer,
            open_write_refusal(self.disk(), path),
            m_open_write(self.disk(), path),
        )
    }

    open spec fn write_effect(
        &self,
        after: &Self,
        before: WriteProgress,
        data: Seq<u8>,
        answer: Answer<WriteProgress>,
    ) -> bool {
        effect(
            self,
            after,
            answer,
            write_refusal(self.disk(), before, data),
            m_write(self.disk(), before, data),
        )
    }

    fn open_write(&mut self, path: Path) -> (result: FsResult<WriteProgress>)
        ensures
            old(self).consistent() ==> (result matches Ok(progress) ==> final(self).consistent()
                && final(self).writable(progress)),
    {
        match self.refuse_open_write(&path) {
            Ok(()) => {},
            Err(e) => return Err(e),
        }
        if self.is_read_only() {
            return Err(FsError::illegal("the device is read-only"));
        }
        let result = self.start_write(&path);
        proof {
            if old(self).consistent() && result is Ok {
                let d = old(self).disk();
                let l = choose|l: Layout| sound(d, l);
                lemma_open_write_ok(d, path@);
                law_open_write_sound(d, l, path@);
                let h = crate::ffat::model::m_walk(d, path@).unwrap();
                let l2 = crate::ffat::packing::regrouped(
                    l,
                    h,
                    seq![h],
                    l.chains[h].skip(1) + l.free,
                );
                assert(l2.chains[h] == seq![h]);
                assert(seq![h].last() == h);
                assert(sound(self.disk(), l2) && valid_writer(self.disk(), l2, result.unwrap()));
            }
        }
        result
    }

    fn write(&mut self, progress: &mut WriteProgress, buffer: &[u8]) -> (result: FsResult<()>)
        ensures
            old(self).writable(*old(progress)) && result is Ok ==> final(self).writable(
                *final(progress),
            ) && final(self).consistent(),
    {
        match self.refuse_write(progress, buffer) {
            Ok(()) => {},
            Err(e) => return Err(e),
        }
        if self.is_read_only() {
            return Err(FsError::illegal("the device is read-only"));
        }
        let result = self.write_file(progress, buffer);
        proof {
            if old(self).writable(*old(progress)) && result is Ok {
                let d = old(self).disk();
                let l = choose|l: Layout| sound(d, l) && valid_writer(d, l, *old(progress));
                law_write_sound(d, l, *old(progress), buffer@);
                let l2 = written_layout(l, old(progress).0, buffer@.len() as int);
                assert(sound(self.disk(), l2) && valid_writer(self.disk(), l2, *progress));
            }
        }
        result
    }
}

impl<B: RWBlockDevice> ManageFileSystem for FFAT<B> {
    open spec fn delete_effect(&self, after: &Self, path: Seq<Seq<u8>>, answer: Answer<()>) -> bool {
        &&& effect(
            self,
            after,
            answer,
            delete_refusal(self.disk(), path),
            m_delete(self.disk(), path, self.disk().len()),
        )
        &&& root_refused(path, answer)
    }

    open spec fn clear_effect(&self, after: &Self, path: Seq<Seq<u8>>, answer: Answer<()>) -> bool {
        effect(self, after, answer, clear_refusal(self.disk(), path), m_clear(self.disk(), path))
    }

    open spec fn create_file_effect(&self, after: &Self, path: Seq<Seq<u8>>, answer: Answer<()>) -> bool {
        &&& effect(
            self,
            after,
            answer,
            create_refusal(self.disk(), path),
            m_create_file(self.disk(), path),
        )
        &&& root_refused(path, answer)
    }

    open spec fn create_dir_effect(&self, after: &Self, path: Seq<Seq<u8>>, answer: Answer<()>) -> bool {
        &&& effect(
            self,
            after,
            answer,
            create_refusal(self.disk(), path),
            m_create_dir(self.disk(), path),
        )
        &&& root_refused(path, answer)
    }

    fn delete(&mut self, path: Path) -> (result: FsResult<()>)
        ensures
            old(self).consistent() && result is Ok ==> final(self).consistent(),
            old(self).consistent() && old(self).reliable() && !old(self).read_only() && path@.len()
                > 0 && crate::ffat::model::m_walk(old(self).disk(), path@) is Ok ==> result is Ok,
    {
        proof {
            if old(self).consistent() && path@.len() > 0 && crate::ffat::model::m_walk(
                old(self).disk(),
                path@,
            ) is Ok {
                let d = old(self).disk();
                let l = choose|l: Layout| sound(d, l);
                crate::ffat::deleting::law_delete_succeeds(d, l, path@);
                crate::ffat::tree::lemma_walk_sound(d, l, path@);
            }
        }
        match self.refuse_delete(&path) {
            Ok(()) => {},
            Err(e) => return Err(e),
        }
        if self.is_read_only() {
            return Err(FsError::illegal("the device is read-only"));
        }
        let fuel = self.sectors();
        let result = self.delete_within(&path, fuel);
        proof {
            if old(self).consistent() && result is Ok {
                let d = old(self).disk();
                let l = choose|l: Layout| sound(d, l);
                let l2 = law_delete_sound(d, l, path@, d.len());
                assert(sound(self.disk(), l2));
            }
        }
        result
    }

    fn clear(&mut self, path: Path) -> (result: FsResult<()>)
        ensures
            old(self).consistent() && result is Ok ==> final(self).consistent(),
    {
        match self.refuse_clear(&path) {
            Ok(()) => {},
            Err(e) => return Err(e),
        }
        if self.is_read_only() {
            return Err(FsError::illegal("the device is read-only"));
        }
        let result = self.clear_path(&path);
        proof {
            if old(self).consistent() && result is Ok {
                let d = old(self).disk();
                let l = choose|l: Layout| sound(d, l);
                let l2 = law_clear_sound(d, l, path@);
                assert(sound(self.disk(), l2));
            }
        }
        result
    }

    fn create_file(&mut self, path: Path) -> (result: FsResult<()>)
        ensures
            old(self).consistent() && result is Ok ==> final(self).consistent(),
    {
        match self.refuse_create(&path) {
            Ok(()) => {},
            Err(e) => return Err(e),
        }
        if self.is_read_only() {
            return Err(FsError::illegal("the device is read-only"));
        }
        let result = self.make_file(&path);
        proof {
            if old(self).consistent() && result is Ok {
                let d = old(self).disk();
                let l = choose|l: Layout| sound(d, l);
                law_create_file_sound(d, l, path@);
                let l2 = crate::ffat::creation::created(
                    d,
                    l,
                    crate::ffat::model::m_walk(d, path@.drop_last()).unwrap(),
                    path@.last(),
                );
                assert(sound(self.disk(), l2));
            }
        }
        result
    }

    fn create_dir(&mut self, path: Path) -> (result: FsResult<()>)
        ensures
            old(self).consistent() && result is Ok ==> final(self).consistent(),
    {
        match self.refuse_create(&path) {
            Ok(()) => {},
            Err(e) => return Err(e),
        }
        if self.is_read_only() {
            return Err(FsError::illegal("the device is read-only"));
        }
        let result = self.make_dir(&path);
        proof {
            if old(self).consistent() && result is Ok {
                let d = old(self).disk();
                let l = choose|l: Layout| sound(d, l);
                law_create_dir_sound(d, l, path@);
                let l2 = crate::ffat::creation::created(
                    d,
                    l,
                    crate::ffat::model::m_walk(d, path@.drop_last()).unwrap(),
                    path@.last(),
                );
                assert(sound(self.disk(), l2));
            }
        }
        result
    }
}

impl<B: RWBlockDevice> MountedFileSystem<B> for FFAT<B> {
    open spec fn mounted_blocks(&self) -> Seq<Seq<u8>> {
        self.disk()
    }

    fn name() -> (name: &'static str)
        ensures
            name@ == "FFAT"@,
    {
        FFAT::<B>::name()
    }

    open spec fn mount_answer(device: &B, result: Result<Self, B>) -> bool {
        mounted(device, result)
    }

    open spec fn format_answer(device: &B, result: Result<Self, B>) -> bool {
        formatted(device, result) && (result matches Ok(fs) ==> fs.consistent())
    }

    fn mount(device: B) -> (result: Result<Self, B>) {
        FFAT::mount(device)
    }

    fn format(device: B) -> (result: Result<Self, B>) {
        FFAT::format(device)
    }

    fn inner(self) -> (device: B)
        ensures
            device.spec_block_size() == 4096,
            device.blocks_view().len() >= 1,
            device.reliable() == self.reliable(),
            device.spec_read_only() == self.read_only(),
    {
        FFAT::inner(self)
    }

    open spec fn spec_name() -> Seq<char> {
        "FFAT"@
    }
}

/// Reading a file, 4096 bytes at a time, until a read gives nothing, gives what the chain of
/// the file holds from the position on up to the size of the file.
pub proof fn law_drained_is_content<B: RWBlockDevice>(
    fs: FFAT<B>,
    c: Seq<u64>,
    progress: ReadProgress,
    out: Seq<u8>,
    steps: nat,
)
    requires
        crate::ffat::stream::reader_at(fs.disk(), c, progress),
        crate::files::drains(fs, progress, out, steps),
    ensures
        out == crate::ffat::content::content(fs.disk(), c, c.len() as int).subrange(
            progress.0.byte_offset as int,
            progress.1 as int,
        ),
    decreases steps,
{
    let d = fs.disk();
    let stream = crate::ffat::content::content(d, c, c.len() as int);
    let o = progress.0.byte_offset as int;
    crate::ffat::stream::lemma_read_at(d, c, progress, 4096);
    crate::ffat::chains::lemma_linked_short(d, c);
    crate::ffat::content::lemma_content_len(d, c, 0, c.len() as int);
    if steps == 0 {
        let after = choose|after: ReadProgress|
            fs.read_answer(progress, 4096, Ok((after, Seq::<u8>::empty())));
        assert(stream.subrange(o, progress.1 as int) =~= out);
    } else {
        let (after, part) = choose|after: ReadProgress, part: Seq<u8>|
            0 < part.len() <= out.len() && #[trigger] fs.read_answer(
                progress,
                4096,
                Ok((after, part)),
            ) && out.take(part.len() as int) == part && crate::files::drains(
                fs,
                after,
                out.skip(part.len() as int),
                (steps - 1) as nat,
            );
        let rest = out.skip(part.len() as int);
        assert(after == ReadProgress(m_read(d, progress, 4096).unwrap().0, progress.1));
        law_drained_is_content(fs, c, after, rest, (steps - 1) as nat);
        assert(out =~= out.take(part.len() as int) + rest);
        assert(part + rest =~= stream.subrange(o, progress.1 as int));
    }
}

/// What is written into a file is what reading the whole file gives. On a sound volume,
/// where a file was opened for writing and `data` was written, and the free list had one
/// sector more than the data filled, reading the file from its start, 4096 bytes at a
/// time, until a read gives nothing, gives the data.
pub proof fn law_written_is_drained<B: RWBlockDevice>(
    fs: FFAT<B>,
    before: Disk,
    l: Layout,
    path: Seq<Seq<u8>>,
    data: Seq<u8>,
    out: Seq<u8>,
    steps: nat,
)
    requires
        sound(before, l),
        crate::ffat::model::m_walk(before, path) is Ok,
        entry_of(before, crate::ffat::model::m_walk(before, path).unwrap()).sector_type
            == SectorType::File,
        data.len() <= u64::MAX,
        data.len() / 4096 < l.free.len() + l.chains[crate::ffat::model::m_walk(
            before,
            path,
        ).unwrap()].len() - 1,
        fs.disk() == m_write(
            m_open_write(before, path).0,
            m_open_write(before, path).1.unwrap(),
            data,
        ).0,
        m_open_read(fs.disk(), path) is Ok,
        crate::files::drains(fs, m_open_read(fs.disk(), path).unwrap(), out, steps),
    ensures
        out == data,
{
    let h = crate::ffat::model::m_walk(before, path).unwrap();
    law_open_write_sound(before, l, path);
    let d1 = m_open_write(before, path).0;
    let start = FileProgress { head: h, sector: h, byte_offset: 0 };
    let f1 = l.chains[h].skip(1) + l.free;
    let l1 = crate::ffat::packing::regrouped(l, h, seq![h], f1);
    crate::ffat::tree::lemma_sound_chain(d1, l1, h);
    assert(l1.chains[h] == seq![h]);
    crate::ffat::stream::lemma_write_file(d1, h, f1, data);
    let d2 = fs.disk();
    let k = data.len() as int / 4096;
    let c2 = seq![h] + f1.take(k);
    let after = crate::ffat::file_laws::law_file_roundtrip(before, l, path, data, 0);
    let progress = m_open_read(d2, path).unwrap();
    assert(progress == ReadProgress(start, data.len() as u64));
    assert(c2[0] == h);
    assert(crate::ffat::stream::reader_at(d2, c2, progress)) by {
        reveal(crate::ffat::payload::tidy);
    }
    law_drained_is_content(fs, c2, progress, out, steps);
    crate::ffat::payload::lemma_tidy_bounds(d2, c2, f1.skip(k));
    crate::ffat::stream::lemma_stream_content(d2, c2, data);
}

/// Reads that each give some bytes lead from a position in a file to a position in that
/// file, and give as many bytes as the position has moved.
pub proof fn lemma_reached_in_file<B: RWBlockDevice>(
    fs: FFAT<B>,
    c: Seq<u64>,
    progress: ReadProgress,
    out: Seq<u8>,
    steps: nat,
    to: ReadProgress,
)
    requires
        crate::ffat::stream::reader_at(fs.disk(), c, progress),
        crate::files::reaches(fs, progress, out, steps, to),
    ensures
        crate::ffat::stream::reader_at(fs.disk(), c, to),
        to.1 == progress.1,
        out.len() == to.0.byte_offset - progress.0.byte_offset,
    decreases steps,
{
    if steps > 0 {
        let (after, part) = choose|after: ReadProgress, part: Seq<u8>|
            0 < part.len() <= out.len() && #[trigger] fs.read_answer(
                progress,
                4096,
                Ok((after, part)),
            ) && out.take(part.len() as int) == part && crate::files::reaches(
                fs,
                after,
                out.skip(part.len() as int),
                (steps - 1) as nat,
                to,
            );
        crate::ffat::stream::lemma_read_at(fs.disk(), c, progress, 4096);
        crate::ffat::chains::lemma_linked_short(fs.disk(), c);
        crate::ffat::content::lemma_content_len(fs.disk(), c, 0, c.len() as int);
        assert(after == ReadProgress(m_read(fs.disk(), progress, 4096).unwrap().0, progress.1));
        assert(part == m_read(fs.disk(), progress, 4096).unwrap().1);
        assert(part.len() == after.0.byte_offset - progress.0.byte_offset);
        lemma_reached_in_file(fs, c, after, out.skip(part.len() as int), (steps - 1) as nat, to);
    }
}

/// What is written into a file can be read as a whole. On a sound volume on a device that
/// does not fault, where a file was opened for writing and `data` was written, and the free
/// list had one sector more than the data filled, the file opens for reading, and reading
/// the whole file does not end with an error.
pub proof fn law_written_is_read_whole<B: RWBlockDevice>(
    fs: FFAT<B>,
    before: Disk,
    l: Layout,
    path: Seq<Seq<u8>>,
    data: Seq<u8>,
    kind: ErrorKind,
)
    requires
        fs.reliable(),
        sound(before, l),
        crate::ffat::model::m_walk(before, path) is Ok,
        entry_of(before, crate::ffat::model::m_walk(before, path).unwrap()).sector_type
            == SectorType::File,
        data.len() <= u64::MAX,
        data.len() <= usize::MAX,
        data.len() / 4096 < l.free.len() + l.chains[crate::ffat::model::m_walk(
            before,
            path,
        ).unwrap()].len() - 1,
        fs.disk() == m_write(
            m_open_write(before, path).0,
            m_open_write(before, path).1.unwrap(),
            data,
        ).0,
    ensures
        m_open_read(fs.disk(), path) is Ok,
        !crate::files::gives_up(fs, path, kind),
{
    let h = crate::ffat::model::m_walk(before, path).unwrap();
    law_open_write_sound(before, l, path);
    let d1 = m_open_write(before, path).0;
    let start = FileProgress { head: h, sector: h, byte_offset: 0 };
    let f1 = l.chains[h].skip(1) + l.free;
    let l1 = crate::ffat::packing::regrouped(l, h, seq![h], f1);
    crate::ffat::tree::lemma_sound_chain(d1, l1, h);
    assert(l1.chains[h] == seq![h]);
    crate::ffat::stream::lemma_write_file(d1, h, f1, data);
    let d2 = fs.disk();
    let k = data.len() as int / 4096;
    let c2 = seq![h] + f1.take(k);
    let after = crate::ffat::file_laws::law_file_roundtrip(before, l, path, data, 0);
    let progress = m_open_read(d2, path).unwrap();
    assert(progress == ReadProgress(start, data.len() as u64));
    assert(c2[0] == h);
    assert(crate::ffat::stream::reader_at(d2, c2, progress)) by {
        reveal(crate::ffat::payload::tidy);
    }
    if crate::files::gives_up(fs, path, kind) {
        assert(!fs.open_read_answer(path, Err(kind)));
        let (first, out, steps, at) = choose|
            first: ReadProgress,
            out: Seq<u8>,
            steps: nat,
            at: ReadProgress,
        |
            fs.open_read_answer(path, Ok(first)) && #[trigger] crate::files::reaches(
                fs,
                first,
                out,
                steps,
                at,
            ) && (fs.read_answer(at, 4096, Err(kind)) || (kind == ErrorKind::InternalError
                && exists|next: ReadProgress, part: Seq<u8>| #[trigger]
                fs.read_answer(at, 4096, Ok((next, part))) && out.len() + part.len()
                    > usize::MAX));
        assert(first == progress);
        lemma_reached_in_file(fs, c2, progress, out, steps, at);
        crate::ffat::stream::lemma_read_at(d2, c2, at, 4096);
        assert(!fs.read_answer(at, 4096, Err(kind)));
        let (next, part) = choose|next: ReadProgress, part: Seq<u8>| #[trigger]
            fs.read_answer(at, 4096, Ok((next, part))) && out.len() + part.len() > usize::MAX;
        crate::ffat::chains::lemma_linked_short(d2, c2);
        crate::ffat::content::lemma_content_len(d2, c2, 0, c2.len() as int);
        assert(part.len() <= at.1 - at.0.byte_offset);
        assert(false);
    }
}

} // verus!
