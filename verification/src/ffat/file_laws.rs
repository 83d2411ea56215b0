use vstd::prelude::*;
use crate::error::ErrorKind;
use crate::ffat::chains::{lemma_changed_shape, linked};
use crate::ffat::files_kept::{law_clear_file_sound, lemma_regroup_file, same_names};
use crate::ffat::laws::lemma_set_meta_again;
use crate::ffat::members::{lemma_in_parts, lemma_in_skip, lemma_in_take};
use crate::ffat::model::{
    m_clear, m_clear_at, m_cut_after, m_lookup, m_meta, m_open, m_open_read, m_open_write, m_read, m_read_dir_at, m_root, m_set_meta, m_walk, m_walk_from, m_write, min2, Disk,
};
use crate::ffat::packing::{regrouped, within};
use crate::ffat::payload::{lemma_in_concat, lemma_tidy_at, lemma_tidy_bounds, tidy};
use crate::ffat::sound::{chain_ok, entries_of, entry_of, sound, Layout};
use crate::ffat::stream::{lemma_read_file, lemma_write_file};
use crate::ffat::structs::{FileProgress, ReadProgress, Sector, SectorType, WriteProgress};
use crate::ffat::tree::{lemma_sound_chain, lemma_sound_dir, lemma_sound_lookup, lemma_walk_sound};

verus! {

/// Paths lead to the same place on two volumes with the same names.
pub proof fn lemma_walk_from_kept(d: Disk, l: Layout, e: Disk, l2: Layout, from: u64, names: Seq<Seq<u8>>)
    requires
        same_names(d, l, e, l2),
        l.chains.contains_key(from),
    ensures
        m_walk_from(e, from, names) == m_walk_from(d, from, names),
    decreases names.len(),
{
    reveal(m_walk_from);
    if names.len() > 0 {
        assert(l2.chains.contains_key(from));
        lemma_sound_chain(d, l, from);
        lemma_sound_chain(e, l2, from);
        if entry_of(d, from).sector_type == SectorType::Dir {
            lemma_sound_dir(d, l, from);
            lemma_sound_dir(e, l2, from);
            let entries = entries_of(d, l, from);
            if m_lookup(entries, names[0]) is Some {
                lemma_sound_lookup(d, l, from, names[0]);
                lemma_walk_from_kept(
                    d,
                    l,
                    e,
                    l2,
                    m_lookup(entries, names[0]).unwrap(),
                    names.drop_first(),
                );
            }
        } else {
            reveal(m_read_dir_at);
        }
    }
}

/// Paths lead to the same place on two volumes with the same names.
pub proof fn lemma_walk_kept(d: Disk, l: Layout, e: Disk, l2: Layout, path: Seq<Seq<u8>>)
    requires
        same_names(d, l, e, l2),
    ensures
        m_walk(e, path) == m_walk(d, path),
{
    reveal(m_walk);
    assert(l.chains.contains_key(m_root(d).unwrap().root)) by {
        reveal(crate::ffat::sound::tree_ok);
    }
    lemma_walk_from_kept(d, l, e, l2, m_root(d).unwrap().root, path);
}

/// After a chain was emptied at its first sector, emptying it there again changes nothing.
pub proof fn lemma_clear_again(d: Disk, c: Seq<u64>, f: Seq<u64>)
    requires
        tidy(d, c, f),
    ensures
        m_clear_at(d, c[0]).1 == Ok::<(), ErrorKind>(()),
        m_clear_at(m_clear_at(d, c[0]).0, c[0]) == m_clear_at(d, c[0]),
{
    let h = c[0];
    lemma_tidy_bounds(d, c, f);
    crate::ffat::payload::lemma_tidy_cut(d, c, f, 1);
    let d1 = m_cut_after(d, h).0;
    let c3 = c.take(1);
    let f3 = c.skip(1) + f;
    assert(c3[0] == h);
    lemma_tidy_at(d1, c3, f3, 0);
    let entry = m_meta(d1, h).unwrap();
    assert(entry.next == 0);
    let emptied = Sector { size: 0, ..entry };
    crate::ffat::chains::lemma_set_meta_same_but(d1, h, emptied);
    let e = m_set_meta(d1, h, emptied).0;
    assert(m_clear_at(d, h) == (e, Ok::<(), ErrorKind>(()))) by {
        reveal(m_clear_at);
    }
    assert(m_cut_after(e, h) == (e, Ok::<(), ErrorKind>(()))) by {
        reveal(m_cut_after);
    }
    lemma_set_meta_again(d1, h, emptied);
    assert(m_clear_at(e, h) == (e, Ok::<(), ErrorKind>(()))) by {
        reveal(m_clear_at);
        assert(Sector { size: 0, ..emptied } == emptied);
    }
}

/// After a file was emptied at its first sector, emptying it there again changes nothing.
pub proof fn lemma_clear_at_again(d: Disk, l: Layout, h: u64)
    requires
        sound(d, l),
        l.chains.contains_key(h),
    ensures
        m_clear_at(d, h).1 == Ok::<(), ErrorKind>(()),
        m_clear_at(m_clear_at(d, h).0, h) == m_clear_at(d, h),
{
    lemma_sound_chain(d, l, h);
    lemma_clear_again(d, l.chains[h], l.free);
}

/// Emptying a file twice is emptying it once: after a file was emptied, emptying it again
/// succeeds and changes nothing.
pub proof fn law_clear_file_twice(d: Disk, l: Layout, path: Seq<Seq<u8>>)
    requires
        sound(d, l),
        m_walk(d, path) is Ok,
        entry_of(d, m_walk(d, path).unwrap()).sector_type == SectorType::File,
    ensures
        m_clear(d, path).1 == Ok::<(), ErrorKind>(()),
        m_clear(m_clear(d, path).0, path) == m_clear(d, path),
{
    let h = m_walk(d, path).unwrap();
    lemma_walk_sound(d, l, path);
    lemma_clear_at_again(d, l, h);
    let e = m_clear_at(d, h).0;
    let l2 = regrouped(l, h, seq![h], l.chains[h].skip(1) + l.free);
    lemma_same_after_clear(d, l, h);
    lemma_walk_kept(d, l, e, l2, path);
    law_clear_file_sound(d, l, h);
    assert(m_clear(d, path) == m_clear_at(d, h)) by {
        reveal(m_clear);
    }
    assert(m_clear(e, path) == m_clear_at(e, h)) by {
        reveal(m_clear);
        assert(entry_of(e, h).sector_type == SectorType::File);
    }
}

/// After a file was emptied the files and directories are the same as before.
pub proof fn lemma_same_after_clear(d: Disk, l: Layout, h: u64)
    requires
        sound(d, l),
        l.chains.contains_key(h),
        entry_of(d, h).sector_type == SectorType::File,
    ensures
        same_names(
            d,
            l,
            m_clear_at(d, h).0,
            regrouped(l, h, seq![h], l.chains[h].skip(1) + l.free),
        ),
{
    law_clear_file_sound(d, l, h);
    let e = m_clear_at(d, h).0;
    let l2 = regrouped(l, h, seq![h], l.chains[h].skip(1) + l.free);
    assert(m_root(e).unwrap().root == m_root(d).unwrap().root) by {
        reveal(crate::ffat::sound::tree_ok);
        lemma_root_kept_by_clear(d, l, h);
    }
    assert forall|x: u64| l2.chains.contains_key(x) == #[trigger] l.chains.contains_key(x) by {
    }
    assert forall|x: u64| #[trigger] l.chains.contains_key(x) implies entry_of(e, x).sector_type
        == entry_of(d, x).sector_type by {
        if x != h {
            assert(l.chains[x] == l.chains[x]);
            assert(entry_of(e, x) == entry_of(d, x));
        }
    }
    assert forall|x: u64|
        #[trigger] l.chains.contains_key(x) && entry_of(d, x).sector_type
            == SectorType::Dir implies entries_of(e, l2, x) == entries_of(d, l, x) by {
        assert(x != h);
        assert(l2.chains[x] == l.chains[x]);
        assert(entry_of(e, x) == entry_of(d, x));
    }
}

/// Emptying a file keeps the root sector but for the head of the free list.
proof fn lemma_root_kept_by_clear(d: Disk, l: Layout, h: u64)
    requires
        sound(d, l),
        l.chains.contains_key(h),
        entry_of(d, h).sector_type == SectorType::File,
    ensures
        m_root(m_clear_at(d, h).0) is Ok,
        m_root(m_clear_at(d, h).0).unwrap().root == m_root(d).unwrap().root,
{
    reveal(m_clear_at);
    let c = l.chains[h];
    lemma_sound_chain(d, l, h);
    lemma_tidy_bounds(d, c, l.free);
    crate::ffat::payload::lemma_tidy_cut(d, c, l.free, 1);
    let d1 = m_cut_after(d, h).0;
    let m1 = set![c[0]].union(c.skip(1).to_set());
    lemma_changed_shape(d, d1, m1, Set::empty());
    lemma_tidy_at(d1, c.take(1), c.skip(1) + l.free, 0);
    assert(c.take(1)[0] == h);
    let entry = m_meta(d1, h).unwrap();
    crate::ffat::chains::lemma_set_meta_same_but(d1, h, Sector { size: 0, ..entry });
}

/// What opening a file for writing comes to on a sound volume: the file is emptied, the
/// volume stays sound, and the position is at the start of the file.
pub proof fn law_open_write_sound(d: Disk, l: Layout, path: Seq<Seq<u8>>)
    requires
        sound(d, l),
        m_walk(d, path) is Ok,
        entry_of(d, m_walk(d, path).unwrap()).sector_type == SectorType::File,
    ensures
        ({
            let h = m_walk(d, path).unwrap();
            let l2 = regrouped(l, h, seq![h], l.chains[h].skip(1) + l.free);
            &&& l.chains.contains_key(h)
            &&& m_open_write(d, path).1 == Ok::<WriteProgress, ErrorKind>(
                WriteProgress(FileProgress { head: h, sector: h, byte_offset: 0 }),
            )
            &&& m_open_write(d, path).0 == m_clear_at(d, h).0
            &&& sound(m_open_write(d, path).0, l2)
            &&& same_names(d, l, m_open_write(d, path).0, l2)
            &&& m_meta(m_open_write(d, path).0, h) == Ok::<Sector, ErrorKind>(
                Sector { sector_type: SectorType::File, size: 0, next: 0 },
            )
        }),
{
    let h = m_walk(d, path).unwrap();
    lemma_walk_sound(d, l, path);
    law_clear_file_sound(d, l, h);
    lemma_same_after_clear(d, l, h);
    assert(m_open(d, path) == Ok::<FileProgress, ErrorKind>(
        FileProgress { head: h, sector: h, byte_offset: 0 },
    )) by {
        reveal(m_open);
    }
    reveal(m_open_write);
}

/// What is written into a file is read from it. On a sound volume, where a file is opened
/// for writing and `data` is written, and the free list has one sector more than the data
/// fills, the write succeeds and leaves the volume sound; the file can then be opened for
/// reading with the length of the data as its size, and reading gives the data, up to as
/// many bytes as are wanted.
pub proof fn law_file_roundtrip(d: Disk, l: Layout, path: Seq<Seq<u8>>, data: Seq<u8>, want: nat) -> (after: Layout)
    requires
        sound(d, l),
        m_walk(d, path) is Ok,
        entry_of(d, m_walk(d, path).unwrap()).sector_type == SectorType::File,
        data.len() <= u64::MAX,
        data.len() / 4096 < l.free.len() + l.chains[m_walk(d, path).unwrap()].len() - 1,
    ensures
        ({
            let (d1, opened) = m_open_write(d, path);
            let (d2, written) = m_write(d1, opened.unwrap(), data);
            &&& opened is Ok
            &&& written is Ok
            &&& sound(d2, after)
            &&& m_open_read(d2, path) == Ok::<ReadProgress, ErrorKind>(
                ReadProgress(
                    FileProgress {
                        head: m_walk(d, path).unwrap(),
                        sector: m_walk(d, path).unwrap(),
                        byte_offset: 0,
                    },
                    data.len() as u64,
                ),
            )
            &&& m_read(d2, m_open_read(d2, path).unwrap(), want) is Ok
            &&& m_read(d2, m_open_read(d2, path).unwrap(), want).unwrap().1 == data.take(
                min2(want as int, data.len() as int),
            )
        }),
{
    let h = m_walk(d, path).unwrap();
    law_open_write_sound(d, l, path);
    let d1 = m_open_write(d, path).0;
    let start = FileProgress { head: h, sector: h, byte_offset: 0 };
    let f1 = l.chains[h].skip(1) + l.free;
    let l1 = regrouped(l, h, seq![h], f1);
    lemma_sound_chain(d1, l1, h);
    assert(l1.chains[h] == seq![h]);
    lemma_write_file(d1, h, f1, data);
    let d2 = m_write(d1, WriteProgress(start), data).0;
    let k = data.len() as int / 4096;
    let c2 = seq![h] + f1.take(k);
    let f2 = f1.skip(k);
    let metas = set![h].union(f1.take(k).to_set());
    let blocks = c2.to_set();
    assert(within(metas, seq![h], f1)) by {
        assert forall|x: u64| #[trigger] metas.contains(x) implies seq![h].contains(x)
            || f1.contains(x) by {
            if x == h {
                assert(seq![h][0] == x);
            }
            if f1.take(k).to_set().contains(x) {
                lemma_in_take(f1, k, x);
            }
        }
    }
    assert(within(blocks, seq![h], f1)) by {
        assert forall|x: u64| #[trigger] blocks.contains(x) implies seq![h].contains(x)
            || f1.contains(x) by {
            lemma_in_concat(seq![h], f1.take(k), x);
            if f1.take(k).contains(x) {
                lemma_in_take(f1, k, x);
            }
        }
    }
    assert(chain_ok(d2, h, c2)) by {
        assert(linked(d2, c2)) by {
            reveal(tidy);
        }
        assert(c2[0] == h);
    }
    assert forall|x: u64| (c2.contains(x) || f2.contains(x)) == (seq![h].contains(x)
        || f1.contains(x)) by {
        lemma_in_concat(seq![h], f1.take(k), x);
        if f1.take(k).contains(x) {
            lemma_in_take(f1, k, x);
        }
        if f2.contains(x) {
            lemma_in_skip(f1, k, x);
        }
        if f1.contains(x) {
            lemma_in_parts(f1, k, x);
        }
    }
    lemma_regroup_file(d1, l1, d2, metas, blocks, h, c2, f2);
    let l2 = regrouped(l1, h, c2, f2);
    lemma_walk_kept(d, l, d1, l1, path);
    lemma_walk_kept(d1, l1, d2, l2, path);
    assert(m_open_read(d2, path) == Ok::<ReadProgress, ErrorKind>(
        ReadProgress(start, data.len() as u64),
    )) by {
        reveal(m_open_read);
        reveal(m_open);
    }
    lemma_read_file(d2, c2, f2, data, want);
    assert(c2[0] == h);
    l2
}

} // verus!
