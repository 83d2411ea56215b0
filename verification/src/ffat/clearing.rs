use vstd::prelude::*;
use crate::error::ErrorKind;
use crate::ffat::chains::{
    changed, lemma_changed_shape, lemma_changed_trans, lemma_changed_wider, linked,
};
use crate::ffat::content::{content, payload_entries};
use crate::ffat::dir::{lemma_encode_decode_dir, spec_encode_dir};
use crate::ffat::dirwrite::{dir_written, lemma_dir_written_facts, lemma_tidy_set_use, lemma_write_dir};
use crate::ffat::file_laws::{law_clear_file_twice, lemma_walk_kept};
use crate::ffat::files_kept::{law_clear_file_sound, lemma_tree_kept, same_names};
use crate::ffat::members::{fitted, spared};
use crate::ffat::model::{
    chunk_count, disk_wf, m_clear, m_clear_at, m_cut_after, m_delete, m_delete_children, m_delete_each, m_meta, m_set_meta, m_walk, m_write_dir_at, Disk, Entries,
};
use crate::ffat::packing::{lemma_other_kept, lemma_regroup, regrouped, within};
use crate::ffat::payload::{lemma_tidy_at, lemma_tidy_bounds, lemma_tidy_cut, tidy};
use crate::ffat::pruning::{emptied, lemma_children_thin};
use crate::ffat::sound::{chain_ok, entries_of, entry_of, sound, Layout};
use crate::ffat::structs::{Sector, SectorType};
use crate::ffat::tree::{lemma_sound_chain, lemma_walk_sound};

verus! {

/// The chain of a directory without entries is its first sector alone, and its size is
/// that of the payload of a directory without entries.
pub proof fn lemma_empty_dir_chain(d: Disk, l: Layout, h: u64)
    requires
        sound(d, l),
        l.chains.contains_key(h),
        entry_of(d, h).sector_type == SectorType::Dir,
        entries_of(d, l, h).len() == 0,
    ensures
        l.chains[h] == seq![h],
        entry_of(d, h).size == 8,
        entry_of(d, h).next == 0,
{
    lemma_sound_chain(d, l, h);
    let c = l.chains[h];
    let size = entry_of(d, h).size;
    crate::ffat::chains::lemma_linked_short(d, c);
    crate::ffat::content::lemma_content_len(d, c, 0, chunk_count(size as nat) as int);
    let bytes = content(d, c, chunk_count(size as nat) as int).take(size as int);
    assert(bytes.len() == size);
    lemma_encode_decode_dir(bytes);
    let none = entries_of(d, l, h);
    assert(none =~= Seq::<(u64, Seq<u8>)>::empty());
    crate::ffat::layout::lemma_le_roundtrip();
    assert(crate::ffat::dir::encode_addrs(crate::ffat::dir::addrs_of(none)) =~= Seq::<u8>::empty());
    assert(crate::ffat::dir::encode_names(crate::ffat::dir::names_of(none)) =~= Seq::<u8>::empty());
    assert(spec_encode_dir(none).len() == 8);
    assert(c.len() == 1);
    assert(c =~= seq![h]);
    assert(m_meta(d, c[0]).unwrap().next == 0);
}

/// Emptying a directory without entries at its first sector and writing it without entries
/// leaves a directory without entries, of one sector, beside the same free list.
pub proof fn lemma_rewrite_empty(d: Disk, h: u64, f: Seq<u64>)
    requires
        tidy(d, seq![h], f),
        m_meta(d, h).unwrap().sector_type == SectorType::Dir,
    ensures
        m_clear_at(d, h).1 == Ok::<(), ErrorKind>(()),
        m_write_dir_at(m_clear_at(d, h).0, h, Seq::empty()).1 == Ok::<(), ErrorKind>(()),
        tidy(m_write_dir_at(m_clear_at(d, h).0, h, Seq::empty()).0, seq![h], f),
        changed(
            d,
            m_write_dir_at(m_clear_at(d, h).0, h, Seq::empty()).0,
            set![h],
            set![h],
        ),
        chain_ok(m_write_dir_at(m_clear_at(d, h).0, h, Seq::empty()).0, h, seq![h]),
        entry_of(m_write_dir_at(m_clear_at(d, h).0, h, Seq::empty()).0, h).sector_type
            == SectorType::Dir,
        payload_entries(
            m_write_dir_at(m_clear_at(d, h).0, h, Seq::empty()).0,
            seq![h],
            entry_of(m_write_dir_at(m_clear_at(d, h).0, h, Seq::empty()).0, h).size,
        ) == Some(Seq::<(u64, Seq<u8>)>::empty()),
{
    let c = seq![h];
    let none: Entries = Seq::empty();
    assert(c[0] == h);
    lemma_tidy_bounds(d, c, f);
    lemma_tidy_cut(d, c, f, 1);
    let d1 = m_cut_after(d, h).0;
    assert(c.take(1) =~= c);
    assert(c.skip(1) + f =~= f);
    lemma_tidy_at(d1, c, f, 0);
    let entry = m_meta(d1, h).unwrap();
    let emptied = Sector { size: 0, ..entry };
    lemma_tidy_set_use(d1, c, f, 0, emptied);
    let d2 = m_set_meta(d1, h, emptied).0;
    assert(m_clear_at(d, h) == (d2, Ok::<(), ErrorKind>(()))) by {
        reveal(m_clear_at);
    }
    let m1 = set![c[0]].union(c.skip(1).to_set());
    lemma_changed_trans(d, d1, d2, m1, Set::empty(), set![h], Set::empty());
    assert(Set::<u64>::empty().union(Set::<u64>::empty()) =~= Set::<u64>::empty());
    assert(c.skip(1).to_set() =~= Set::<u64>::empty());
    crate::ffat::layout::lemma_le_roundtrip();
    assert(crate::ffat::dir::encode_addrs(crate::ffat::dir::addrs_of(none)) =~= Seq::<u8>::empty());
    assert(crate::ffat::dir::encode_names(crate::ffat::dir::names_of(none)) =~= Seq::<u8>::empty());
    assert(spec_encode_dir(none).len() == 8);
    assert(chunk_count(8) == 1);
    lemma_write_dir(d2, c, f, none);
    let d3 = m_write_dir_at(d2, h, none).0;
    lemma_dir_written_facts(d2, c, f, none, d3);
    assert(fitted(c, f, 1) =~= c) by {
        assert(f.take(0) =~= Seq::<u64>::empty());
    }
    assert(spared(c, f, 1) =~= f) by {
        assert(f.take(0) =~= Seq::<u64>::empty());
        assert(f.skip(0) =~= f);
    }
    assert((c + f.take(0)).take(1) =~= c);
    assert((c + f.take(0)).skip(1) + f.skip(0) =~= f);
    let m2 = c.to_set().union(f.take(0).to_set());
    lemma_changed_trans(d, d2, d3, m1.union(set![h]), Set::empty(), m2, c.to_set());
    assert(c.to_set() =~= set![h]) by {
        assert forall|x: u64| c.to_set().contains(x) == set![h].contains(x) by {
            if x == h {
                assert(c[0] == x);
            }
        }
    }
    assert(f.take(0).to_set() =~= Set::<u64>::empty());
    lemma_changed_wider(
        d,
        d3,
        m1.union(set![h]).union(m2),
        Set::<u64>::empty().union(c.to_set()),
        set![h],
        set![h],
    );
    assert(linked(d3, c)) by {
        reveal(tidy);
    }
    assert(payload_entries(d3, c, 8) == Some(none)) by {
        reveal(dir_written);
    }
}

/// What emptying a directory of one sector at its first sector and writing it without
/// entries comes to: its table entry says that it has the 8 bytes of the payload of a
/// directory without entries, and its sector holds that payload.
pub proof fn lemma_rewrite_empty_form(d: Disk, h: u64, f: Seq<u64>)
    requires
        tidy(d, seq![h], f),
    ensures
        m_write_dir_at(m_clear_at(d, h).0, h, Seq::empty()).0 == m_set_meta(
            d,
            h,
            Sector { size: 8, next: 0, ..m_meta(d, h).unwrap() },
        ).0.update(h as int, crate::ffat::model::chunk(spec_encode_dir(Seq::empty()), 0)),
        m_meta(d, h) is Ok,
        disk_wf(d),
{
    let c = seq![h];
    let none: Entries = Seq::empty();
    let bytes = spec_encode_dir(none);
    assert(c[0] == h);
    lemma_tidy_bounds(d, c, f);
    lemma_tidy_at(d, c, f, 0);
    let entry = m_meta(d, h).unwrap();
    assert(entry.next == 0);
    let zero = Sector { size: 0, ..entry };
    let eight = Sector { size: 8, ..entry };
    crate::ffat::chains::lemma_set_meta_same_but(d, h, zero);
    let d2 = m_set_meta(d, h, zero).0;
    assert(m_clear_at(d, h) == (d2, Ok::<(), ErrorKind>(()))) by {
        reveal(m_clear_at);
        reveal(m_cut_after);
    }
    crate::ffat::layout::lemma_le_roundtrip();
    assert(crate::ffat::dir::encode_addrs(crate::ffat::dir::addrs_of(none)) =~= Seq::<u8>::empty());
    assert(crate::ffat::dir::encode_names(crate::ffat::dir::names_of(none)) =~= Seq::<u8>::empty());
    assert(bytes.len() == 8);
    assert(chunk_count(8) == 1);
    crate::ffat::chains::lemma_set_meta_same_but(d2, h, eight);
    let d3 = m_set_meta(d2, h, eight).0;
    crate::ffat::laws::lemma_set_meta_over(d, h, zero, eight);
    let block = crate::ffat::model::chunk(bytes, 0);
    crate::ffat::chains::lemma_block_same_but(d3, h, block);
    let d4 = d3.update(h as int, block);
    crate::ffat::chains::lemma_changed_meta(d3, d4, Set::empty(), set![h], h);
    assert(m_write_dir_at(d2, h, none) == (d4, Ok::<(), ErrorKind>(()))) by {
        reveal(m_write_dir_at);
        reveal(crate::ffat::model::m_write_payload);
        reveal(crate::ffat::model::m_write_chunks);
        reveal(m_cut_after);
        assert(Sector { size: 8, ..zero } == eight);
    }
}

/// Emptying a directory of one sector that was just emptied changes nothing.
pub proof fn lemma_rewrite_empty_again(d: Disk, h: u64, f: Seq<u64>)
    requires
        tidy(d, seq![h], f),
        m_meta(d, h).unwrap().sector_type == SectorType::Dir,
    ensures
        m_write_dir_at(
            m_clear_at(m_write_dir_at(m_clear_at(d, h).0, h, Seq::empty()).0, h).0,
            h,
            Seq::empty(),
        ).0 == m_write_dir_at(m_clear_at(d, h).0, h, Seq::empty()).0,
{
    let none: Entries = Seq::empty();
    let bytes = spec_encode_dir(none);
    let block = crate::ffat::model::chunk(bytes, 0);
    lemma_rewrite_empty_form(d, h, f);
    lemma_rewrite_empty(d, h, f);
    let entry = m_meta(d, h).unwrap();
    let eight = Sector { size: 8, next: 0, ..entry };
    let x = m_set_meta(d, h, eight).0;
    let d4 = x.update(h as int, block);
    assert(m_write_dir_at(m_clear_at(d, h).0, h, none).0 == d4);
    lemma_rewrite_empty_form(d4, h, f);
    crate::ffat::chains::lemma_set_meta_same_but(d, h, eight);
    crate::ffat::chains::lemma_block_same_but(x, h, block);
    crate::ffat::chains::lemma_changed_meta(x, d4, Set::empty(), set![h], h);
    assert(m_meta(d4, h) == Ok::<Sector, ErrorKind>(eight));
    assert(Sector { size: 8, next: 0, ..eight } == eight);
    crate::ffat::laws::lemma_set_meta_commutes(x, h, eight, h, block);
    crate::ffat::laws::lemma_set_meta_again(d, h, eight);
    assert(m_set_meta(d4, h, eight).0 == x.update(h as int, block));
    assert(x.update(h as int, block).update(h as int, block) =~= x.update(h as int, block));
}

/// What the volume is after a directory was emptied: everything below the directory is
/// gone, and the directory, of one sector, lists nothing.
pub open spec fn dir_cleared(d: Disk, l: Layout, path: Seq<Seq<u8>>, l1: Layout, l3: Layout) -> bool {
    let h = m_walk(d, path).unwrap();
    let d1 = m_delete_children(d, path, d.len()).0;
    let e = m_write_dir_at(m_clear_at(d1, h).0, h, Seq::empty()).0;
    &&& emptied(d, l, path, d1, l1)
    &&& tidy(d1, seq![h], l1.free)
    &&& m_clear(d, path) == (e, Ok::<(), ErrorKind>(()))
    &&& sound(e, l3)
    &&& same_names(d1, l1, e, l3)
    &&& l3.chains.contains_key(h)
    &&& entry_of(e, h).sector_type == SectorType::Dir
    &&& entries_of(e, l3, h).len() == 0
}

/// Emptying a directory, where it succeeds on a sound volume, deletes everything below the
/// directory and leaves it listing nothing.
pub proof fn lemma_clear_dir(d: Disk, l: Layout, path: Seq<Seq<u8>>) -> (layouts: (Layout, Layout))
    requires
        sound(d, l),
        m_clear(d, path).1 is Ok,
        m_walk(d, path) is Ok,
        entry_of(d, m_walk(d, path).unwrap()).sector_type == SectorType::Dir,
    ensures
        dir_cleared(d, l, path, layouts.0, layouts.1),
{
    reveal(m_clear);
    let h = m_walk(d, path).unwrap();
    lemma_walk_sound(d, l, path);
    let l1 = lemma_children_thin(d, l, path, d.len());
    let d1 = m_delete_children(d, path, d.len()).0;
    lemma_empty_dir_chain(d1, l1, h);
    lemma_sound_chain(d1, l1, h);
    let f = l1.free;
    lemma_rewrite_empty(d1, h, f);
    let d3 = m_write_dir_at(m_clear_at(d1, h).0, h, Seq::empty()).0;
    assert(within(set![h], l1.chains[h], f)) by {
        assert(seq![h][0] == h);
    }
    lemma_regroup(d1, l1, d3, set![h], set![h], h, seq![h], f);
    let l3 = regrouped(l1, h, seq![h], f);
    lemma_changed_shape(d1, d3, set![h], set![h]);
    assert(l3.chains.dom() =~= l1.chains.dom());
    assert forall|x: u64| #[trigger] l1.chains.contains_key(x) implies entry_of(d3, x).sector_type
        == entry_of(d1, x).sector_type by {
        if x != h {
            lemma_other_kept(d1, l1, d3, set![h], set![h], h, x);
        }
    }
    assert forall|x: u64|
        #[trigger] l1.chains.contains_key(x) && entry_of(d1, x).sector_type
            == SectorType::Dir implies entries_of(d3, l3, x) == entries_of(d1, l1, x) by {
        if x != h {
            lemma_other_kept(d1, l1, d3, set![h], set![h], h, x);
        } else {
            assert(entries_of(d1, l1, h) =~= Seq::<(u64, Seq<u8>)>::empty());
        }
    }
    lemma_tree_kept(d1, l1, d3, l3);
    assert forall|x: u64| l3.chains.contains_key(x) == #[trigger] l1.chains.contains_key(x) by {
    }
    (l1, l3)
}

/// Emptying twice is emptying once: after a file or directory was emptied, emptying it
/// again succeeds and changes nothing.
pub proof fn law_clear_twice(d: Disk, l: Layout, path: Seq<Seq<u8>>)
    requires
        sound(d, l),
        m_clear(d, path).1 is Ok,
    ensures
        m_clear(m_clear(d, path).0, path) == m_clear(d, path),
{
    assert(m_walk(d, path) is Ok) by {
        reveal(m_clear);
    }
    let h = m_walk(d, path).unwrap();
    lemma_walk_sound(d, l, path);
    if entry_of(d, h).sector_type == SectorType::File {
        law_clear_file_twice(d, l, path);
    } else {
        let (l1, l3) = lemma_clear_dir(d, l, path);
        let d1 = m_delete_children(d, path, d.len()).0;
        let e = m_clear(d, path).0;
        lemma_walk_kept(d1, l1, e, l3, path);
        crate::ffat::tree::lemma_sound_dir(e, l3, h);
        assert(m_delete_children(e, path, e.len()) == (e, Ok::<(), ErrorKind>(()))) by {
            reveal(m_delete);
            reveal(m_delete_children);
            reveal(m_delete_each);
            assert(crate::ffat::dir::names_of(entries_of(e, l3, h)) =~= Seq::<Seq<u8>>::empty());
        }
        lemma_rewrite_empty_again(d1, h, l1.free);
        lemma_sound_chain(e, l3, h);
        lemma_empty_dir_chain(e, l3, h);
        lemma_rewrite_empty(e, h, l3.free);
        assert(m_clear(e, path) == (e, Ok::<(), ErrorKind>(()))) by {
            reveal(m_clear);
        }
    }
}

/// Emptying, where it succeeds on a sound volume, leaves the volume sound: a file keeps
/// one empty sector, and a directory loses everything below it and lists nothing.
pub proof fn law_clear_sound(d: Disk, l: Layout, path: Seq<Seq<u8>>) -> (after: Layout)
    requires
        sound(d, l),
        m_clear(d, path).1 is Ok,
    ensures
        sound(m_clear(d, path).0, after),
{
    assert(m_walk(d, path) is Ok) by {
        reveal(m_clear);
    }
    let h = m_walk(d, path).unwrap();
    lemma_walk_sound(d, l, path);
    if entry_of(d, h).sector_type == SectorType::File {
        law_clear_file_sound(d, l, h);
        assert(m_clear(d, path) == m_clear_at(d, h)) by {
            reveal(m_clear);
        }
        regrouped(l, h, seq![h], l.chains[h].skip(1) + l.free)
    } else {
        let (l1, l3) = lemma_clear_dir(d, l, path);
        l3
    }
}

} // verus!
