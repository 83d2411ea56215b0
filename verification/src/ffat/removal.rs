use vstd::prelude::*;
use crate::error::ErrorKind;
use crate::ffat::chains::{law_free_chain_prepends, lemma_changed_shape, linked};
use crate::ffat::content::payload_entries;
use crate::ffat::creation::{lemma_fitted_within, lemma_written_chain};
use crate::ffat::dir::{encodable, lemma_position, position, spec_encode_dir};
use crate::ffat::dirwrite::{lemma_dir_written_facts, lemma_write_dir};
use crate::ffat::members::{fitted, spared};
use crate::ffat::model::{
    chunk_count, m_free_chain, m_root, m_unlink, m_walk, m_write_dir_at, Disk, Entries,
};
use crate::ffat::packing::{lemma_other_kept, lemma_regroup, lemma_release, regrouped, released};
use crate::ffat::payload::{lacking, lemma_tidy_bounds, tidy};
use crate::ffat::scarce::lemma_write_dir_fails;
use crate::ffat::sound::{
    chain_ok, chains_ok, entries_of, entry_of, packed, separate, sound, tree_ok, Layout,
};
use crate::ffat::structs::SectorType;
use crate::ffat::tree::{lemma_sound_dir, lemma_sound_not_dir, lemma_walk_sound};
use crate::ffat::tree_edit::{lemma_tree_remove, same_but_at};

verus! {

/// The directory that lists what `path` names.
pub open spec fn parent_of(d: Disk, path: Seq<Seq<u8>>) -> u64 {
    m_walk(d, path.drop_last()).unwrap()
}

/// The index of the entry of what `path` names in the directory that lists it.
pub open spec fn slot_of(d: Disk, l: Layout, path: Seq<Seq<u8>>) -> int {
    position(entries_of(d, l, parent_of(d, path)), path.last()).unwrap()
}

/// The first sector of what `path` names.
pub open spec fn target_of(d: Disk, l: Layout, path: Seq<Seq<u8>>) -> u64 {
    entries_of(d, l, parent_of(d, path))[slot_of(d, l, path)].0
}

/// The entries of the parent without the entry of what `path` names.
pub open spec fn shorter_of(d: Disk, l: Layout, path: Seq<Seq<u8>>) -> Entries {
    entries_of(d, l, parent_of(d, path)).remove(slot_of(d, l, path))
}

/// What taking a file or directory out of its parent does, step by step, where it succeeds
/// on a sound volume: the parent is a directory that lists the name, the parent is written
/// without that entry, and the chain of what the entry named is given back.
#[verifier::opaque]
pub open spec fn unlink_parts(d: Disk, l: Layout, path: Seq<Seq<u8>>) -> bool {
    let p = parent_of(d, path);
    let h = target_of(d, l, path);
    let d1 = m_write_dir_at(d, p, shorter_of(d, l, path)).0;
    &&& path.len() > 0
    &&& m_walk(d, path.drop_last()) is Ok
    &&& l.chains.contains_key(p)
    &&& entry_of(d, p).sector_type == SectorType::Dir
    &&& position(entries_of(d, l, p), path.last()) is Some
    &&& 0 <= slot_of(d, l, path) < entries_of(d, l, p).len()
    &&& l.chains.contains_key(h)
    &&& h != p
    &&& m_write_dir_at(d, p, shorter_of(d, l, path)).1 is Ok
    &&& m_unlink(d, path) == m_free_chain(d1, h)
    &&& encodable(shorter_of(d, l, path))
    &&& spec_encode_dir(shorter_of(d, l, path)).len() <= u64::MAX
}

/// Taking a file or directory out of its parent, where it succeeds on a sound volume, goes
/// through its steps.
pub proof fn lemma_unlink_parts(d: Disk, l: Layout, path: Seq<Seq<u8>>)
    requires
        sound(d, l),
        m_unlink(d, path).1 is Ok,
    ensures
        unlink_parts(d, l, path),
{
    reveal(unlink_parts);
    reveal(m_unlink);
    let p = parent_of(d, path);
    lemma_walk_sound(d, l, path.drop_last());
    if entry_of(d, p).sector_type == SectorType::Dir {
        lemma_sound_dir(d, l, p);
    } else {
        lemma_sound_not_dir(d, l, p);
    }
    let entries = entries_of(d, l, p);
    lemma_position(entries, path.last());
    let i = slot_of(d, l, path);
    let h = entries[i].0;
    assert(l.chains.contains_key(h) && h != p) by {
        reveal(tree_ok);
        assert(l.chains.contains_key(entries_of(d, l, p)[i].0));
        assert(l.parent[h] == p);
        assert(l.chains.contains_key(h));
        if h == p {
            assert(h != m_root(d).unwrap().root);
            assert(l.depth[h] == l.depth[l.parent[h]] + 1);
        }
    }
    assert(encodable(shorter_of(d, l, path)) && spec_encode_dir(shorter_of(d, l, path)).len()
        <= u64::MAX) by {
        reveal(m_write_dir_at);
    }
}

/// On a packed volume the chain of every file and directory is a chain beside the free list.
pub proof fn lemma_packed_chain(d: Disk, l: Layout, h: u64)
    requires
        packed(d, l),
        l.chains.contains_key(h),
    ensures
        chain_ok(d, h, l.chains[h]),
        tidy(d, l.chains[h], l.free),
        linked(d, l.chains[h]),
        crate::ffat::chains::disjoint(l.chains[h], l.free),
{
    reveal(chains_ok);
    reveal(separate);
    reveal(tidy);
}

/// The layout after the parent at `p` was written with the entries `shorter`.
pub open spec fn rewritten(l: Layout, p: u64, shorter: Entries) -> Layout {
    let n = chunk_count(spec_encode_dir(shorter).len()) as int;
    regrouped(l, p, fitted(l.chains[p], l.free, n), spared(l.chains[p], l.free, n))
}

/// On a packed volume, writing the entries of a directory, where it succeeds, leaves the
/// volume packed, with the directory fitted to its entries and everything else as before.
pub proof fn lemma_rewrite_packed(d: Disk, l: Layout, p: u64, shorter: Entries)
    requires
        packed(d, l),
        l.chains.contains_key(p),
        entry_of(d, p).sector_type == SectorType::Dir,
        encodable(shorter),
        spec_encode_dir(shorter).len() <= u64::MAX,
        m_write_dir_at(d, p, shorter).1 is Ok,
    ensures
        packed(m_write_dir_at(d, p, shorter).0, rewritten(l, p, shorter)),
        m_root(m_write_dir_at(d, p, shorter).0).unwrap().root == m_root(d).unwrap().root,
        entry_of(m_write_dir_at(d, p, shorter).0, p).sector_type == SectorType::Dir,
        payload_entries(
            m_write_dir_at(d, p, shorter).0,
            rewritten(l, p, shorter).chains[p],
            entry_of(m_write_dir_at(d, p, shorter).0, p).size,
        ) == Some(shorter),
        forall|h: u64|
            l.chains.contains_key(h) && h != p ==> entry_of(m_write_dir_at(d, p, shorter).0, h)
                == entry_of(d, h) && payload_entries(
                m_write_dir_at(d, p, shorter).0,
                #[trigger] l.chains[h],
                entry_of(m_write_dir_at(d, p, shorter).0, h).size,
            ) == payload_entries(d, l.chains[h], entry_of(d, h).size),
{
    let c = l.chains[p];
    let f = l.free;
    let d1 = m_write_dir_at(d, p, shorter).0;
    let n = chunk_count(spec_encode_dir(shorter).len()) as int;
    let k = lacking(c.len(), n as nat) as int;
    lemma_packed_chain(d, l, p);
    assert(c[0] == p);
    if lacking(c.len(), n as nat) > 0 && lacking(c.len(), n as nat) >= f.len() {
        lemma_write_dir_fails(d, c, f, shorter);
    }
    lemma_write_dir(d, c, f, shorter);
    lemma_dir_written_facts(d, c, f, shorter, d1);
    lemma_tidy_bounds(d, c, f);
    assert(n >= 1) by {
        crate::ffat::layout::lemma_le_roundtrip();
    }
    lemma_fitted_within(c, f, n);
    lemma_written_chain(d, c, f, shorter, d1);
    let c3 = fitted(c, f, n);
    let f3 = spared(c, f, n);
    let metas = c.to_set().union(f.take(k).to_set());
    let blocks = c3.to_set();
    lemma_regroup(d, l, d1, metas, blocks, p, c3, f3);
    lemma_changed_shape(d, d1, metas, blocks);
    assert forall|h: u64| l.chains.contains_key(h) && h != p implies entry_of(d1, h) == entry_of(
        d,
        h,
    ) && payload_entries(d1, #[trigger] l.chains[h], entry_of(d1, h).size) == payload_entries(
        d,
        l.chains[h],
        entry_of(d, h).size,
    ) by {
        lemma_other_kept(d, l, d1, metas, blocks, p, h);
    }
}

/// On a packed volume, giving back the chain of a file or directory succeeds and leaves
/// the volume packed, with everything else as before.
pub proof fn lemma_release_packed(d: Disk, l: Layout, h: u64)
    requires
        packed(d, l),
        l.chains.contains_key(h),
    ensures
        m_free_chain(d, h).1 == Ok::<(), ErrorKind>(()),
        packed(m_free_chain(d, h).0, released(l, h)),
        m_root(m_free_chain(d, h).0).unwrap().root == m_root(d).unwrap().root,
        forall|x: u64|
            l.chains.contains_key(x) && x != h ==> entry_of(m_free_chain(d, h).0, x) == entry_of(
                d,
                x,
            ) && payload_entries(
                m_free_chain(d, h).0,
                #[trigger] l.chains[x],
                entry_of(m_free_chain(d, h).0, x).size,
            ) == payload_entries(d, l.chains[x], entry_of(d, x).size),
{
    let c = l.chains[h];
    lemma_packed_chain(d, l, h);
    assert(c[0] == h);
    law_free_chain_prepends(d, c, l.free);
    let e = m_free_chain(d, h).0;
    lemma_changed_shape(d, e, c.to_set(), Set::empty());
    lemma_release(d, l, e, h);
}

/// The layout after what `path` names was taken out of its parent.
pub open spec fn unlinked(d: Disk, l: Layout, path: Seq<Seq<u8>>) -> Layout {
    released(rewritten(l, parent_of(d, path), shorter_of(d, l, path)), target_of(d, l, path))
}

/// What the volume is after a file or directory was taken out of its parent: everything
/// but the parent and what was taken out is as before, and the parent lists what it listed
/// but for the entry of what was taken out.
pub open spec fn unlink_result(d: Disk, l: Layout, path: Seq<Seq<u8>>) -> bool {
    let e = m_unlink(d, path).0;
    let l2 = unlinked(d, l, path);
    let p = parent_of(d, path);
    let h = target_of(d, l, path);
    &&& path.len() > 0
    &&& m_walk(d, path.drop_last()) is Ok
    &&& l.chains.contains_key(p)
    &&& l.chains.contains_key(h)
    &&& h != p
    &&& position(entries_of(d, l, p), path.last()) is Some
    &&& same_but_at(d, l, e, l2, p, h)
    &&& !l2.chains.contains_key(h)
    &&& l2.chains.contains_key(p)
    &&& l2.parent == l.parent
    &&& l2.depth == l.depth
    &&& entry_of(d, p).sector_type == SectorType::Dir
    &&& entry_of(e, p).sector_type == SectorType::Dir
    &&& entries_of(e, l2, p) == shorter_of(d, l, path)
}

/// Taking a file, or a directory without entries, out of its parent, where it succeeds on
/// a sound volume, leaves the volume sound: the parent no longer lists it, and its chain is
/// in front of the free list.
pub proof fn law_unlink_sound(d: Disk, l: Layout, path: Seq<Seq<u8>>)
    requires
        sound(d, l),
        m_unlink(d, path).1 is Ok,
        m_walk(d, path.drop_last()) is Ok ==> (entry_of(d, target_of(d, l, path)).sector_type
            == SectorType::Dir ==> entries_of(d, l, target_of(d, l, path)).len() == 0),
    ensures
        sound(m_unlink(d, path).0, unlinked(d, l, path)),
        unlink_result(d, l, path),
{
    lemma_unlink_parts(d, l, path);
    reveal(unlink_parts);
    let p = parent_of(d, path);
    let h = target_of(d, l, path);
    let i = slot_of(d, l, path);
    let shorter = shorter_of(d, l, path);
    let d1 = m_write_dir_at(d, p, shorter).0;
    let l1 = rewritten(l, p, shorter);
    lemma_rewrite_packed(d, l, p, shorter);
    assert(l1.chains.contains_key(h));
    assert(l1.chains[h] == l.chains[h]);
    lemma_release_packed(d1, l1, h);
    let d2 = m_free_chain(d1, h).0;
    let l2 = released(l1, h);
    assert(same_but_at(d, l, d2, l2, p, h)) by {
        assert forall|x: u64| #[trigger] l.chains.contains_key(x) && x != h implies entry_of(
            d2,
            x,
        ).sector_type == entry_of(d, x).sector_type by {
            assert(l1.chains.contains_key(x));
            assert(l1.chains[x] == l1.chains[x]);
            if x != p {
                assert(l.chains[x] == l.chains[x]);
            }
        }
        assert forall|x: u64|
            #[trigger] l.chains.contains_key(x) && x != h && x != p && entry_of(d, x).sector_type
                == SectorType::Dir implies entries_of(d2, l2, x) == entries_of(d, l, x) by {
            assert(l1.chains.contains_key(x));
            assert(l1.chains[x] == l.chains[x]);
            assert(l2.chains[x] == l.chains[x]);
        }
    }
    assert(entries_of(d2, l2, p) == shorter) by {
        assert(l1.chains.contains_key(p));
        assert(l2.chains[p] == l1.chains[p]);
    }
    lemma_tree_remove(d, l, d2, l2, p, h, i);
}

} // verus!
