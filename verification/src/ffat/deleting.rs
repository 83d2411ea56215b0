use vstd::prelude::*;
use crate::error::ErrorKind;
use crate::ffat::chains::{lemma_distinct_below, lemma_linked_short};
use crate::ffat::content::{content, lemma_content_len};
use crate::ffat::dir::{
    encodable, lemma_encode_decode_dir, lemma_encode_push_len, lemma_position, names_of,
    position, spec_decode_dir, spec_encode_dir,
};
use crate::ffat::dirwrite::lemma_write_dir;
use crate::ffat::laws::lemma_walk_push;
use crate::ffat::model::{
    chunk_count, m_delete, m_delete_children, m_delete_each, m_free_chain, m_root, m_unlink,
    m_walk, m_write_dir_at, Disk, Entries,
};
use crate::ffat::payload::lacking;
use crate::ffat::pruning::{
    emptied, law_delete_sound, lemma_children_thin, lemma_target, lemma_thinned_refl,
    lemma_thinned_trans, lemma_walk_depth, lemma_walk_thinned, thinned,
};
use crate::ffat::removal::{
    lemma_release_packed, lemma_rewrite_packed, parent_of, rewritten, shorter_of, slot_of,
    target_of,
};
use crate::ffat::sound::{entries_of, entry_of, sound, tree_ok, Layout};
use crate::ffat::structs::SectorType;
use crate::ffat::tree::{lemma_sound_chain, lemma_sound_dir, lemma_walk_sound};

verus! {

/// A directory without one of its entries has no longer a payload.
pub proof fn lemma_encode_remove_len(entries: Entries, i: int)
    requires
        0 <= i < entries.len(),
    ensures
        spec_encode_dir(entries.remove(i)).len() <= spec_encode_dir(entries).len(),
    decreases entries.len(),
{
    let front = entries.drop_last();
    let one = entries.last();
    assert(front.push(one) =~= entries);
    lemma_encode_push_len(front, one);
    if i == entries.len() - 1 {
        assert(entries.remove(i) =~= front);
    } else {
        lemma_encode_remove_len(front, i);
        assert(front.remove(i).push(one) =~= entries.remove(i));
        lemma_encode_push_len(front.remove(i), one);
    }
}

/// On a sound volume a file or directory that a path leads to can be taken out of its
/// parent: the parent is written with one entry less, which takes no new sector, and the
/// chain goes back to the free list.
pub proof fn lemma_unlink_succeeds(d: Disk, l: Layout, path: Seq<Seq<u8>>)
    requires
        sound(d, l),
        path.len() > 0,
        m_walk(d, path) is Ok,
    ensures
        m_unlink(d, path).1 == Ok::<(), ErrorKind>(()),
{
    lemma_target(d, l, path);
    let p = parent_of(d, path);
    let entries = entries_of(d, l, p);
    let i = slot_of(d, l, path);
    let h = target_of(d, l, path);
    let shorter = shorter_of(d, l, path);
    lemma_sound_dir(d, l, p);
    lemma_position(entries, path.last());
    lemma_walk_sound(d, l, path);
    lemma_walk_depth(d, l, path);
    lemma_walk_depth(d, l, path.drop_last());
    assert(h != p);
    let c = l.chains[p];
    lemma_sound_chain(d, l, p);
    let size = entry_of(d, p).size;
    let bytes = content(d, c, chunk_count(size as nat) as int).take(size as int);
    assert(spec_decode_dir(bytes) == Some(entries));
    lemma_linked_short(d, c);
    lemma_content_len(d, c, 0, chunk_count(size as nat) as int);
    assert(bytes.len() == size);
    lemma_encode_decode_dir(bytes);
    assert(encodable(shorter)) by {
        assert forall|k: int| 0 <= k < shorter.len() implies (#[trigger] shorter[k]).1.len()
            <= 255 by {
            if k < i {
                assert(shorter[k] == entries[k]);
            } else {
                assert(shorter[k] == entries[k + 1]);
            }
        }
    }
    lemma_encode_remove_len(entries, i);
    assert(lacking(c.len(), chunk_count(spec_encode_dir(shorter).len())) == 0);
    lemma_write_dir(d, c, l.free, shorter);
    lemma_rewrite_packed(d, l, p, shorter);
    let d1 = m_write_dir_at(d, p, shorter).0;
    let l1 = rewritten(l, p, shorter);
    assert(l1.chains.contains_key(h));
    lemma_release_packed(d1, l1, h);
    assert(m_unlink(d, path) == m_free_chain(d1, h)) by {
        reveal(m_unlink);
    }
}

/// Whether no file or directory lies deeper below the root than `bound`.
pub open spec fn shallow(l: Layout, bound: nat) -> bool {
    forall|x: u64| #[trigger] l.chains.contains_key(x) ==> l.depth[x] <= bound
}

/// The directories from the root down to a file or directory, which comes last: each lies
/// one deeper than the one before.
proof fn lemma_ancestors(d: Disk, l: Layout, x: u64) -> (line: Seq<u64>)
    requires
        sound(d, l),
        l.chains.contains_key(x),
    ensures
        l.depth.contains_key(x),
        line.len() == l.depth[x] + 1,
        forall|i: int|
            0 <= i < line.len() ==> l.chains.contains_key(#[trigger] line[i]) && l.depth[line[i]]
                == i,
    decreases
            if l.depth.contains_key(x) {
                l.depth[x]
            } else {
                0
            },
{
    reveal(tree_ok);
    let top = m_root(d).unwrap().root;
    if x == top {
        seq![x]
    } else {
        let above = lemma_ancestors(d, l, l.parent[x]);
        above.push(x)
    }
}

/// On a sound volume nothing lies as deep below the root as the volume has sectors.
pub proof fn lemma_shallow(d: Disk, l: Layout)
    requires
        sound(d, l),
    ensures
        shallow(l, d.len()),
{
    assert forall|x: u64| #[trigger] l.chains.contains_key(x) implies l.depth[x] <= d.len() by {
        let line = lemma_ancestors(d, l, x);
        assert forall|i: int| 0 <= i < line.len() implies (#[trigger] line[i]) < d.len() by {
            lemma_sound_chain(d, l, line[i]);
            lemma_linked_short(d, l.chains[line[i]]);
            assert(l.chains[line[i]][0] == line[i]);
        }
        assert(line.no_duplicates()) by {
            assert forall|i: int, j: int| 0 <= i < line.len() && 0 <= j < line.len() && i
                != j implies line[i] != line[j] by {
                assert(l.depth[line[i]] == i);
                assert(l.depth[line[j]] == j);
            }
        }
        lemma_distinct_below(line, d.len());
    }
}

/// On a sound volume a file or directory that a path leads to can be deleted with
/// everything below it, where the depth that the deletion may go to reaches everything
/// on the volume.
pub proof fn lemma_delete_succeeds(d: Disk, l: Layout, path: Seq<Seq<u8>>, fuel: nat)
    requires
        sound(d, l),
        path.len() > 0,
        m_walk(d, path) is Ok,
        shallow(l, path.len() + fuel),
    ensures
        m_delete(d, path, fuel).1 == Ok::<(), ErrorKind>(()),
    decreases fuel, 2nat, 0nat,
{
    reveal(m_delete);
    reveal(m_delete_children);
    reveal(m_delete_each);
    let h = m_walk(d, path).unwrap();
    lemma_walk_sound(d, l, path);
    if entry_of(d, h).sector_type == SectorType::Dir {
        lemma_children_succeed(d, l, path, fuel);
        let l1 = lemma_children_thin(d, l, path, fuel);
        let d1 = m_delete_children(d, path, fuel).0;
        assert(emptied(d, l, path, d1, l1));
        lemma_unlink_succeeds(d1, l1, path);
    } else {
        lemma_unlink_succeeds(d, l, path);
    }
}

/// On a sound volume everything in a directory can be deleted.
proof fn lemma_children_succeed(d: Disk, l: Layout, path: Seq<Seq<u8>>, fuel: nat)
    requires
        sound(d, l),
        m_walk(d, path) is Ok,
        entry_of(d, m_walk(d, path).unwrap()).sector_type == SectorType::Dir,
        shallow(l, path.len() + fuel),
    ensures
        m_delete_children(d, path, fuel).1 == Ok::<(), ErrorKind>(()),
    decreases fuel, 1nat, 0nat,
{
    reveal(m_delete);
    reveal(m_delete_children);
    reveal(m_delete_each);
    let h = m_walk(d, path).unwrap();
    lemma_walk_sound(d, l, path);
    lemma_sound_dir(d, l, h);
    lemma_walk_depth(d, l, path);
    lemma_thinned_refl(d, l, h, path.len());
    lemma_each_succeed(d, l, path, d, l, fuel);
}

/// The children that a directory still lists can be deleted one after the other.
proof fn lemma_each_succeed(d0: Disk, l0: Layout, path: Seq<Seq<u8>>, d: Disk, l: Layout, fuel: nat)
    requires
        m_walk(d0, path) is Ok,
        l0.depth.contains_key(m_walk(d0, path).unwrap()),
        l0.depth[m_walk(d0, path).unwrap()] == path.len(),
        thinned(d0, l0, m_walk(d0, path).unwrap(), path.len(), d, l),
        m_walk(d, path) == m_walk(d0, path),
        l.chains.contains_key(m_walk(d0, path).unwrap()),
        entry_of(d, m_walk(d0, path).unwrap()).sector_type == SectorType::Dir,
        shallow(l0, path.len() + fuel),
    ensures
        m_delete_each(
            d,
            path,
            names_of(entries_of(d, l, m_walk(d0, path).unwrap())),
            fuel,
        ).1 == Ok::<(), ErrorKind>(()),
    decreases fuel, 0nat, entries_of(d, l, m_walk(d0, path).unwrap()).len(),
{
    reveal(m_delete);
    reveal(m_delete_children);
    reveal(m_delete_each);
    let h = m_walk(d0, path).unwrap();
    let m = path.len();
    let entries = entries_of(d, l, h);
    let names = names_of(entries);
    if names.len() > 0 {
        let child = path.push(names[0]);
        assert(child.drop_last() =~= path);
        assert(child.last() == names[0]);
        lemma_position(entries, names[0]);
        assert(names[0] == entries[0].1);
        assert(position(entries, names[0]) == Some(0int));
        lemma_sound_dir(d, l, h);
        assert(m_walk(d, child) == Ok::<u64, ErrorKind>(entries[0].0)) by {
            reveal(m_walk);
            lemma_walk_push(d, m_root(d).unwrap().root, path, names[0]);
        }
        lemma_walk_depth(d, l, child);
        assert(l0.chains.contains_key(entries[0].0));
        assert(l0.depth[entries[0].0] == m + 1);
        assert(fuel > 0);
        assert(shallow(l, child.len() + (fuel - 1) as nat));
        lemma_delete_succeeds(d, l, child, (fuel - 1) as nat);
        let l1 = law_delete_sound(d, l, child, (fuel - 1) as nat);
        let d1 = m_delete(d, child, (fuel - 1) as nat).0;
        assert(parent_of(d, child) == h);
        assert(slot_of(d, l, child) == 0);
        assert(shorter_of(d, l, child) =~= entries.drop_first());
        assert(names_of(entries.drop_first()) =~= names.drop_first());
        lemma_walk_depth(d, l, path);
        lemma_walk_thinned(d, l, h, m, d1, l1, path);
        lemma_thinned_trans(d0, l0, h, m, d, l, h, m, d1, l1);
        lemma_each_succeed(d0, l0, path, d1, l1, fuel);
    }
}

/// Deleting succeeds on a sound volume: whatever a path but the root leads to can be
/// deleted, with everything below it.
pub proof fn law_delete_succeeds(d: Disk, l: Layout, path: Seq<Seq<u8>>)
    requires
        sound(d, l),
        path.len() > 0,
        m_walk(d, path) is Ok,
    ensures
        m_delete(d, path, d.len()).1 == Ok::<(), ErrorKind>(()),
{
    lemma_shallow(d, l);
    lemma_delete_succeeds(d, l, path, d.len());
}

} // verus!
