use vstd::prelude::*;
use crate::error::ErrorKind;
use crate::ffat::dir::{lemma_position, names_of, position};
use crate::ffat::model::{m_lookup, m_root, m_walk, m_walk_from, Disk};
use crate::ffat::laws::lemma_walk_push;
use crate::ffat::model::{m_delete, m_delete_children, m_delete_each, m_unlink};
use crate::ffat::removal::{law_unlink_sound, parent_of, shorter_of, slot_of, target_of, unlinked};
use crate::ffat::tree::lemma_walk_sound;
use crate::ffat::sound::{entries_of, entry_of, sound, tree_ok, Layout};
use crate::ffat::structs::SectorType;
use crate::ffat::tree::{lemma_sound_dir, lemma_sound_lookup, lemma_sound_not_dir};

verus! {

/// On a sound volume what a path leads to lies as deep below where the path began as the
/// path has names.
pub proof fn lemma_walk_from_depth(d: Disk, l: Layout, from: u64, names: Seq<Seq<u8>>)
    requires
        sound(d, l),
        l.chains.contains_key(from),
        l.depth.contains_key(from),
        m_walk_from(d, from, names) is Ok,
    ensures
        l.chains.contains_key(m_walk_from(d, from, names).unwrap()),
        l.depth.contains_key(m_walk_from(d, from, names).unwrap()),
        l.depth[m_walk_from(d, from, names).unwrap()] == l.depth[from] + names.len(),
    decreases names.len(),
{
    reveal(m_walk_from);
    if names.len() > 0 {
        if entry_of(d, from).sector_type == SectorType::Dir {
            lemma_sound_dir(d, l, from);
            lemma_sound_lookup(d, l, from, names[0]);
            let next = m_lookup(entries_of(d, l, from), names[0]).unwrap();
            assert(l.depth.contains_key(next) && l.depth[next] == l.depth[from] + 1) by {
                reveal(tree_ok);
                assert(l.chains.contains_key(next));
            }
            lemma_walk_from_depth(d, l, next, names.drop_first());
        } else {
            lemma_sound_not_dir(d, l, from);
        }
    }
}

/// On a sound volume what a path leads to lies as deep below the root directory as the
/// path has names.
pub proof fn lemma_walk_depth(d: Disk, l: Layout, path: Seq<Seq<u8>>)
    requires
        sound(d, l),
        m_walk(d, path) is Ok,
    ensures
        l.chains.contains_key(m_walk(d, path).unwrap()),
        l.depth.contains_key(m_walk(d, path).unwrap()),
        l.depth[m_walk(d, path).unwrap()] == path.len(),
{
    reveal(m_walk);
    let top = m_root(d).unwrap().root;
    assert(l.chains.contains_key(top) && l.depth.contains_key(top) && l.depth[top] == 0) by {
        reveal(tree_ok);
    }
    lemma_walk_from_depth(d, l, top, path);
}

/// Whether the volume `e` with layout `l2` is the volume `d` with `l` after files and
/// directories deeper than `deep` below the root were taken away, and maybe entries of the
/// directory at `at`: every file and directory of `e` was one of `d`, those no deeper than
/// `deep` are still there, and every one but the directory at `at` has its type and its
/// entries.
pub open spec fn thinned(d: Disk, l: Layout, at: u64, deep: nat, e: Disk, l2: Layout) -> bool {
    &&& sound(d, l)
    &&& sound(e, l2)
    &&& l2.parent == l.parent
    &&& l2.depth == l.depth
    &&& m_root(e).unwrap().root == m_root(d).unwrap().root
    &&& forall|x: u64| #[trigger] l2.chains.contains_key(x) ==> l.chains.contains_key(x)
    &&& forall|x: u64|
        #[trigger] l.chains.contains_key(x) && l.depth[x] <= deep ==> l2.chains.contains_key(x)
    &&& forall|x: u64|
        #[trigger] l2.chains.contains_key(x) && x != at ==> entry_of(e, x).sector_type
            == entry_of(d, x).sector_type
    &&& forall|x: u64|
        #[trigger] l2.chains.contains_key(x) && x != at && entry_of(d, x).sector_type
            == SectorType::Dir ==> entries_of(e, l2, x) == entries_of(d, l, x)
}

/// Nothing taken away is a thinning.
pub proof fn lemma_thinned_refl(d: Disk, l: Layout, at: u64, deep: nat)
    requires
        sound(d, l),
    ensures
        thinned(d, l, at, deep, d, l),
{
}

/// A path that leads no deeper than to the directory whose entries may have changed leads
/// to the same place after a thinning.
pub proof fn lemma_walk_from_thinned(
    d: Disk,
    l: Layout,
    at: u64,
    deep: nat,
    e: Disk,
    l2: Layout,
    from: u64,
    names: Seq<Seq<u8>>,
)
    requires
        thinned(d, l, at, deep, e, l2),
        l.chains.contains_key(from),
        l.depth.contains_key(from),
        l.depth.contains_key(at),
        l.depth[from] + names.len() <= l.depth[at],
        l.depth[at] <= deep,
        m_walk_from(d, from, names) is Ok,
    ensures
        m_walk_from(e, from, names) == m_walk_from(d, from, names),
    decreases names.len(),
{
    reveal(m_walk_from);
    if names.len() > 0 {
        assert(from != at);
        assert(l2.chains.contains_key(from));
        if entry_of(d, from).sector_type == SectorType::Dir {
            lemma_sound_dir(d, l, from);
            lemma_sound_dir(e, l2, from);
            let entries = entries_of(d, l, from);
            assert(entries_of(e, l2, from) == entries);
            lemma_sound_lookup(d, l, from, names[0]);
            let next = m_lookup(entries, names[0]).unwrap();
            assert(l.depth.contains_key(next) && l.depth[next] == l.depth[from] + 1) by {
                reveal(tree_ok);
                assert(l.chains.contains_key(next));
            }
            lemma_walk_from_thinned(d, l, at, deep, e, l2, next, names.drop_first());
        } else {
            lemma_sound_not_dir(d, l, from);
        }
    }
}

/// A path that leads to the directory whose entries may have changed, or to somewhere
/// above it, leads to the same place after a thinning.
pub proof fn lemma_walk_thinned(
    d: Disk,
    l: Layout,
    at: u64,
    deep: nat,
    e: Disk,
    l2: Layout,
    path: Seq<Seq<u8>>,
)
    requires
        thinned(d, l, at, deep, e, l2),
        l.depth.contains_key(at),
        path.len() <= l.depth[at],
        l.depth[at] <= deep,
        m_walk(d, path) is Ok,
    ensures
        m_walk(e, path) == m_walk(d, path),
{
    reveal(m_walk);
    let top = m_root(d).unwrap().root;
    assert(l.chains.contains_key(top) && l.depth.contains_key(top) && l.depth[top] == 0) by {
        reveal(tree_ok);
    }
    lemma_walk_from_thinned(d, l, at, deep, e, l2, top, path);
}

/// Thinnings that follow each other are a thinning.
pub proof fn lemma_thinned_trans(
    d: Disk,
    l: Layout,
    at: u64,
    deep: nat,
    e: Disk,
    l2: Layout,
    at2: u64,
    deep2: nat,
    g: Disk,
    l3: Layout,
)
    requires
        thinned(d, l, at, deep, e, l2),
        thinned(e, l2, at2, deep2, g, l3),
        deep <= deep2,
        at2 == at || !l3.chains.contains_key(at2),
    ensures
        thinned(d, l, at, deep, g, l3),
{
    assert forall|x: u64| #[trigger] l3.chains.contains_key(x) implies l.chains.contains_key(x) by {
        assert(l2.chains.contains_key(x));
    }
    assert forall|x: u64|
        #[trigger] l.chains.contains_key(x) && l.depth[x] <= deep implies l3.chains.contains_key(
        x,
    ) by {
        assert(l2.chains.contains_key(x));
    }
    assert forall|x: u64| #[trigger] l3.chains.contains_key(x) && x != at implies entry_of(
        g,
        x,
    ).sector_type == entry_of(d, x).sector_type by {
        assert(l2.chains.contains_key(x));
    }
    assert forall|x: u64|
        #[trigger] l3.chains.contains_key(x) && x != at && entry_of(d, x).sector_type
            == SectorType::Dir implies entries_of(g, l3, x) == entries_of(d, l, x) by {
        assert(l2.chains.contains_key(x));
    }
}

/// Whether the volume `e` with layout `l2` is the volume `d` with `l` after what `path` names
/// was deleted, with everything below it: a thinning below the parent, after which the
/// parent lists what it listed but for the entry of what was deleted.
pub open spec fn pruned(d: Disk, l: Layout, path: Seq<Seq<u8>>, e: Disk, l2: Layout) -> bool {
    let p = parent_of(d, path);
    &&& path.len() > 0
    &&& m_walk(d, path.drop_last()) is Ok
    &&& l.chains.contains_key(p)
    &&& l.depth.contains_key(p)
    &&& l.depth[p] == path.len() - 1
    &&& position(entries_of(d, l, p), path.last()) is Some
    &&& thinned(d, l, p, (path.len() - 1) as nat, e, l2)
    &&& l2.chains.contains_key(p)
    &&& entry_of(d, p).sector_type == SectorType::Dir
    &&& entry_of(e, p).sector_type == SectorType::Dir
    &&& entries_of(e, l2, p) == shorter_of(d, l, path)
}

/// On a sound volume what a path leads to is what its parent lists under its last name.
pub proof fn lemma_target(d: Disk, l: Layout, path: Seq<Seq<u8>>)
    requires
        sound(d, l),
        path.len() > 0,
        m_walk(d, path) is Ok,
    ensures
        m_walk(d, path.drop_last()) is Ok,
        l.chains.contains_key(parent_of(d, path)),
        entry_of(d, parent_of(d, path)).sector_type == SectorType::Dir,
        position(entries_of(d, l, parent_of(d, path)), path.last()) is Some,
        target_of(d, l, path) == m_walk(d, path).unwrap(),
{
    reveal(m_walk);
    let top = m_root(d).unwrap().root;
    assert(path.drop_last().push(path.last()) =~= path);
    lemma_walk_push(d, top, path.drop_last(), path.last());
    lemma_walk_sound(d, l, path.drop_last());
    let p = parent_of(d, path);
    if entry_of(d, p).sector_type == SectorType::Dir {
        lemma_sound_dir(d, l, p);
    } else {
        lemma_sound_not_dir(d, l, p);
    }
}

/// Taking a file, or a directory without entries, out of its parent is deleting it.
pub proof fn lemma_unlink_prunes(d: Disk, l: Layout, path: Seq<Seq<u8>>)
    requires
        sound(d, l),
        m_walk(d, path) is Ok,
        m_unlink(d, path).1 is Ok,
        entry_of(d, m_walk(d, path).unwrap()).sector_type == SectorType::Dir ==> entries_of(
            d,
            l,
            m_walk(d, path).unwrap(),
        ).len() == 0,
    ensures
        pruned(d, l, path, m_unlink(d, path).0, unlinked(d, l, path)),
{
    assert(path.len() > 0) by {
        reveal(m_unlink);
    }
    lemma_target(d, l, path);
    law_unlink_sound(d, l, path);
    let e = m_unlink(d, path).0;
    let l2 = unlinked(d, l, path);
    let p = parent_of(d, path);
    let h = target_of(d, l, path);
    lemma_walk_depth(d, l, path);
    lemma_walk_depth(d, l, path.drop_last());
    assert forall|x: u64| #[trigger] l2.chains.contains_key(x) implies l.chains.contains_key(x) by {
    }
    assert forall|x: u64|
        #[trigger] l.chains.contains_key(x) && l.depth[x] <= path.len()
            - 1 implies l2.chains.contains_key(x) by {
        assert(x != h);
    }
    assert forall|x: u64| #[trigger] l2.chains.contains_key(x) && x != p implies entry_of(
        e,
        x,
    ).sector_type == entry_of(d, x).sector_type by {
        assert(l.chains.contains_key(x));
    }
    assert forall|x: u64|
        #[trigger] l2.chains.contains_key(x) && x != p && entry_of(d, x).sector_type
            == SectorType::Dir implies entries_of(e, l2, x) == entries_of(d, l, x) by {
        assert(l.chains.contains_key(x));
    }
}

/// Deleting below a thinning is a deletion: where the volume was thinned below the
/// directory at `path`, and that directory was then deleted, what `path` named was deleted
/// with everything below it.
pub proof fn lemma_prune_after_thin(
    d: Disk,
    l: Layout,
    path: Seq<Seq<u8>>,
    d1: Disk,
    l1: Layout,
    e: Disk,
    l2: Layout,
)
    requires
        m_walk(d, path) is Ok,
        path.len() > 0,
        thinned(d, l, m_walk(d, path).unwrap(), path.len(), d1, l1),
        pruned(d1, l1, path, e, l2),
        target_of(d1, l1, path) == m_walk(d, path).unwrap(),
        !l2.chains.contains_key(m_walk(d, path).unwrap()),
    ensures
        pruned(d, l, path, e, l2),
{
    let h = m_walk(d, path).unwrap();
    let m = path.len();
    lemma_target(d, l, path);
    lemma_walk_depth(d, l, path);
    lemma_walk_depth(d, l, path.drop_last());
    let p = parent_of(d, path);
    lemma_walk_thinned(d, l, h, m, d1, l1, path.drop_last());
    assert(parent_of(d1, path) == p);
    assert(p != h);
    assert(l1.chains.contains_key(p));
    assert(entries_of(d1, l1, p) == entries_of(d, l, p));
    assert(shorter_of(d1, l1, path) == shorter_of(d, l, path));
    assert forall|x: u64| #[trigger] l2.chains.contains_key(x) implies l.chains.contains_key(x) by {
        assert(l1.chains.contains_key(x));
    }
    assert forall|x: u64|
        #[trigger] l.chains.contains_key(x) && l.depth[x] <= m - 1 implies l2.chains.contains_key(
        x,
    ) by {
        assert(l1.chains.contains_key(x));
    }
    assert forall|x: u64| #[trigger] l2.chains.contains_key(x) && x != p implies entry_of(
        e,
        x,
    ).sector_type == entry_of(d, x).sector_type by {
        assert(l1.chains.contains_key(x));
        assert(x != h);
    }
    assert forall|x: u64|
        #[trigger] l2.chains.contains_key(x) && x != p && entry_of(d, x).sector_type
            == SectorType::Dir implies entries_of(e, l2, x) == entries_of(d, l, x) by {
        assert(l1.chains.contains_key(x));
        assert(x != h);
    }
}

/// Deleting, where it succeeds on a sound volume, leaves the volume sound: what the path
/// named is gone with everything below it, its parent no longer lists it, and every other
/// file and directory is as before.
pub proof fn law_delete_sound(d: Disk, l: Layout, path: Seq<Seq<u8>>, fuel: nat) -> (after: Layout)
    requires
        sound(d, l),
        m_delete(d, path, fuel).1 is Ok,
    ensures
        sound(m_delete(d, path, fuel).0, after),
        pruned(d, l, path, m_delete(d, path, fuel).0, after),
        m_walk(d, path) is Ok,
        !after.chains.contains_key(m_walk(d, path).unwrap()),
    decreases fuel, 2nat, 0nat,
{
    reveal(m_delete);
    reveal(m_delete_children);
    reveal(m_delete_each);
    let h = m_walk(d, path).unwrap();
    lemma_walk_sound(d, l, path);
    lemma_target(d, l, path);
    if entry_of(d, h).sector_type == SectorType::Dir {
        let l1 = lemma_children_thin(d, l, path, fuel);
        let d1 = m_delete_children(d, path, fuel).0;
        lemma_target(d1, l1, path);
        lemma_unlink_prunes(d1, l1, path);
        let l2 = unlinked(d1, l1, path);
        let e = m_unlink(d1, path).0;
        crate::ffat::removal::law_unlink_sound(d1, l1, path);
        lemma_prune_after_thin(d, l, path, d1, l1, e, l2);
        l2
    } else {
        lemma_unlink_prunes(d, l, path);
        crate::ffat::removal::law_unlink_sound(d, l, path);
        unlinked(d, l, path)
    }
}

/// Deleting everything in a directory, where it succeeds on a sound volume, leaves the
/// volume sound, thinned below the directory, and the directory without entries.
pub proof fn lemma_children_thin(d: Disk, l: Layout, path: Seq<Seq<u8>>, fuel: nat) -> (after: Layout)
    requires
        sound(d, l),
        m_walk(d, path) is Ok,
        entry_of(d, m_walk(d, path).unwrap()).sector_type == SectorType::Dir,
        m_delete_children(d, path, fuel).1 is Ok,
    ensures
        emptied(d, l, path, m_delete_children(d, path, fuel).0, after),
    decreases fuel, 1nat, 0nat,
{
    reveal(m_delete);
    reveal(m_delete_children);
    reveal(m_delete_each);
    let h = m_walk(d, path).unwrap();
    lemma_walk_sound(d, l, path);
    lemma_sound_dir(d, l, h);
    lemma_walk_depth(d, l, path);
    lemma_thinned_refl(d, l, h, path.len());
    lemma_each_thin(d, l, path, d, l, fuel)
}

/// Whether the volume `e` with layout `l2` is the volume `d` with `l` after everything in
/// the directory that `path` names was deleted.
pub open spec fn emptied(d: Disk, l: Layout, path: Seq<Seq<u8>>, e: Disk, l2: Layout) -> bool {
    let h = m_walk(d, path).unwrap();
    &&& thinned(d, l, h, path.len(), e, l2)
    &&& m_walk(e, path) == Ok::<u64, ErrorKind>(h)
    &&& l2.chains.contains_key(h)
    &&& entry_of(e, h).sector_type == SectorType::Dir
    &&& entries_of(e, l2, h).len() == 0
}

/// Deleting the children that a directory still lists, one after the other, where it
/// succeeds, leaves the volume sound, thinned below the directory, and the directory
/// without entries.
pub proof fn lemma_each_thin(
    d0: Disk,
    l0: Layout,
    path: Seq<Seq<u8>>,
    d: Disk,
    l: Layout,
    fuel: nat,
) -> (after: Layout)
    requires
        m_walk(d0, path) is Ok,
        l0.depth.contains_key(m_walk(d0, path).unwrap()),
        l0.depth[m_walk(d0, path).unwrap()] == path.len(),
        thinned(d0, l0, m_walk(d0, path).unwrap(), path.len(), d, l),
        m_walk(d, path) == m_walk(d0, path),
        l.chains.contains_key(m_walk(d0, path).unwrap()),
        entry_of(d, m_walk(d0, path).unwrap()).sector_type == SectorType::Dir,
        m_delete_each(
            d,
            path,
            names_of(entries_of(d, l, m_walk(d0, path).unwrap())),
            fuel,
        ).1 is Ok,
    ensures
        emptied(
            d0,
            l0,
            path,
            m_delete_each(
                d,
                path,
                names_of(entries_of(d, l, m_walk(d0, path).unwrap())),
                fuel,
            ).0,
            after,
        ),
    decreases fuel, 0nat, entries_of(d, l, m_walk(d0, path).unwrap()).len(),
{
    reveal(m_delete);
    reveal(m_delete_children);
    reveal(m_delete_each);
    let h = m_walk(d0, path).unwrap();
    let m = path.len();
    let entries = entries_of(d, l, h);
    let names = names_of(entries);
    if names.len() == 0 {
        l
    } else {
        let child = path.push(names[0]);
        assert(child.drop_last() =~= path);
        assert(child.last() == names[0]);
        let l1 = law_delete_sound(d, l, child, (fuel - 1) as nat);
        let d1 = m_delete(d, child, (fuel - 1) as nat).0;
        assert(parent_of(d, child) == h);
        lemma_position(entries, names[0]);
        assert(names[0] == entries[0].1);
        assert(slot_of(d, l, child) == 0);
        assert(shorter_of(d, l, child) =~= entries.drop_first());
        assert(names_of(entries.drop_first()) =~= names.drop_first());
        lemma_walk_depth(d, l, path);
        lemma_walk_thinned(d, l, h, m, d1, l1, path);
        lemma_thinned_trans(d0, l0, h, m, d, l, h, m, d1, l1);
        lemma_each_thin(d0, l0, path, d1, l1, fuel)
    }
}

} // verus!
