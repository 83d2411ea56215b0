use vstd::prelude::*;
use crate::ffat::dir::{lemma_position, position};
use crate::ffat::model::{m_root, Disk};
use crate::ffat::sound::{distinct_entries, entries_of, entry_of, listed, tree_ok, Layout};
use crate::ffat::structs::SectorType;

verus! {

/// Whether the volume `e` with layout `l2` has the files and directories of `d` with `l`,
/// of the same types, but for the file or directory at `x`, and every directory but the
/// one at `p` lists the same entries.
pub open spec fn same_but_at(d: Disk, l: Layout, e: Disk, l2: Layout, p: u64, x: u64) -> bool {
    &&& m_root(d) is Ok
    &&& m_root(e) is Ok
    &&& m_root(e).unwrap().root == m_root(d).unwrap().root
    &&& forall|h: u64|
        h != x ==> l2.chains.contains_key(h) == #[trigger] l.chains.contains_key(h)
    &&& forall|h: u64|
        #[trigger] l.chains.contains_key(h) && h != x ==> entry_of(e, h).sector_type == entry_of(
            d,
            h,
        ).sector_type
    &&& forall|h: u64|
        #[trigger] l.chains.contains_key(h) && h != x && h != p && entry_of(d, h).sector_type
            == SectorType::Dir ==> entries_of(e, l2, h) == entries_of(d, l, h)
}

/// The tree stays a tree where a file or an empty directory is added to a directory under a
/// name that the directory does not list yet.
pub proof fn lemma_tree_add(
    d: Disk,
    l: Layout,
    e: Disk,
    l2: Layout,
    p: u64,
    fresh: u64,
    name: Seq<u8>,
)
    requires
        tree_ok(d, l),
        same_but_at(d, l, e, l2, p, fresh),
        !l.chains.contains_key(fresh),
        l2.chains.contains_key(fresh),
        l.chains.contains_key(p),
        l.depth.contains_key(p),
        entry_of(d, p).sector_type == SectorType::Dir,
        l2.parent == l.parent.insert(fresh, p),
        l2.depth == l.depth.insert(fresh, l.depth[p] + 1),
        entries_of(e, l2, p) == entries_of(d, l, p).push((fresh, name)),
        position(entries_of(d, l, p), name) is None,
        entry_of(e, fresh).sector_type == SectorType::Dir ==> entries_of(e, l2, fresh).len() == 0,
    ensures
        tree_ok(e, l2),
{
    reveal(tree_ok);
    let top = m_root(d).unwrap().root;
    let old = entries_of(d, l, p);
    let new = entries_of(e, l2, p);
    assert(fresh != top);
    assert(fresh != p);
    assert forall|h: u64| #[trigger] l2.chains.contains_key(h) && h != top implies {
        &&& l2.parent.contains_key(h)
        &&& l2.chains.contains_key(l2.parent[h])
        &&& entry_of(e, l2.parent[h]).sector_type == SectorType::Dir
        &&& l2.depth.contains_key(h)
        &&& l2.depth.contains_key(l2.parent[h])
        &&& l2.depth[h] == l2.depth[l2.parent[h]] + 1
        &&& listed(entries_of(e, l2, l2.parent[h]), h)
    } by {
        if h == fresh {
            assert(new[old.len() as int].0 == fresh);
        } else {
            assert(l.chains.contains_key(h));
            let q = l.parent[h];
            assert(l.chains.contains_key(q));
            assert(q != fresh);
            if q == p {
                let i = choose|i: int| 0 <= i < old.len() && (#[trigger] old[i]).0 == h;
                assert(new[i].0 == h);
            } else {
                assert(entries_of(e, l2, q) == entries_of(d, l, q));
            }
        }
    }
    assert forall|q: u64, i: int|
        l2.chains.contains_key(q) && entry_of(e, q).sector_type == SectorType::Dir && 0 <= i
            < entries_of(e, l2, q).len() implies {
        &&& l2.chains.contains_key((#[trigger] entries_of(e, l2, q)[i]).0)
        &&& entries_of(e, l2, q)[i].0 != top
        &&& l2.parent[entries_of(e, l2, q)[i].0] == q
    } by {
        if q == p {
            if i < old.len() {
                assert(new[i] == old[i]);
                assert(l.chains.contains_key(old[i].0));
            }
        } else if q != fresh {
            assert(l.chains.contains_key(q));
            assert(entries_of(e, l2, q) == entries_of(d, l, q));
            assert(l.chains.contains_key(entries_of(d, l, q)[i].0));
        }
    }
    assert forall|q: u64|
        #[trigger] l2.chains.contains_key(q) && entry_of(e, q).sector_type
            == SectorType::Dir implies distinct_entries(entries_of(e, l2, q)) by {
        if q == p {
            lemma_position(old, name);
            assert(distinct_entries(old));
            assert forall|i: int, j: int|
                0 <= i < new.len() && 0 <= j < new.len() && i != j implies (#[trigger] new[i]).0 != (
            #[trigger] new[j]).0 && new[i].1 != new[j].1 by {
                if i < old.len() && j < old.len() {
                    assert(new[i] == old[i]);
                    assert(new[j] == old[j]);
                } else if i < old.len() {
                    assert(new[i] == old[i]);
                    assert(l.chains.contains_key(old[i].0));
                } else {
                    assert(new[j] == old[j]);
                    assert(l.chains.contains_key(old[j].0));
                }
            }
        } else if q != fresh {
            assert(l.chains.contains_key(q));
        }
    }
}

/// The tree stays a tree where a file or an empty directory is taken out of the directory
/// that lists it.
pub proof fn lemma_tree_remove(d: Disk, l: Layout, e: Disk, l2: Layout, p: u64, gone: u64, i: int)
    requires
        tree_ok(d, l),
        same_but_at(d, l, e, l2, p, gone),
        l.chains.contains_key(gone),
        !l2.chains.contains_key(gone),
        l.chains.contains_key(p),
        entry_of(d, p).sector_type == SectorType::Dir,
        gone != p,
        l2.parent == l.parent,
        l2.depth == l.depth,
        0 <= i < entries_of(d, l, p).len(),
        entries_of(d, l, p)[i].0 == gone,
        entries_of(e, l2, p) == entries_of(d, l, p).remove(i),
        entry_of(d, gone).sector_type == SectorType::Dir ==> entries_of(d, l, gone).len() == 0,
    ensures
        tree_ok(e, l2),
{
    reveal(tree_ok);
    let top = m_root(d).unwrap().root;
    let old = entries_of(d, l, p);
    let new = entries_of(e, l2, p);
    assert(l.chains.contains_key(old[i].0));
    assert(gone != top);
    assert forall|h: u64| #[trigger] l2.chains.contains_key(h) && h != top implies {
        &&& l2.parent.contains_key(h)
        &&& l2.chains.contains_key(l2.parent[h])
        &&& entry_of(e, l2.parent[h]).sector_type == SectorType::Dir
        &&& l2.depth.contains_key(h)
        &&& l2.depth.contains_key(l2.parent[h])
        &&& l2.depth[h] == l2.depth[l2.parent[h]] + 1
        &&& listed(entries_of(e, l2, l2.parent[h]), h)
    } by {
        assert(l.chains.contains_key(h));
        let q = l.parent[h];
        assert(l.chains.contains_key(q));
        let k = choose|k: int|
            0 <= k < entries_of(d, l, q).len() && (#[trigger] entries_of(d, l, q)[k]).0 == h;
        if q == gone {
            assert(entries_of(d, l, gone).len() == 0);
        } else if q == p {
            assert(k != i);
            if k < i {
                assert(new[k] == old[k]);
            } else {
                assert(new[k - 1] == old[k]);
            }
        } else {
            assert(entries_of(e, l2, q) == entries_of(d, l, q));
        }
    }
    assert forall|q: u64, k: int|
        l2.chains.contains_key(q) && entry_of(e, q).sector_type == SectorType::Dir && 0 <= k
            < entries_of(e, l2, q).len() implies {
        &&& l2.chains.contains_key((#[trigger] entries_of(e, l2, q)[k]).0)
        &&& entries_of(e, l2, q)[k].0 != top
        &&& l2.parent[entries_of(e, l2, q)[k].0] == q
    } by {
        assert(l.chains.contains_key(q));
        if q == p {
            assert(distinct_entries(old));
            let m = if k < i {
                k
            } else {
                k + 1
            };
            assert(new[k] == old[m]);
            assert(l.chains.contains_key(old[m].0));
            assert(old[m].0 != old[i].0);
        } else {
            assert(entries_of(e, l2, q) == entries_of(d, l, q));
            let a = entries_of(d, l, q)[k].0;
            assert(l.chains.contains_key(a));
            assert(l.parent[a] == q);
            assert(l.parent[gone] == p) by {
                assert(l.chains.contains_key(old[i].0));
            }
        }
    }
    assert forall|q: u64|
        #[trigger] l2.chains.contains_key(q) && entry_of(e, q).sector_type
            == SectorType::Dir implies distinct_entries(entries_of(e, l2, q)) by {
        assert(l.chains.contains_key(q));
        if q == p {
            assert(distinct_entries(old));
            assert forall|a: int, b: int|
                0 <= a < new.len() && 0 <= b < new.len() && a != b implies (#[trigger] new[a]).0 != (
            #[trigger] new[b]).0 && new[a].1 != new[b].1 by {
                let ma = if a < i {
                    a
                } else {
                    a + 1
                };
                let mb = if b < i {
                    b
                } else {
                    b + 1
                };
                assert(new[a] == old[ma]);
                assert(new[b] == old[mb]);
            }
        }
    }
}

} // verus!
