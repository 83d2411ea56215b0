use vstd::prelude::*;
use crate::error::ErrorKind;
use crate::ffat::chains::{changed, lemma_changed_shape, lemma_changed_trans};
use crate::ffat::content::payload_entries;
use crate::ffat::dirwrite::lemma_tidy_set_use;
use crate::ffat::members::{lemma_in_parts, lemma_in_skip, lemma_in_take};
use crate::ffat::model::{m_clear_at, m_cut_after, m_meta, m_root, m_set_meta, Disk};
use crate::ffat::packing::{lemma_other_kept, lemma_regroup, regrouped, within};
use crate::ffat::payload::{
    lemma_in_concat, lemma_tidy_at, lemma_tidy_bounds, lemma_tidy_cut, same_use, tidy,
};
use crate::ffat::sound::{chain_ok, entries_of, entry_of, sound, tree_ok, Layout};
use crate::ffat::structs::{Sector, SectorType};
use crate::ffat::tree::lemma_sound_chain;

verus! {

/// Whether the layouts `l` and `l2` know the same files and directories, in the same tree.
pub open spec fn same_tree(l: Layout, l2: Layout) -> bool {
    &&& l2.chains.dom() == l.chains.dom()
    &&& l2.parent == l.parent
    &&& l2.depth == l.depth
}

/// The tree of files and directories stays what it is where the files and directories
/// stay what they are, and every directory keeps its entries.
pub proof fn lemma_tree_kept(d: Disk, l: Layout, e: Disk, l2: Layout)
    requires
        tree_ok(d, l),
        same_tree(l, l2),
        m_root(d) is Ok,
        m_root(e) is Ok,
        m_root(e).unwrap().root == m_root(d).unwrap().root,
        forall|h: u64|
            #[trigger] l.chains.contains_key(h) ==> entry_of(e, h).sector_type == entry_of(
                d,
                h,
            ).sector_type,
        forall|h: u64|
            #[trigger] l.chains.contains_key(h) && entry_of(d, h).sector_type == SectorType::Dir
                ==> entries_of(e, l2, h) == entries_of(d, l, h),
    ensures
        tree_ok(e, l2),
{
    reveal(tree_ok);
    let top = m_root(d).unwrap().root;
    assert forall|h: u64| l2.chains.contains_key(h) == l.chains.contains_key(h) by {
        assert(l2.chains.dom().contains(h) == l.chains.dom().contains(h));
    }
    assert forall|h: u64| #[trigger] l2.chains.contains_key(h) && h != top implies {
        &&& l2.parent.contains_key(h)
        &&& l2.chains.contains_key(l2.parent[h])
        &&& entry_of(e, l2.parent[h]).sector_type == SectorType::Dir
        &&& l2.depth.contains_key(h)
        &&& l2.depth.contains_key(l2.parent[h])
        &&& l2.depth[h] == l2.depth[l2.parent[h]] + 1
        &&& crate::ffat::sound::listed(entries_of(e, l2, l2.parent[h]), h)
    } by {
        assert(l.chains.contains_key(h));
        let q = l.parent[h];
        assert(l.chains.contains_key(q));
    }
    assert forall|p: u64, i: int|
        l2.chains.contains_key(p) && entry_of(e, p).sector_type == SectorType::Dir && 0 <= i
            < entries_of(e, l2, p).len() implies {
        &&& l2.chains.contains_key((#[trigger] entries_of(e, l2, p)[i]).0)
        &&& entries_of(e, l2, p)[i].0 != top
        &&& l2.parent[entries_of(e, l2, p)[i].0] == p
    } by {
        assert(l.chains.contains_key(p));
        assert(entries_of(e, l2, p) == entries_of(d, l, p));
        assert(l.chains.contains_key(entries_of(d, l, p)[i].0));
    }
    assert forall|p: u64|
        #[trigger] l2.chains.contains_key(p) && entry_of(e, p).sector_type
            == SectorType::Dir implies crate::ffat::sound::distinct_entries(
        entries_of(e, l2, p),
    ) by {
        assert(l.chains.contains_key(p));
    }
}

/// Whether the files and directories of two sound volumes are the same, of the same types,
/// and the directories list the same entries.
pub open spec fn same_names(d: Disk, l: Layout, e: Disk, l2: Layout) -> bool {
    &&& sound(d, l)
    &&& sound(e, l2)
    &&& m_root(e).unwrap().root == m_root(d).unwrap().root
    &&& forall|h: u64| l2.chains.contains_key(h) == #[trigger] l.chains.contains_key(h)
    &&& forall|h: u64|
        #[trigger] l.chains.contains_key(h) ==> entry_of(e, h).sector_type == entry_of(
            d,
            h,
        ).sector_type
    &&& forall|h: u64|
        #[trigger] l.chains.contains_key(h) && entry_of(d, h).sector_type == SectorType::Dir
            ==> entries_of(e, l2, h) == entries_of(d, l, h)
}

/// On a sound volume, a change that shares out the sectors of the chain of a file and of
/// the free list anew between the two leaves the volume sound.
pub proof fn lemma_regroup_file(
    d: Disk,
    l: Layout,
    e: Disk,
    metas: Set<u64>,
    blocks: Set<u64>,
    p: u64,
    c3: Seq<u64>,
    f3: Seq<u64>,
)
    requires
        sound(d, l),
        l.chains.contains_key(p),
        entry_of(d, p).sector_type == SectorType::File,
        changed(d, e, metas, blocks),
        within(metas, l.chains[p], l.free),
        within(blocks, l.chains[p], l.free),
        tidy(e, c3, f3),
        chain_ok(e, p, c3),
        entry_of(e, p).sector_type == SectorType::File,
        forall|x: u64|
            (c3.contains(x) || f3.contains(x)) == (l.chains[p].contains(x) || l.free.contains(x)),
    ensures
        sound(e, regrouped(l, p, c3, f3)),
        same_names(d, l, e, regrouped(l, p, c3, f3)),
{
    let l2 = regrouped(l, p, c3, f3);
    lemma_regroup(d, l, e, metas, blocks, p, c3, f3);
    lemma_changed_shape(d, e, metas, blocks);
    assert(l2.chains.dom() =~= l.chains.dom());
    assert forall|h: u64| #[trigger] l.chains.contains_key(h) implies entry_of(e, h).sector_type
        == entry_of(d, h).sector_type by {
        if h != p {
            lemma_other_kept(d, l, e, metas, blocks, p, h);
        }
    }
    assert forall|h: u64|
        #[trigger] l.chains.contains_key(h) && entry_of(d, h).sector_type
            == SectorType::Dir implies entries_of(e, l2, h) == entries_of(d, l, h) by {
        lemma_other_kept(d, l, e, metas, blocks, p, h);
    }
    lemma_tree_kept(d, l, e, l2);
}

/// Emptying a file on a sound volume succeeds and leaves the volume sound: the file keeps
/// its first sector, and the rest of its chain goes to the front of the free list.
pub proof fn law_clear_file_sound(d: Disk, l: Layout, h: u64)
    requires
        sound(d, l),
        l.chains.contains_key(h),
        entry_of(d, h).sector_type == SectorType::File,
    ensures
        m_clear_at(d, h).1 == Ok::<(), ErrorKind>(()),
        sound(
            m_clear_at(d, h).0,
            regrouped(l, h, seq![h], l.chains[h].skip(1) + l.free),
        ),
        m_meta(m_clear_at(d, h).0, h) == Ok::<Sector, ErrorKind>(
            Sector { sector_type: SectorType::File, size: 0, next: 0 },
        ),
        forall|x: u64|
            l.chains.contains_key(x) && x != h ==> entry_of(m_clear_at(d, h).0, x) == entry_of(
                d,
                x,
            ) && payload_entries(
                m_clear_at(d, h).0,
                #[trigger] l.chains[x],
                entry_of(m_clear_at(d, h).0, x).size,
            ) == payload_entries(d, l.chains[x], entry_of(d, x).size),
{
    reveal(m_clear_at);
    let c = l.chains[h];
    let f = l.free;
    lemma_sound_chain(d, l, h);
    lemma_tidy_bounds(d, c, f);
    lemma_tidy_cut(d, c, f, 1);
    let d1 = m_cut_after(d, h).0;
    let c3 = c.take(1);
    let f3 = c.skip(1) + f;
    assert(c3 =~= seq![h]);
    lemma_tidy_at(d1, c3, f3, 0);
    let entry = m_meta(d1, h).unwrap();
    let emptied = Sector { size: 0, ..entry };
    assert(same_use(m_meta(d1, c[0]).unwrap(), m_meta(d, c[0]).unwrap()));
    lemma_tidy_set_use(d1, c3, f3, 0, emptied);
    let d2 = m_set_meta(d1, h, emptied).0;
    assert(m_clear_at(d, h) == (d2, Ok::<(), ErrorKind>(())));
    let m1 = set![c[0]].union(c.skip(1).to_set());
    lemma_changed_trans(d, d1, d2, m1, Set::empty(), set![h], Set::empty());
    let metas = m1.union(set![h]);
    assert(within(metas, c, f)) by {
        assert forall|x: u64| #[trigger] metas.contains(x) implies c.contains(x) || f.contains(
            x,
        ) by {
            if x == c[0] {
                assert(c.contains(x));
            }
            if c.skip(1).to_set().contains(x) {
                lemma_in_skip(c, 1, x);
            }
        }
    }
    let blocks = Set::<u64>::empty().union(Set::<u64>::empty());
    assert(within(blocks, c, f));
    assert(chain_ok(d2, h, c3)) by {
        assert(crate::ffat::chains::linked(d2, c3)) by {
            reveal(tidy);
        }
    }
    assert forall|x: u64| (c3.contains(x) || f3.contains(x)) == (c.contains(x) || f.contains(
        x,
    )) by {
        lemma_in_concat(c.skip(1), f, x);
        if c3.contains(x) {
            lemma_in_take(c, 1, x);
        }
        if c.skip(1).contains(x) {
            lemma_in_skip(c, 1, x);
        }
        if c.contains(x) {
            lemma_in_parts(c, 1, x);
        }
    }
    lemma_regroup_file(d, l, d2, metas, blocks, h, c3, f3);
    assert forall|x: u64| l.chains.contains_key(x) && x != h implies entry_of(d2, x) == entry_of(
        d,
        x,
    ) && payload_entries(d2, #[trigger] l.chains[x], entry_of(d2, x).size) == payload_entries(
        d,
        l.chains[x],
        entry_of(d, x).size,
    ) by {
        lemma_other_kept(d, l, d2, metas, blocks, h, x);
    }
}

} // verus!
