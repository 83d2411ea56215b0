use vstd::prelude::*;
use crate::ffat::chains::{changed, disjoint, free_list, lemma_changed_shape, linked};
use crate::ffat::content::payload_entries;
use crate::ffat::members::lemma_disjoint_from;
use crate::ffat::model::{disk_wf, m_meta, m_root, Disk};
use crate::ffat::packing::{lemma_outside, regrouped, within};
use crate::ffat::payload::tidy;
use crate::ffat::sound::{
    chain_ok, chains_ok, entry_of, lemma_chain_kept, lemma_covered_at, lemma_covered_intro, owned, packed, separate, Layout,
};

verus! {

/// Whether the sectors of the volume are shared out as the layout `l` says, but for the
/// sector `x`, which belongs neither to the free list nor to a chain.
#[verifier::opaque]
pub open spec fn packed_but(d: Disk, l: Layout, x: u64) -> bool {
    &&& disk_wf(d)
    &&& m_root(d) is Ok
    &&& m_meta(d, x) is Ok
    &&& free_list(d, l.free)
    &&& chains_ok(d, l)
    &&& separate(l)
    &&& !l.free.contains(x)
    &&& forall|h: u64| l.chains.contains_key(h) ==> !(#[trigger] l.chains[h]).contains(x)
    &&& forall|a: u64|
        m_root(d).unwrap().root <= a < m_root(d).unwrap().sectors && a != x ==> #[trigger] owned(
            l,
            a,
        )
}

/// The layout in which the first sector of the free list has left the free list.
pub open spec fn detached(l: Layout) -> Layout {
    Layout { free: l.free.drop_first(), ..l }
}

/// On a packed volume, a change that takes the first sector off the free list leaves the
/// volume packed but for that sector.
pub proof fn lemma_detach(d: Disk, l: Layout, e: Disk, fresh: u64)
    requires
        packed(d, l),
        l.free.len() >= 2,
        fresh == l.free[0],
        changed(d, e, set![fresh], Set::empty()),
        free_list(e, l.free.drop_first()),
        m_meta(e, fresh) is Ok,
    ensures
        packed_but(e, detached(l), fresh),
        !l.chains.contains_key(fresh),
        forall|h: u64|
            l.chains.contains_key(h) ==> entry_of(e, h) == entry_of(d, h) && payload_entries(
                e,
                #[trigger] l.chains[h],
                entry_of(e, h).size,
            ) == payload_entries(d, l.chains[h], entry_of(d, h).size),
{
    reveal(packed_but);
    let l2 = detached(l);
    let f = l.free;
    let rest = f.drop_first();
    let metas = set![fresh];
    lemma_changed_shape(d, e, metas, Set::empty());
    assert(f.contains(fresh)) by {
        assert(f[0] == fresh);
    }
    crate::ffat::packing::lemma_free_not_head(d, l, fresh);
    assert(f.no_duplicates()) by {
        assert(linked(d, f));
    }
    assert forall|h: u64| l.chains.contains_key(h) implies chain_ok(e, h, #[trigger] l.chains[h])
        && entry_of(e, h) == entry_of(d, h) && payload_entries(
        e,
        l.chains[h],
        entry_of(e, h).size,
    ) == payload_entries(d, l.chains[h], entry_of(d, h).size) && !l.chains[h].contains(fresh) by {
        reveal(chains_ok);
        reveal(separate);
        let a = l.chains[h];
        assert(disjoint(a, f));
        assert forall|j: int| 0 <= j < a.len() implies !metas.contains(#[trigger] a[j]) by {
            assert(a[j] != f[0]);
        }
        lemma_chain_kept(d, e, metas, Set::empty(), h, a);
        if a.contains(fresh) {
            let j = choose|j: int| 0 <= j < a.len() && a[j] == fresh;
            assert(a[j] != f[0]);
        }
    }
    assert(chains_ok(e, l2)) by {
        reveal(chains_ok);
    }
    assert(separate(l2)) by {
        reveal(separate);
        assert forall|h: u64| l2.chains.contains_key(h) implies disjoint(
            #[trigger] l2.chains[h],
            l2.free,
        ) by {
            let a = l2.chains[h];
            assert(disjoint(l.chains[h], f));
            assert forall|i: int, j: int| 0 <= i < a.len() && 0 <= j < rest.len() implies a[i]
                != rest[j] by {
                assert(rest[j] == f[j + 1]);
                assert(l.chains[h][i] != f[j + 1]);
            }
        }
    }
    assert(!rest.contains(fresh)) by {
        if rest.contains(fresh) {
            let j = choose|j: int| 0 <= j < rest.len() && rest[j] == fresh;
            assert(f[j + 1] == f[0]);
        }
    }
    assert forall|a: u64|
        m_root(e).unwrap().root <= a < m_root(e).unwrap().sectors && a != fresh implies #[trigger] owned(
        l2,
        a,
    ) by {
        lemma_covered_at(d, l, a);
        if l.owner[a] == 0 {
            let j = choose|j: int| 0 <= j < f.len() && f[j] == a;
            assert(j != 0);
            assert(rest[j - 1] == a);
        }
    }
}

/// On a volume that is packed but for one sector, a change within the chain of one file or
/// directory and the free list leaves the chain of every other file and directory as it is.
pub proof fn lemma_other_kept_but(
    d: Disk,
    l: Layout,
    x: u64,
    e: Disk,
    metas: Set<u64>,
    blocks: Set<u64>,
    p: u64,
    h: u64,
)
    requires
        packed_but(d, l, x),
        l.chains.contains_key(p),
        l.chains.contains_key(h),
        h != p,
        changed(d, e, metas, blocks),
        within(metas, l.chains[p], l.free),
        within(blocks, l.chains[p], l.free),
    ensures
        chain_ok(e, h, l.chains[h]),
        entry_of(e, h) == entry_of(d, h),
        payload_entries(e, l.chains[h], entry_of(e, h).size) == payload_entries(
            d,
            l.chains[h],
            entry_of(d, h).size,
        ),
{
    reveal(packed_but);
    reveal(chains_ok);
    reveal(separate);
    let a = l.chains[h];
    assert(disjoint(a, l.chains[p]));
    assert(disjoint(a, l.free));
    lemma_outside(a, l.chains[p], l.free, metas);
    lemma_outside(a, l.chains[p], l.free, blocks);
    lemma_chain_kept(d, e, metas, blocks, h, a);
}

/// On a volume that is packed but for one sector, a change that shares out the sectors of
/// one chain and of the free list anew between the two leaves the volume packed but for
/// that sector.
pub proof fn lemma_regroup_but(
    d: Disk,
    l: Layout,
    x: u64,
    e: Disk,
    metas: Set<u64>,
    blocks: Set<u64>,
    p: u64,
    c3: Seq<u64>,
    f3: Seq<u64>,
)
    requires
        packed_but(d, l, x),
        l.chains.contains_key(p),
        changed(d, e, metas, blocks),
        within(metas, l.chains[p], l.free),
        within(blocks, l.chains[p], l.free),
        tidy(e, c3, f3),
        chain_ok(e, p, c3),
        forall|y: u64|
            (c3.contains(y) || f3.contains(y)) == (l.chains[p].contains(y) || l.free.contains(y)),
    ensures
        packed_but(e, regrouped(l, p, c3, f3), x),
        m_meta(e, x) == m_meta(d, x),
        e[x as int] == d[x as int],
{
    reveal(packed_but);
    let l2 = regrouped(l, p, c3, f3);
    let c = l.chains[p];
    let f = l.free;
    lemma_changed_shape(d, e, metas, blocks);
    assert(!c.contains(x));
    assert(!metas.contains(x));
    assert(!blocks.contains(x));
    crate::ffat::chains::lemma_changed_meta(d, e, metas, blocks, x);
    crate::ffat::chains::lemma_changed_block(d, e, metas, blocks, x);
    assert(free_list(e, f3) && disjoint(c3, f3)) by {
        reveal(tidy);
    }
    assert(chains_ok(e, l2)) by {
        assert forall|h: u64| l2.chains.contains_key(h) implies chain_ok(
            e,
            h,
            #[trigger] l2.chains[h],
        ) by {
            if h != p {
                lemma_other_kept_but(d, l, x, e, metas, blocks, p, h);
            }
        }
        reveal(chains_ok);
    }
    assert(separate(l2)) by {
        reveal(separate);
        assert forall|h: u64| l2.chains.contains_key(h) implies disjoint(
            #[trigger] l2.chains[h],
            l2.free,
        ) by {
            if h != p {
                assert(disjoint(l.chains[h], c));
                lemma_disjoint_from(l.chains[h], c, f, f3);
            }
        }
        assert forall|h1: u64, h2: u64|
            l2.chains.contains_key(h1) && l2.chains.contains_key(h2) && h1 != h2 implies disjoint(
            #[trigger] l2.chains[h1],
            #[trigger] l2.chains[h2],
        ) by {
            if h1 == p {
                assert(disjoint(l.chains[h2], c));
                lemma_disjoint_from(l.chains[h2], c, f, c3);
            } else if h2 == p {
                assert(disjoint(l.chains[h1], c));
                lemma_disjoint_from(l.chains[h1], c, f, c3);
            }
        }
    }
    assert(p != 0) by {
        reveal(chains_ok);
        assert(chain_ok(d, p, l.chains[p]));
        assert(m_meta(d, l.chains[p][0]) is Ok);
        crate::ffat::growth::lemma_read_nonzero(d, p);
    }
    assert forall|h: u64| l2.chains.contains_key(h) implies !(#[trigger] l2.chains[h]).contains(
        x,
    ) by {
        if h != p {
            assert(!l.chains[h].contains(x));
        }
    }
    assert forall|a: u64|
        m_root(e).unwrap().root <= a < m_root(e).unwrap().sectors && a != x implies #[trigger] owned(
        l2,
        a,
    ) by {
        assert(owned(l, a));
        if c3.contains(a) {
            assert(l2.owner[a] == p);
            assert(l2.chains[p] == c3);
        } else if f3.contains(a) {
            assert(l2.owner[a] == 0);
        } else {
            assert(!c.contains(a) && !f.contains(a));
            let o = l.owner[a];
            assert(l2.owner[a] == o);
            assert(o != 0);
            assert(l.chains.contains_key(o) && l.chains[o].contains(a));
            assert(o != p);
            assert(l2.chains[o] == l.chains[o]);
        }
    }
}

/// On a volume that is packed but for one sector, writing that sector leaves every file
/// and directory as it is.
pub proof fn lemma_loose_block(d: Disk, l: Layout, x: u64, block: Seq<u8>)
    requires
        packed_but(d, l, x),
        block.len() == 4096,
    ensures
        packed_but(d.update(x as int, block), l, x),
        m_meta(d.update(x as int, block), x) == m_meta(d, x),
        d.update(x as int, block)[x as int] == block,
        forall|h: u64|
            l.chains.contains_key(h) ==> entry_of(d.update(x as int, block), h) == entry_of(d, h)
                && payload_entries(
                d.update(x as int, block),
                #[trigger] l.chains[h],
                entry_of(d.update(x as int, block), h).size,
            ) == payload_entries(d, l.chains[h], entry_of(d, h).size),
{
    reveal(packed_but);
    let e = d.update(x as int, block);
    crate::ffat::chains::lemma_block_same_but(d, x, block);
    let blocks = set![x];
    lemma_changed_shape(d, e, Set::empty(), blocks);
    crate::ffat::chains::lemma_changed_meta(d, e, Set::empty(), blocks, x);
    assert forall|h: u64| l.chains.contains_key(h) implies chain_ok(e, h, #[trigger] l.chains[h])
        && entry_of(e, h) == entry_of(d, h) && payload_entries(
        e,
        l.chains[h],
        entry_of(e, h).size,
    ) == payload_entries(d, l.chains[h], entry_of(d, h).size) by {
        reveal(chains_ok);
        let a = l.chains[h];
        assert(!a.contains(x));
        assert forall|j: int| 0 <= j < a.len() implies !blocks.contains(#[trigger] a[j]) by {
            if a[j] == x {
                assert(a.contains(x));
            }
        }
        lemma_chain_kept(d, e, Set::empty(), blocks, h, a);
    }
    assert(chains_ok(e, l)) by {
        reveal(chains_ok);
    }
    assert(free_list(e, l.free)) by {
        assert forall|i: int| 0 <= i < l.free.len() implies !Set::<u64>::empty().contains(
            #[trigger] l.free[i],
        ) by {
        }
        crate::ffat::chains::lemma_free_list_kept(d, e, Set::empty(), blocks, l.free);
    }
}

/// The layout in which the sector `x` is a file or directory of its own.
pub open spec fn adopted_loose(l: Layout, x: u64) -> Layout {
    Layout { chains: l.chains.insert(x, seq![x]), owner: l.owner.insert(x, x), ..l }
}

/// A volume that is packed but for one sector is packed where that sector is a file or
/// directory of its own.
pub proof fn lemma_adopt_loose(d: Disk, l: Layout, x: u64)
    requires
        packed_but(d, l, x),
        chain_ok(d, x, seq![x]),
    ensures
        packed(d, adopted_loose(l, x)),
{
    reveal(packed_but);
    let l2 = adopted_loose(l, x);
    assert(chains_ok(d, l2)) by {
        reveal(chains_ok);
    }
    assert(separate(l2)) by {
        reveal(separate);
        assert forall|h: u64| l2.chains.contains_key(h) implies disjoint(
            #[trigger] l2.chains[h],
            l2.free,
        ) by {
            let a = l2.chains[h];
            if h == x {
                assert forall|i: int, j: int|
                    0 <= i < a.len() && 0 <= j < l.free.len() implies a[i] != l.free[j] by {
                    if a[i] == l.free[j] {
                        assert(l.free.contains(x));
                    }
                }
            } else {
                assert(disjoint(l.chains[h], l.free));
            }
        }
        assert forall|h1: u64, h2: u64|
            l2.chains.contains_key(h1) && l2.chains.contains_key(h2) && h1 != h2 implies disjoint(
            #[trigger] l2.chains[h1],
            #[trigger] l2.chains[h2],
        ) by {
            let a = l2.chains[h1];
            let b = l2.chains[h2];
            assert forall|i: int, j: int| 0 <= i < a.len() && 0 <= j < b.len() implies a[i]
                != b[j] by {
                if h1 == x {
                    if a[i] == b[j] {
                        assert(l.chains[h2].contains(x));
                    }
                } else if h2 == x {
                    if a[i] == b[j] {
                        assert(l.chains[h1].contains(x));
                    }
                } else {
                    assert(disjoint(l.chains[h1], l.chains[h2]));
                }
            }
        }
    }
    crate::ffat::growth::lemma_read_nonzero(d, x);
    assert forall|a: u64|
        m_root(d).unwrap().root <= a < m_root(d).unwrap().sectors implies #[trigger] owned(
        l2,
        a,
    ) by {
        if a == x {
            assert(seq![x][0] == x);
        } else {
            assert(owned(l, a));
            if l.owner[a] != 0 {
                assert(l.chains[l.owner[a]].contains(a));
                assert(l.owner[a] != x) by {
                    reveal(chains_ok);
                    if l.chains.contains_key(x) {
                        assert(chain_ok(d, x, l.chains[x]));
                        assert(l.chains[x][0] == x);
                        assert(l.chains[x].contains(x));
                    }
                }
            }
        }
    }
    lemma_covered_intro(d, l2);
}

} // verus!
