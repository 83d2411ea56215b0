use vstd::prelude::*;
use crate::ffat::chains::{changed, disjoint, free_list, lemma_changed_shape};
use crate::ffat::content::payload_entries;
use crate::ffat::members::lemma_disjoint_from;
use crate::ffat::model::{m_meta, m_root, Disk};
use crate::ffat::payload::{lemma_in_concat, tidy};
use crate::ffat::sound::{
    chain_ok, chains_ok, entry_of, lemma_chain_kept, lemma_covered_at, lemma_covered_intro, outside, owned, packed, separate, Layout,
};

verus! {

/// Whether every sector of a set is in one of two lists.
pub open spec fn within(s: Set<u64>, c: Seq<u64>, f: Seq<u64>) -> bool {
    forall|x: u64| #[trigger] s.contains(x) ==> c.contains(x) || f.contains(x)
}

/// A list that shares no sector with two lists lies outside every set within the two.
pub proof fn lemma_outside(a: Seq<u64>, c: Seq<u64>, f: Seq<u64>, s: Set<u64>)
    requires
        disjoint(a, c),
        disjoint(a, f),
        within(s, c, f),
    ensures
        outside(a, s),
{
    assert forall|j: int| 0 <= j < a.len() implies !s.contains(#[trigger] a[j]) by {
        if s.contains(a[j]) {
            if c.contains(a[j]) {
                let m = choose|m: int| 0 <= m < c.len() && c[m] == a[j];
                assert(a[j] != c[m]);
            } else {
                let m = choose|m: int| 0 <= m < f.len() && f[m] == a[j];
                assert(a[j] != f[m]);
            }
        }
    }
}

/// On a packed volume, a change within the chain of one file or directory and the free
/// list leaves the chain of every other file and directory as it is.
pub proof fn lemma_other_kept(
    d: Disk,
    l: Layout,
    e: Disk,
    metas: Set<u64>,
    blocks: Set<u64>,
    p: u64,
    h: u64,
)
    requires
        packed(d, l),
        l.chains.contains_key(p),
        l.chains.contains_key(h),
        h != p,
        changed(d, e, metas, blocks),
        within(metas, l.chains[p], l.free),
        within(blocks, l.chains[p], l.free),
    ensures
        chain_ok(e, h, l.chains[h]),
        entry_of(e, h) == entry_of(d, h),
        payload_entries(e, l.chains[h], entry_of(e, h).size) == payload_entries(
            d,
            l.chains[h],
            entry_of(d, h).size,
        ),
{
    reveal(chains_ok);
    reveal(separate);
    let a = l.chains[h];
    assert(disjoint(a, l.chains[p]));
    assert(disjoint(a, l.free));
    lemma_outside(a, l.chains[p], l.free, metas);
    lemma_outside(a, l.chains[p], l.free, blocks);
    lemma_chain_kept(d, e, metas, blocks, h, a);
}

/// The layout in which the file or directory at `p` has the chain `c3`, and the free list
/// is `f3`.
pub open spec fn regrouped(l: Layout, p: u64, c3: Seq<u64>, f3: Seq<u64>) -> Layout {
    Layout {
        free: f3,
        chains: l.chains.insert(p, c3),
        owner: Map::new(
            |a: u64| l.owner.contains_key(a),
            |a: u64|
                if c3.contains(a) {
                    p
                } else if f3.contains(a) {
                    0
                } else {
                    l.owner[a]
                },
        ),
        parent: l.parent,
        depth: l.depth,
    }
}

/// On a packed volume, a change that shares out the sectors of one chain and of the free
/// list anew between the two leaves the volume packed.
pub proof fn lemma_regroup(
    d: Disk,
    l: Layout,
    e: Disk,
    metas: Set<u64>,
    blocks: Set<u64>,
    p: u64,
    c3: Seq<u64>,
    f3: Seq<u64>,
)
    requires
        packed(d, l),
        l.chains.contains_key(p),
        changed(d, e, metas, blocks),
        within(metas, l.chains[p], l.free),
        within(blocks, l.chains[p], l.free),
        tidy(e, c3, f3),
        chain_ok(e, p, c3),
        forall|x: u64|
            (c3.contains(x) || f3.contains(x)) == (l.chains[p].contains(x) || l.free.contains(x)),
    ensures
        packed(e, regrouped(l, p, c3, f3)),
{
    let l2 = regrouped(l, p, c3, f3);
    let c = l.chains[p];
    let f = l.free;
    lemma_changed_shape(d, e, metas, blocks);
    assert(free_list(e, f3) && disjoint(c3, f3)) by {
        reveal(tidy);
    }
    assert(chains_ok(e, l2)) by {
        assert forall|h: u64| l2.chains.contains_key(h) implies chain_ok(
            e,
            h,
            #[trigger] l2.chains[h],
        ) by {
            if h != p {
                lemma_other_kept(d, l, e, metas, blocks, p, h);
            }
        }
        reveal(chains_ok);
    }
    assert(separate(l2)) by {
        reveal(separate);
        assert forall|h: u64| l2.chains.contains_key(h) implies disjoint(
            #[trigger] l2.chains[h],
            l2.free,
        ) by {
            if h != p {
                assert(disjoint(l.chains[h], c));
                lemma_disjoint_from(l.chains[h], c, f, f3);
            }
        }
        assert forall|h1: u64, h2: u64|
            l2.chains.contains_key(h1) && l2.chains.contains_key(h2) && h1 != h2 implies disjoint(
            #[trigger] l2.chains[h1],
            #[trigger] l2.chains[h2],
        ) by {
            if h1 == p {
                assert(disjoint(l.chains[h2], c));
                lemma_disjoint_from(l.chains[h2], c, f, c3);
            } else if h2 == p {
                assert(disjoint(l.chains[h1], c));
                lemma_disjoint_from(l.chains[h1], c, f, c3);
            }
        }
    }
    assert(p != 0) by {
        reveal(chains_ok);
        assert(chain_ok(d, p, l.chains[p]));
        assert(m_meta(d, l.chains[p][0]) is Ok);
        crate::ffat::growth::lemma_read_nonzero(d, p);
    }
    assert forall|a: u64|
        m_root(e).unwrap().root <= a < m_root(e).unwrap().sectors implies #[trigger] owned(
        l2,
        a,
    ) by {
        lemma_covered_at(d, l, a);
        if c3.contains(a) {
            assert(l2.owner[a] == p);
            assert(l2.chains[p] == c3);
        } else if f3.contains(a) {
            assert(l2.owner[a] == 0);
        } else {
            assert(!c.contains(a) && !f.contains(a));
            let o = l.owner[a];
            assert(l2.owner[a] == o);
            assert(o != 0);
            assert(l.chains.contains_key(o) && l.chains[o].contains(a));
            assert(o != p);
            assert(l2.chains[o] == l.chains[o]);
        }
    }
    lemma_covered_intro(e, l2);
}

/// On a packed volume no sector of the free list is the first sector of a file or directory.
pub proof fn lemma_free_not_head(d: Disk, l: Layout, x: u64)
    requires
        packed(d, l),
        l.free.contains(x),
    ensures
        !l.chains.contains_key(x),
{
    reveal(chains_ok);
    reveal(separate);
    if l.chains.contains_key(x) {
        let c = l.chains[x];
        assert(chain_ok(d, x, c));
        assert(c[0] == x);
        let j = choose|j: int| 0 <= j < l.free.len() && l.free[j] == x;
        assert(disjoint(c, l.free));
        assert(c[0] != l.free[j]);
    }
}

/// The layout in which the chain of the file or directory at `h` has gone to the front of
/// the free list.
pub open spec fn released(l: Layout, h: u64) -> Layout {
    Layout {
        free: l.chains[h] + l.free,
        chains: l.chains.remove(h),
        owner: Map::new(
            |a: u64| l.owner.contains_key(a),
            |a: u64|
                if l.chains[h].contains(a) {
                    0
                } else {
                    l.owner[a]
                },
        ),
        parent: l.parent,
        depth: l.depth,
    }
}

/// On a packed volume, a change that puts the chain of a file or directory in front of the
/// free list leaves the volume packed.
pub proof fn lemma_release(d: Disk, l: Layout, e: Disk, h: u64)
    requires
        packed(d, l),
        l.chains.contains_key(h),
        changed(d, e, l.chains[h].to_set(), Set::empty()),
        free_list(e, l.chains[h] + l.free),
    ensures
        packed(e, released(l, h)),
        forall|x: u64|
            l.chains.contains_key(x) && x != h ==> entry_of(e, x) == entry_of(d, x)
                && payload_entries(e, #[trigger] l.chains[x], entry_of(e, x).size)
                == payload_entries(d, l.chains[x], entry_of(d, x).size),
{
    let l2 = released(l, h);
    let c = l.chains[h];
    let f = l.free;
    let metas = c.to_set();
    lemma_changed_shape(d, e, metas, Set::empty());
    assert forall|x: u64| l.chains.contains_key(x) && x != h implies chain_ok(
        e,
        x,
        #[trigger] l.chains[x],
    ) && entry_of(e, x) == entry_of(d, x) && payload_entries(e, l.chains[x], entry_of(e, x).size)
        == payload_entries(d, l.chains[x], entry_of(d, x).size) by {
        assert(within(metas, c, f));
        assert(within(Set::<u64>::empty(), c, f));
        lemma_other_kept(d, l, e, metas, Set::empty(), h, x);
    }
    assert(chains_ok(e, l2)) by {
        assert forall|x: u64| l2.chains.contains_key(x) implies chain_ok(
            e,
            x,
            #[trigger] l2.chains[x],
        ) by {
            assert(chain_ok(e, x, l.chains[x]));
        }
        reveal(chains_ok);
    }
    assert(separate(l2)) by {
        reveal(separate);
        assert forall|x: u64| l2.chains.contains_key(x) implies disjoint(
            #[trigger] l2.chains[x],
            l2.free,
        ) by {
            assert(disjoint(l.chains[x], c));
            assert(disjoint(l.chains[x], f));
            assert forall|y: u64| (c + f).contains(y) implies c.contains(y) || f.contains(y) by {
                lemma_in_concat(c, f, y);
            }
            lemma_disjoint_from(l.chains[x], c, f, c + f);
        }
    }
    assert forall|a: u64|
        m_root(e).unwrap().root <= a < m_root(e).unwrap().sectors implies #[trigger] owned(
        l2,
        a,
    ) by {
        lemma_covered_at(d, l, a);
        lemma_in_concat(c, f, a);
        if !c.contains(a) && l.owner[a] != 0 {
            assert(l.owner[a] != h);
        }
    }
    lemma_covered_intro(e, l2);
}

} // verus!
