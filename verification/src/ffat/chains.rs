use vstd::prelude::*;
use crate::error::ErrorKind;
use crate::ffat::laws::lemma_set_meta_reads;
use crate::ffat::model::{
    blank_entry, disk_wf, lemma_meta_ok, m_alloc, m_free_chain, m_mark_free, m_meta, m_root, m_set_meta, m_set_root, Disk,
};
use crate::ffat::structs::{RootView, Sector, SectorType};

verus! {

/// Whether `c` is a chain of the volume from its first to its last sector: every sector has
/// a table entry, each is followed by the next one, the last has no successor, and no
/// sector occurs twice.
pub open spec fn linked(d: Disk, c: Seq<u64>) -> bool {
    &&& c.len() >= 1
    &&& c.no_duplicates()
    &&& forall|i: int| 0 <= i < c.len() ==> m_meta(d, #[trigger] c[i]) is Ok
    &&& forall|i: int|
        0 <= i < c.len() ==> m_meta(d, #[trigger] c[i]).unwrap().next == (if i + 1 < c.len() {
            c[i + 1]
        } else {
            0
        })
}

/// Whether `f` is the free list of the volume: empty where the root sector names no free
/// sector, and else the chain from the sector that it names, all of whose sectors are free.
pub open spec fn free_list(d: Disk, f: Seq<u64>) -> bool {
    &&& m_root(d) is Ok
    &&& if f.len() == 0 {
        m_root(d).unwrap().free == 0
    } else {
        &&& m_root(d).unwrap().free == f[0]
        &&& linked(d, f)
        &&& forall|i: int|
            0 <= i < f.len() ==> m_meta(d, #[trigger] f[i]).unwrap().sector_type
                == SectorType::Free
    }
}

/// Whether `after` is `before` but for the table entries of the sectors in `metas`, the
/// contents of the sectors in `blocks`, and the head of the free list.
#[verifier::opaque]
pub open spec fn changed(before: Disk, after: Disk, metas: Set<u64>, blocks: Set<u64>) -> bool {
    &&& disk_wf(before)
    &&& disk_wf(after)
    &&& after.len() == before.len()
    &&& m_root(before) is Ok
    &&& m_root(after) is Ok
    &&& m_root(after).unwrap().sectors == m_root(before).unwrap().sectors
    &&& m_root(after).unwrap().root == m_root(before).unwrap().root
    &&& forall|a: u64|
        m_root(before).unwrap().root <= a < before.len() && !blocks.contains(a)
            ==> #[trigger] after[a as int] == before[a as int]
    &&& forall|a: u64| !metas.contains(a) ==> #[trigger] m_meta(after, a) == m_meta(before, a)
}

/// Whether `after` is `before` but for the table entries of the sectors in `touched` and
/// for the head of the free list: the data region is as before, and so is every other
/// table entry.
pub open spec fn same_but(before: Disk, after: Disk, touched: Set<u64>) -> bool {
    changed(before, after, touched, Set::empty())
}

/// What a change keeps of the shape of the volume.
pub proof fn lemma_changed_shape(before: Disk, after: Disk, metas: Set<u64>, blocks: Set<u64>)
    requires
        changed(before, after, metas, blocks),
    ensures
        disk_wf(before),
        disk_wf(after),
        after.len() == before.len(),
        m_root(before) is Ok,
        m_root(after) is Ok,
        m_root(after).unwrap().sectors == m_root(before).unwrap().sectors,
        m_root(after).unwrap().root == m_root(before).unwrap().root,
{
    reveal(changed);
}

/// A change keeps the table entries that it does not name.
pub proof fn lemma_changed_meta(before: Disk, after: Disk, metas: Set<u64>, blocks: Set<u64>, a: u64)
    requires
        changed(before, after, metas, blocks),
        !metas.contains(a),
    ensures
        m_meta(after, a) == m_meta(before, a),
{
    reveal(changed);
}

/// A change keeps the contents of the sectors of the data region that it does not name.
pub proof fn lemma_changed_block(before: Disk, after: Disk, metas: Set<u64>, blocks: Set<u64>, a: u64)
    requires
        changed(before, after, metas, blocks),
        m_meta(before, a) is Ok,
        !blocks.contains(a),
    ensures
        after[a as int] == before[a as int],
{
    reveal(changed);
    lemma_meta_ok(before, a);
}

/// Changes that follow each other change what either changes.
pub proof fn lemma_changed_trans(
    a: Disk,
    b: Disk,
    c: Disk,
    m1: Set<u64>,
    b1: Set<u64>,
    m2: Set<u64>,
    b2: Set<u64>,
)
    requires
        changed(a, b, m1, b1),
        changed(b, c, m2, b2),
    ensures
        changed(a, c, m1.union(m2), b1.union(b2)),
{
    reveal(changed);
    assert forall|x: u64| !m1.union(m2).contains(x) implies #[trigger] m_meta(c, x) == m_meta(
        a,
        x,
    ) by {
        assert(m_meta(c, x) == m_meta(b, x));
        assert(m_meta(b, x) == m_meta(a, x));
    }
    assert forall|x: u64|
        m_root(a).unwrap().root <= x < a.len() && !b1.union(b2).contains(x) implies #[trigger] c[x as int]
        == a[x as int] by {
        assert(c[x as int] == b[x as int]);
        assert(b[x as int] == a[x as int]);
    }
}

/// A change within some sectors is a change within more sectors.
pub proof fn lemma_changed_wider(a: Disk, b: Disk, m1: Set<u64>, b1: Set<u64>, m2: Set<u64>, b2: Set<u64>)
    requires
        changed(a, b, m1, b1),
        m1.subset_of(m2),
        b1.subset_of(b2),
    ensures
        changed(a, b, m2, b2),
{
    reveal(changed);
}

/// Changes that follow each other touch what either touches.
pub proof fn lemma_same_but_trans(a: Disk, b: Disk, c: Disk, s: Set<u64>, t: Set<u64>)
    requires
        same_but(a, b, s),
        same_but(b, c, t),
    ensures
        same_but(a, c, s.union(t)),
{
    lemma_changed_trans(a, b, c, s, Set::empty(), t, Set::empty());
    assert(Set::<u64>::empty().union(Set::<u64>::empty()) =~= Set::<u64>::empty());
}

/// Nothing is a change that touches nothing.
pub proof fn lemma_same_but_refl(d: Disk)
    requires
        disk_wf(d),
        m_root(d) is Ok,
    ensures
        same_but(d, d, Set::empty()),
{
    reveal(changed);
}

/// Writing a table entry touches that entry and nothing else, and keeps the root sector.
pub proof fn lemma_set_meta_same_but(d: Disk, addr: u64, entry: Sector)
    requires
        disk_wf(d),
        m_meta(d, addr) is Ok,
    ensures
        m_set_meta(d, addr, entry).1 is Ok,
        same_but(d, m_set_meta(d, addr, entry).0, set![addr]),
        disk_wf(m_set_meta(d, addr, entry).0),
        m_root(m_set_meta(d, addr, entry).0) == m_root(d),
        m_meta(m_set_meta(d, addr, entry).0, addr) == Ok::<Sector, ErrorKind>(entry),
{
    reveal(changed);
    let after = m_set_meta(d, addr, entry).0;
    lemma_set_meta_reads(d, addr, entry, addr);
    assert forall|a: u64| !set![addr].contains(a) implies #[trigger] m_meta(after, a) == m_meta(
        d,
        a,
    ) by {
        lemma_set_meta_reads(d, addr, entry, a);
    }
    assert forall|a: u64| m_root(d).unwrap().root <= a < d.len() implies #[trigger] after[a as int]
        == d[a as int] by {
        assert(after[a as int] == d[a as int]);
    }
}

/// Writing a sector of the data region touches no table entry, and keeps the root sector.
pub proof fn lemma_block_same_but(d: Disk, addr: u64, block: Seq<u8>)
    requires
        disk_wf(d),
        m_meta(d, addr) is Ok,
        block.len() == 4096,
    ensures
        disk_wf(d.update(addr as int, block)),
        m_root(d.update(addr as int, block)) == m_root(d),
        d.update(addr as int, block)[addr as int] == block,
        changed(d, d.update(addr as int, block), Set::empty(), set![addr]),
{
    reveal(changed);
    lemma_meta_ok(d, addr);
    let after = d.update(addr as int, block);
    let root = m_root(d).unwrap();
    assert(after[0] == d[0]);
    assert forall|a: u64| #[trigger] m_meta(after, a) == m_meta(d, a) by {
        if root.locate(a) is Some {
            root.lemma_locate_in_table(d.len(), a);
            let place = root.locate(a).unwrap();
            assert(after[place.0 as int] == d[place.0 as int]);
        }
    }
    assert forall|i: int| 0 <= i < after.len() implies (#[trigger] after[i]).len() == 4096 by {
        if i != addr {
            assert(after[i] == d[i]);
        }
    }
}

/// Naming another head of the free list in the root sector touches no table entry and no
/// sector of the data region.
pub proof fn lemma_set_free_same_but(d: Disk, free: u64)
    requires
        disk_wf(d),
        m_root(d) is Ok,
    ensures
        same_but(d, m_set_root(d, RootView { free, ..m_root(d).unwrap() }), Set::empty()),
        disk_wf(m_set_root(d, RootView { free, ..m_root(d).unwrap() })),
        m_root(m_set_root(d, RootView { free, ..m_root(d).unwrap() })) == Ok::<
            RootView,
            ErrorKind,
        >(RootView { free, ..m_root(d).unwrap() }),
{
    reveal(changed);
    let root = m_root(d).unwrap();
    let renamed = RootView { free, ..root };
    let after = m_set_root(d, renamed);
    assert(root.name.len() == 64);
    renamed.lemma_roundtrip();
    assert(after[0] == renamed.spec_encode());
    assert(renamed.valid(d.len()));
    assert forall|i: int| 0 <= i < after.len() implies (#[trigger] after[i]).len() == 4096 by {
        if i != 0 {
            assert(after[i] == d[i]);
        }
    }
    assert forall|a: u64| #[trigger] m_meta(after, a) == m_meta(d, a) by {
        if root.locate(a) is Some {
            root.lemma_locate_in_table(d.len(), a);
            let place = root.locate(a).unwrap();
            assert(renamed.locate(a) == root.locate(a));
            assert(after[place.0 as int] == d[place.0 as int]);
        }
    }
    assert forall|a: u64| root.root <= a < d.len() implies #[trigger] after[a as int]
        == d[a as int] by {
        assert(after[a as int] == d[a as int]);
    }
}

/// A chain stays a chain where none of its entries is touched.
pub proof fn lemma_linked_kept(
    before: Disk,
    after: Disk,
    metas: Set<u64>,
    blocks: Set<u64>,
    c: Seq<u64>,
)
    requires
        changed(before, after, metas, blocks),
        linked(before, c),
        forall|i: int| 0 <= i < c.len() ==> !metas.contains(#[trigger] c[i]),
    ensures
        linked(after, c),
        forall|i: int| 0 <= i < c.len() ==> m_meta(after, #[trigger] c[i]) == m_meta(before, c[i]),
{
    assert forall|i: int| 0 <= i < c.len() implies m_meta(after, #[trigger] c[i]) == m_meta(
        before,
        c[i],
    ) by {
        lemma_changed_meta(before, after, metas, blocks, c[i]);
    }
}

/// A free list stays the free list where none of its entries is touched and the root
/// sector names the same head.
pub proof fn lemma_free_list_kept(
    before: Disk,
    after: Disk,
    metas: Set<u64>,
    blocks: Set<u64>,
    f: Seq<u64>,
)
    requires
        changed(before, after, metas, blocks),
        free_list(before, f),
        m_root(after).unwrap().free == m_root(before).unwrap().free,
        forall|i: int| 0 <= i < f.len() ==> !metas.contains(#[trigger] f[i]),
    ensures
        free_list(after, f),
{
    lemma_changed_shape(before, after, metas, blocks);
    if f.len() > 0 {
        lemma_linked_kept(before, after, metas, blocks, f);
    }
}

/// The rest of a chain behind its first sector is a chain.
pub proof fn lemma_linked_tail(d: Disk, c: Seq<u64>)
    requires
        linked(d, c),
        c.len() >= 2,
    ensures
        linked(d, c.drop_first()),
        !c.drop_first().contains(c[0]),
{
    let rest = c.drop_first();
    assert forall|i: int, j: int| 0 <= i < rest.len() && 0 <= j < rest.len() && i != j implies rest[i]
        != rest[j] by {
        assert(rest[i] == c[i + 1]);
        assert(rest[j] == c[j + 1]);
    }
    assert forall|i: int| 0 <= i < rest.len() implies m_meta(d, #[trigger] rest[i]) is Ok by {
        assert(rest[i] == c[i + 1]);
    }
    assert forall|i: int| 0 <= i < rest.len() implies m_meta(d, #[trigger] rest[i]).unwrap().next
        == (if i + 1 < rest.len() {
        rest[i + 1]
    } else {
        0
    }) by {
        assert(rest[i] == c[i + 1]);
    }
    if rest.contains(c[0]) {
        let k = choose|k: int| 0 <= k < rest.len() && rest[k] == c[0];
        assert(c[k + 1] == c[0]);
    }
}

/// Taking a sector off a free list of at least two sectors gives its first sector, and
/// leaves the rest of the list as the free list. The entry of the sector that was taken is
/// free and without successor; nothing else is touched.
pub proof fn law_alloc_takes_the_head(d: Disk, f: Seq<u64>)
    requires
        disk_wf(d),
        free_list(d, f),
        f.len() >= 2,
    ensures
        m_alloc(d).1 == Ok::<u64, ErrorKind>(f[0]),
        same_but(d, m_alloc(d).0, set![f[0]]),
        disk_wf(m_alloc(d).0),
        m_meta(m_alloc(d).0, f[0]) == Ok::<Sector, ErrorKind>(blank_entry()),
        free_list(m_alloc(d).0, f.drop_first()),
{
    reveal(m_alloc);
    let root = m_root(d).unwrap();
    assert(m_meta(d, f[0]) is Ok);
    assert(m_meta(d, f[0]).unwrap().next == f[1]);
    assert(m_meta(d, f[1]) is Ok);
    lemma_meta_ok(d, f[1]);
    let d1 = m_set_root(d, RootView { free: f[1], ..root });
    lemma_set_free_same_but(d, f[1]);
    lemma_changed_meta(d, d1, Set::empty(), Set::empty(), f[0]);
    lemma_set_meta_same_but(d1, f[0], blank_entry());
    let d2 = m_set_meta(d1, f[0], blank_entry()).0;
    lemma_same_but_trans(d, d1, d2, Set::empty(), set![f[0]]);
    assert(Set::<u64>::empty().union(set![f[0]]) =~= set![f[0]]);
    lemma_linked_tail(d, f);
    let rest = f.drop_first();
    assert forall|i: int| 0 <= i < rest.len() implies !set![f[0]].contains(#[trigger] rest[i]) by {
        assert(rest.contains(rest[i]));
    }
    lemma_linked_kept(d, d2, set![f[0]], Set::empty(), rest);
    assert forall|i: int| 0 <= i < rest.len() implies m_meta(d2, #[trigger] rest[i]).unwrap().sector_type
        == SectorType::Free by {
        assert(rest[i] == f[i + 1]);
    }
    assert(rest[0] == f[1]);
}

/// A free list of one sector counts as exhausted: its last sector is never handed out.
pub proof fn law_alloc_keeps_the_last(d: Disk, f: Seq<u64>)
    requires
        disk_wf(d),
        free_list(d, f),
        f.len() == 1,
    ensures
        m_alloc(d) == (d, Err::<u64, ErrorKind>(ErrorKind::NotEnoughSpace)),
{
    reveal(m_alloc);
    assert(m_meta(d, f[0]) is Ok);
    assert(m_meta(d, f[0]).unwrap().next == 0);
}

/// Distinct numbers below a bound are at most as many as the bound.
pub proof fn lemma_distinct_below(s: Seq<u64>, bound: nat)
    requires
        s.no_duplicates(),
        forall|i: int| 0 <= i < s.len() ==> (#[trigger] s[i]) < bound,
    ensures
        s.len() <= bound,
    decreases bound,
{
    if bound == 0 {
        if s.len() > 0 {
            assert(s[0] < bound);
        }
    } else {
        let top = (bound - 1) as u64;
        if exists|k: int| 0 <= k < s.len() && s[k] == top {
            let k = choose|k: int| 0 <= k < s.len() && s[k] == top;
            let rest = s.remove(k);
            assert forall|i: int| 0 <= i < rest.len() implies (#[trigger] rest[i]) < bound - 1 by {
                if i < k {
                    assert(rest[i] == s[i]);
                    assert(s[i] != s[k]);
                } else {
                    assert(rest[i] == s[i + 1]);
                    assert(s[i + 1] != s[k]);
                }
            }
            assert forall|i: int, j: int|
                0 <= i < rest.len() && 0 <= j < rest.len() && i != j implies rest[i] != rest[j] by {
                let a = if i < k {
                    i
                } else {
                    i + 1
                };
                let b = if j < k {
                    j
                } else {
                    j + 1
                };
                assert(rest[i] == s[a]);
                assert(rest[j] == s[b]);
            }
            lemma_distinct_below(rest, (bound - 1) as nat);
        } else {
            assert forall|i: int| 0 <= i < s.len() implies (#[trigger] s[i]) < bound - 1 by {
                assert(s[i] < bound);
                assert(s[i] != top);
            }
            lemma_distinct_below(s, (bound - 1) as nat);
        }
    }
}

/// A chain has at most as many sectors as the volume.
pub proof fn lemma_linked_short(d: Disk, c: Seq<u64>)
    requires
        disk_wf(d),
        linked(d, c),
    ensures
        c.len() <= d.len(),
        forall|i: int| 0 <= i < c.len() ==> 2 <= #[trigger] c[i] < d.len(),
{
    assert forall|i: int| 0 <= i < c.len() implies 2 <= #[trigger] c[i] < d.len() by {
        assert(m_meta(d, c[i]) is Ok);
        lemma_meta_ok(d, c[i]);
    }
    lemma_distinct_below(c, d.len());
}

/// The table entry of a sector, marked free: its successor is kept.
pub open spec fn freed(entry: Sector) -> Sector {
    Sector { sector_type: SectorType::Free, size: 0, next: entry.next }
}

/// The sectors of a chain are its first sector and the sectors of the rest.
pub proof fn lemma_to_set_split(c: Seq<u64>)
    requires
        c.len() >= 1,
    ensures
        set![c[0]].union(c.drop_first().to_set()) == c.to_set(),
{
    let rest = c.drop_first();
    assert forall|x: u64| set![c[0]].union(rest.to_set()).contains(x) == c.to_set().contains(
        x,
    ) by {
        if c.to_set().contains(x) {
            let k = choose|k: int| 0 <= k < c.len() && c[k] == x;
            if k > 0 {
                assert(rest[k - 1] == x);
                assert(rest.contains(x));
            }
        }
        if rest.to_set().contains(x) {
            let k = choose|k: int| 0 <= k < rest.len() && rest[k] == x;
            assert(c[k + 1] == x);
            assert(c.contains(x));
        }
        if x == c[0] {
            assert(c.contains(x));
        }
    }
    assert(set![c[0]].union(rest.to_set()) =~= c.to_set());
}

/// Marking a chain free marks each of its sectors free, keeps their order, touches nothing
/// else, and ends at the last sector of the chain.
pub proof fn lemma_mark_free(d: Disk, c: Seq<u64>, fuel: nat)
    requires
        disk_wf(d),
        linked(d, c),
        fuel + 1 >= c.len(),
    ensures
        m_mark_free(d, c[0], fuel).1 == Ok::<u64, ErrorKind>(c.last()),
        same_but(d, m_mark_free(d, c[0], fuel).0, c.to_set()),
        disk_wf(m_mark_free(d, c[0], fuel).0),
        m_root(m_mark_free(d, c[0], fuel).0) == m_root(d),
        forall|i: int|
            0 <= i < c.len() ==> m_meta(m_mark_free(d, c[0], fuel).0, #[trigger] c[i]) == Ok::<
                Sector,
                ErrorKind,
            >(freed(m_meta(d, c[i]).unwrap())),
    decreases c.len(),
{
    reveal(m_mark_free);
    assert(m_meta(d, c[0]) is Ok);
    let entry = m_meta(d, c[0]).unwrap();
    lemma_set_meta_same_but(d, c[0], freed(entry));
    let d1 = m_set_meta(d, c[0], freed(entry)).0;
    if c.len() == 1 {
        assert(entry.next == 0);
        assert(c.to_set() =~= set![c[0]]);
    } else {
        let rest = c.drop_first();
        assert(entry.next == c[1]);
        assert(m_meta(d, c[1]) is Ok);
        lemma_meta_ok(d, c[1]);
        lemma_linked_tail(d, c);
        assert forall|i: int| 0 <= i < rest.len() implies !set![c[0]].contains(
            #[trigger] rest[i],
        ) by {
            assert(rest.contains(rest[i]));
        }
        lemma_linked_kept(d, d1, set![c[0]], Set::empty(), rest);
        lemma_mark_free(d1, rest, (fuel - 1) as nat);
        let d2 = m_mark_free(d1, rest[0], (fuel - 1) as nat).0;
        assert(rest[0] == c[1]);
        assert(m_mark_free(d, c[0], fuel) == m_mark_free(d1, c[1], (fuel - 1) as nat));
        lemma_same_but_trans(d, d1, d2, set![c[0]], rest.to_set());
        lemma_to_set_split(c);
        assert(rest.last() == c.last());
        assert forall|i: int| 0 <= i < c.len() implies m_meta(d2, #[trigger] c[i]) == Ok::<
            Sector,
            ErrorKind,
        >(freed(m_meta(d, c[i]).unwrap())) by {
            if i == 0 {
                assert(!rest.to_set().contains(c[0]));
                lemma_changed_meta(d1, d2, rest.to_set(), Set::empty(), c[0]);
            } else {
                assert(rest[i - 1] == c[i]);
                assert(m_meta(d1, rest[i - 1]) == m_meta(d, rest[i - 1]));
                assert(m_meta(d2, rest[i - 1]) == Ok::<Sector, ErrorKind>(
                    freed(m_meta(d1, rest[i - 1]).unwrap()),
                ));
            }
        }
    }
}

/// Whether two sequences of sectors share no sector.
pub open spec fn disjoint(a: Seq<u64>, b: Seq<u64>) -> bool {
    forall|i: int, j: int|
        #![trigger a[i], b[j]]
        0 <= i < a.len() && 0 <= j < b.len() ==> a[i] != b[j]
}

/// Sectors that share none with each other, and none twice, are together sectors of which
/// none occurs twice.
pub proof fn lemma_concat_distinct(a: Seq<u64>, b: Seq<u64>)
    requires
        a.no_duplicates(),
        b.no_duplicates(),
        disjoint(a, b),
    ensures
        (a + b).no_duplicates(),
{
    let all = a + b;
    assert forall|i: int, j: int| 0 <= i < all.len() && 0 <= j < all.len() && i != j implies all[i]
        != all[j] by {
        if i < a.len() && j < a.len() {
        } else if i >= a.len() && j >= a.len() {
            assert(all[i] == b[i - a.len()]);
            assert(all[j] == b[j - a.len()]);
        } else if i < a.len() {
            assert(all[j] == b[j - a.len()]);
        } else {
            assert(all[i] == b[i - a.len()]);
        }
    }
}

/// Giving back a chain that shares no sector with the free list puts the chain in front of
/// the free list: every sector of the chain is marked free, and nothing else is touched.
pub proof fn law_free_chain_prepends(d: Disk, c: Seq<u64>, f: Seq<u64>)
    requires
        disk_wf(d),
        free_list(d, f),
        linked(d, c),
        disjoint(c, f),
    ensures
        m_free_chain(d, c[0]).1 == Ok::<(), ErrorKind>(()),
        same_but(d, m_free_chain(d, c[0]).0, c.to_set()),
        disk_wf(m_free_chain(d, c[0]).0),
        free_list(m_free_chain(d, c[0]).0, c + f),
{
    reveal(m_free_chain);
    let root = m_root(d).unwrap();
    lemma_linked_short(d, c);
    lemma_mark_free(d, c, d.len());
    let d1 = m_mark_free(d, c[0], d.len()).0;
    let end = c.last();
    let last = Sector { sector_type: SectorType::Free, size: 0, next: root.free };
    assert(m_meta(d1, c[c.len() - 1]) is Ok);
    lemma_set_meta_same_but(d1, end, last);
    let d2 = m_set_meta(d1, end, last).0;
    lemma_set_free_same_but(d2, c[0]);
    let d3 = m_set_root(d2, RootView { free: c[0], ..root });
    assert(m_free_chain(d, c[0]) == (d3, Ok::<(), ErrorKind>(())));
    assert(c.contains(end));
    lemma_same_but_trans(d, d1, d2, c.to_set(), set![end]);
    assert(c.to_set().union(set![end]) =~= c.to_set());
    lemma_same_but_trans(d, d2, d3, c.to_set(), Set::empty());
    assert(c.to_set().union(Set::empty()) =~= c.to_set());
    let all = c + f;
    if f.len() > 0 {
        lemma_concat_distinct(c, f);
    } else {
        assert(all =~= c);
    }
    assert forall|i: int| 0 <= i < all.len() implies (m_meta(d3, #[trigger] all[i]) is Ok && m_meta(
        d3,
        all[i],
    ).unwrap().next == (if i + 1 < all.len() {
        all[i + 1]
    } else {
        0
    }) && m_meta(d3, all[i]).unwrap().sector_type == SectorType::Free) by {
        lemma_changed_meta(d2, d3, Set::empty(), Set::empty(), all[i]);
        if i < c.len() {
            assert(all[i] == c[i]);
            assert(m_meta(d1, c[i]) == Ok::<Sector, ErrorKind>(freed(m_meta(d, c[i]).unwrap())));
            if i + 1 < c.len() {
                assert(c[i] != end);
                lemma_changed_meta(d1, d2, set![end], Set::empty(), c[i]);
                assert(all[i + 1] == c[i + 1]);
            } else {
                assert(c[i] == end);
                if f.len() > 0 {
                    assert(all[i + 1] == f[0]);
                }
            }
        } else {
            let k = i - c.len();
            assert(all[i] == f[k]);
            assert(!c.to_set().contains(f[k])) by {
                if c.contains(f[k]) {
                    let m = choose|m: int| 0 <= m < c.len() && c[m] == f[k];
                    assert(c[m] != f[k]);
                }
            }
            lemma_changed_meta(d, d3, c.to_set(), Set::empty(), f[k]);
            if k + 1 < f.len() {
                assert(all[i + 1] == f[k + 1]);
            }
        }
    }
}

} // verus!
