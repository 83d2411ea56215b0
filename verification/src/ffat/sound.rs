use vstd::prelude::*;
use crate::error::ErrorKind;
use crate::ffat::chains::{
    changed, disjoint, free_list, lemma_changed_block, lemma_changed_meta, lemma_changed_shape, linked,
};
use crate::ffat::content::{content, lemma_content_same, payload_entries};
use crate::ffat::laws::law_format_gives_empty_root;
use crate::ffat::model::{
    chunk_count, data_entry, disk_wf, format_entry, m_format, m_meta, m_root, Disk, Entries,
};
use crate::ffat::payload::same_use;
use crate::ffat::content::lemma_read_dir_content;
use crate::ffat::structs::{table_sectors, Sector, SectorType};

verus! {

/// How the sectors of a volume are shared out: the free list, the chain of every file and
/// directory by its first sector, for every sector of the data region the first sector of
/// the chain that it belongs to (zero for the free list), and for every file and directory
/// but the root directory the directory that lists it, and how deep below the root it lies.
pub struct Layout {
    pub free: Seq<u64>,
    pub chains: Map<u64, Seq<u64>>,
    pub owner: Map<u64, u64>,
    pub parent: Map<u64, u64>,
    pub depth: Map<u64, nat>,
}

/// The table entry of a sector.
pub open spec fn entry_of(d: Disk, a: u64) -> Sector {
    m_meta(d, a).unwrap()
}

/// Whether `c` is the chain of the file or directory that begins at `h`: a chain from `h`
/// on, whose first sector says that it is a file or a directory and whose other sectors
/// are data sectors, with room for the size that the first sector gives. The chain of a
/// directory has just the sectors that its payload takes, and holds directory entries.
pub open spec fn chain_ok(d: Disk, h: u64, c: Seq<u64>) -> bool {
    &&& linked(d, c)
    &&& c[0] == h
    &&& (entry_of(d, h).sector_type == SectorType::File || entry_of(d, h).sector_type
        == SectorType::Dir)
    &&& forall|j: int| 1 <= j < c.len() ==> same_use(entry_of(d, #[trigger] c[j]), data_entry())
    &&& entry_of(d, h).size <= 4096 * c.len()
    &&& entry_of(d, h).sector_type == SectorType::Dir ==> c.len() == chunk_count(
        entry_of(d, h).size as nat,
    ) && payload_entries(d, c, entry_of(d, h).size) is Some
}

/// The entries of the directory that begins at `p`.
pub open spec fn entries_of(d: Disk, l: Layout, p: u64) -> Entries {
    payload_entries(d, l.chains[p], entry_of(d, p).size).unwrap()
}

/// Whether every chain of the layout is the chain of a file or directory of the volume.
#[verifier::opaque]
pub open spec fn chains_ok(d: Disk, l: Layout) -> bool {
    forall|h: u64| l.chains.contains_key(h) ==> chain_ok(d, h, #[trigger] l.chains[h])
}

/// Whether no sector belongs to two chains, or to a chain and to the free list.
#[verifier::opaque]
pub open spec fn separate(l: Layout) -> bool {
    &&& forall|h: u64| l.chains.contains_key(h) ==> disjoint(#[trigger] l.chains[h], l.free)
    &&& forall|h1: u64, h2: u64|
        l.chains.contains_key(h1) && l.chains.contains_key(h2) && h1 != h2 ==> disjoint(
            #[trigger] l.chains[h1],
            #[trigger] l.chains[h2],
        )
}

/// Whether every sector of the data region belongs to a chain or to the free list.
#[verifier::opaque]
pub open spec fn covered(d: Disk, l: Layout) -> bool {
    forall|a: u64|
        m_root(d).unwrap().root <= a < m_root(d).unwrap().sectors ==> #[trigger] l.owner.contains_key(a)
            && (if l.owner[a] == 0 {
            l.free.contains(a)
        } else {
            l.chains.contains_key(l.owner[a]) && l.chains[l.owner[a]].contains(a)
        })
}

/// Whether the layout says rightly where the sector `a` belongs.
pub open spec fn owned(l: Layout, a: u64) -> bool {
    l.owner.contains_key(a) && (if l.owner[a] == 0 {
        l.free.contains(a)
    } else {
        l.chains.contains_key(l.owner[a]) && l.chains[l.owner[a]].contains(a)
    })
}

/// Every sector of the data region belongs somewhere where the layout says rightly of each
/// where it belongs.
pub proof fn lemma_covered_intro(d: Disk, l: Layout)
    requires
        forall|a: u64|
            m_root(d).unwrap().root <= a < m_root(d).unwrap().sectors ==> #[trigger] owned(l, a),
    ensures
        covered(d, l),
{
    reveal(covered);
    assert forall|a: u64|
        m_root(d).unwrap().root <= a < m_root(d).unwrap().sectors implies #[trigger] l.owner.contains_key(
        a,
    ) && (if l.owner[a] == 0 {
        l.free.contains(a)
    } else {
        l.chains.contains_key(l.owner[a]) && l.chains[l.owner[a]].contains(a)
    }) by {
        assert(owned(l, a));
    }
}

/// Where every sector of the data region belongs somewhere, the layout says rightly of
/// each where it belongs.
pub proof fn lemma_covered_at(d: Disk, l: Layout, a: u64)
    requires
        covered(d, l),
        m_root(d).unwrap().root <= a < m_root(d).unwrap().sectors,
    ensures
        owned(l, a),
{
    reveal(covered);
    assert(l.owner.contains_key(a));
}

/// Whether an address is listed in directory entries.
pub open spec fn listed(entries: Entries, a: u64) -> bool {
    exists|i: int| 0 <= i < entries.len() && (#[trigger] entries[i]).0 == a
}

/// Whether no two entries have the same address, and no two the same name.
pub open spec fn distinct_entries(entries: Entries) -> bool {
    forall|i: int, j: int|
        0 <= i < entries.len() && 0 <= j < entries.len() && i != j ==> (#[trigger] entries[i]).0 != (
        #[trigger] entries[j]).0 && entries[i].1 != entries[j].1
}

/// Whether the files and directories form a tree below the root directory: the root
/// directory is a directory, every other file or directory is listed in its parent, which
/// is a directory one step nearer to the root, and every directory lists files and
/// directories of which it is the parent, none twice and none under two names.
#[verifier::opaque]
pub open spec fn tree_ok(d: Disk, l: Layout) -> bool {
    let top = m_root(d).unwrap().root;
    &&& l.chains.contains_key(top)
    &&& entry_of(d, top).sector_type == SectorType::Dir
    &&& l.depth.contains_key(top)
    &&& l.depth[top] == 0
    &&& forall|h: u64|
        #[trigger] l.chains.contains_key(h) && h != top ==> {
            &&& l.parent.contains_key(h)
            &&& l.chains.contains_key(l.parent[h])
            &&& entry_of(d, l.parent[h]).sector_type == SectorType::Dir
            &&& l.depth.contains_key(h)
            &&& l.depth.contains_key(l.parent[h])
            &&& l.depth[h] == l.depth[l.parent[h]] + 1
            &&& listed(entries_of(d, l, l.parent[h]), h)
        }
    &&& forall|p: u64, i: int|
        l.chains.contains_key(p) && entry_of(d, p).sector_type == SectorType::Dir && 0 <= i
            < entries_of(d, l, p).len() ==> {
            &&& l.chains.contains_key((#[trigger] entries_of(d, l, p)[i]).0)
            &&& entries_of(d, l, p)[i].0 != top
            &&& l.parent[entries_of(d, l, p)[i].0] == p
        }
    &&& forall|p: u64|
        #[trigger] l.chains.contains_key(p) && entry_of(d, p).sector_type == SectorType::Dir
            ==> distinct_entries(entries_of(d, l, p))
}

/// Whether the volume is sound with the layout `l`: the free list is the free list of the
/// layout, every sector of the data region belongs either to the free list or to the chain
/// of exactly one file or directory, every size fits its chain, and the files and
/// directories form a tree below the root directory.
pub open spec fn sound(d: Disk, l: Layout) -> bool {
    packed(d, l) && tree_ok(d, l)
}

/// Whether the sectors of the volume are shared out as the layout `l` says: the free list
/// is the free list of the layout, every chain of the layout is the chain of a file or
/// directory, and every sector of the data region belongs either to the free list or to
/// exactly one chain.
pub open spec fn packed(d: Disk, l: Layout) -> bool {
    &&& disk_wf(d)
    &&& m_root(d) is Ok
    &&& free_list(d, l.free)
    &&& chains_ok(d, l)
    &&& separate(l)
    &&& covered(d, l)
}

/// Whether a sector is none of the sectors of a set of sectors.
pub open spec fn outside(c: Seq<u64>, s: Set<u64>) -> bool {
    forall|j: int| 0 <= j < c.len() ==> !s.contains(#[trigger] c[j])
}

/// The chain of a file or directory stays what it is where none of its sectors is changed,
/// and so do the entries that it holds.
pub proof fn lemma_chain_kept(
    d: Disk,
    e: Disk,
    metas: Set<u64>,
    blocks: Set<u64>,
    h: u64,
    c: Seq<u64>,
)
    requires
        changed(d, e, metas, blocks),
        chain_ok(d, h, c),
        outside(c, metas),
        outside(c, blocks),
    ensures
        chain_ok(e, h, c),
        entry_of(e, h) == entry_of(d, h),
        payload_entries(e, c, entry_of(e, h).size) == payload_entries(d, c, entry_of(d, h).size),
{
    lemma_changed_shape(d, e, metas, blocks);
    assert forall|j: int| 0 <= j < c.len() implies m_meta(e, #[trigger] c[j]) == m_meta(d, c[j]) by {
        lemma_changed_meta(d, e, metas, blocks, c[j]);
    }
    assert(m_meta(e, c[0]) == m_meta(d, c[0]));
    let n = chunk_count(entry_of(d, h).size as nat) as int;
    assert(n <= c.len());
    assert forall|j: int| 0 <= j < n implies e[#[trigger] c[j] as int] == d[c[j] as int] by {
        assert(m_meta(d, c[j]) is Ok);
        lemma_changed_block(d, e, metas, blocks, c[j]);
    }
    lemma_content_same(d, e, c, 0, n);
    assert forall|j: int| 1 <= j < c.len() implies same_use(
        entry_of(e, #[trigger] c[j]),
        data_entry(),
    ) by {
        assert(same_use(entry_of(d, c[j]), data_entry()));
    }
}

/// The layout of a freshly formatted volume of `sectors` sectors: the root directory in
/// the first sector behind the table, and every sector behind it on the free list, in the
/// order of their addresses.
pub open spec fn fresh_layout(sectors: nat) -> Layout {
    let home = (table_sectors(sectors) + 1) as u64;
    Layout {
        free: Seq::new((sectors - home - 1) as nat, |i: int| (home + 1 + i) as u64),
        chains: Map::empty().insert(home, seq![home]),
        owner: Map::new(
            |a: u64| home <= a < sectors,
            |a: u64|
                if a == home {
                    home
                } else {
                    0
                },
        ),
        parent: Map::empty(),
        depth: Map::empty().insert(home, 0nat),
    }
}

/// The free list of a freshly formatted volume holds every sector behind the root
/// directory, and the root directory is a directory of one sector without entries.
proof fn lemma_format_lists(d: Disk)
    requires
        disk_wf(d),
        8 <= d.len() <= 0x7fff_ffff_ffff_ffff,
    ensures
        m_format(d).1 is Ok,
        disk_wf(m_format(d).0),
        m_root(m_format(d).0) is Ok,
        m_root(m_format(d).0).unwrap().root == table_sectors(d.len()) + 1,
        m_root(m_format(d).0).unwrap().sectors == d.len(),
        free_list(m_format(d).0, fresh_layout(d.len()).free),
        chain_ok(
            m_format(d).0,
            (table_sectors(d.len()) + 1) as u64,
            seq![(table_sectors(d.len()) + 1) as u64],
        ),
        payload_entries(m_format(d).0, seq![(table_sectors(d.len()) + 1) as u64], 8) == Some(
            Seq::<(u64, Seq<u8>)>::empty(),
        ),
        entry_of(m_format(d).0, (table_sectors(d.len()) + 1) as u64) == (Sector {
            sector_type: SectorType::Dir,
            size: 8,
            next: 0,
        }),
{
    law_format_gives_empty_root(d);
    let e = m_format(d).0;
    let l = fresh_layout(d.len());
    let home = (table_sectors(d.len()) + 1) as u64;
    let f = l.free;
    let c = seq![home];
    assert(f.len() >= 1);
    assert forall|i: int| 0 <= i < f.len() implies (m_meta(e, #[trigger] f[i]) is Ok && m_meta(
        e,
        f[i],
    ).unwrap().next == (if i + 1 < f.len() {
        f[i + 1]
    } else {
        0
    }) && m_meta(e, f[i]).unwrap().sector_type == SectorType::Free) by {
        let a = f[i];
        assert(m_meta(e, a) == Ok::<Sector, ErrorKind>(format_entry(d.len(), a as nat)));
    }
    assert(c[0] == home);
    assert(linked(e, c));
    lemma_read_dir_content(e, c);
}

/// A freshly formatted volume is sound: its root directory takes one sector, and every
/// other sector of the data region is on the free list.
pub proof fn law_format_sound(d: Disk)
    requires
        disk_wf(d),
        8 <= d.len() <= 0x7fff_ffff_ffff_ffff,
    ensures
        m_format(d).1 is Ok,
        sound(m_format(d).0, fresh_layout(d.len())),
{
    lemma_format_lists(d);
    let e = m_format(d).0;
    let l = fresh_layout(d.len());
    let home = (table_sectors(d.len()) + 1) as u64;
    let f = l.free;
    let c = seq![home];
    assert(chains_ok(e, l)) by {
        reveal(chains_ok);
    }
    assert(separate(l)) by {
        reveal(separate);
        assert forall|h: u64| l.chains.contains_key(h) implies disjoint(
            #[trigger] l.chains[h],
            l.free,
        ) by {
            assert(h == home);
        }
    }
    assert forall|a: u64|
        m_root(e).unwrap().root <= a < m_root(e).unwrap().sectors implies #[trigger] owned(l, a) by {
        if a == home {
            assert(c[0] == home);
        } else {
            assert(f[a - home - 1] == a);
        }
    }
    lemma_covered_intro(e, l);
    assert(tree_ok(e, l)) by {
        reveal(tree_ok);
        assert(entries_of(e, l, home) =~= Seq::<(u64, Seq<u8>)>::empty());
    }
}

} // verus!
