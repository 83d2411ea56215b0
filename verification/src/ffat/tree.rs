use vstd::prelude::*;
use crate::error::ErrorKind;
use crate::ffat::chains::{disjoint, linked};
use crate::ffat::content::lemma_read_dir_content;
use crate::ffat::dir::{lemma_position, names_of, position};
use crate::ffat::laws::lemma_walk_push;
use crate::ffat::model::{
    m_exists, m_lookup, m_meta, m_read_dir, m_read_dir_at, m_root, m_walk, m_walk_from, Disk, Entries,
};
use crate::ffat::payload::tidy;
use crate::ffat::sound::{
    chain_ok, chains_ok, covered, distinct_entries, entries_of, entry_of, listed, separate, sound,
    tree_ok, Layout,
};
use crate::ffat::structs::SectorType;

verus! {

/// On a sound volume the chain of every file and directory is a chain beside the free list.
pub proof fn lemma_sound_chain(d: Disk, l: Layout, h: u64)
    requires
        sound(d, l),
        l.chains.contains_key(h),
    ensures
        chain_ok(d, h, l.chains[h]),
        tidy(d, l.chains[h], l.free),
        m_meta(d, h) is Ok,
{
    reveal(chains_ok);
    reveal(separate);
    reveal(tidy);
    assert(m_meta(d, l.chains[h][0]) is Ok);
}

/// On a sound volume a directory is read as the entries that its chain holds.
pub proof fn lemma_sound_dir(d: Disk, l: Layout, p: u64)
    requires
        sound(d, l),
        l.chains.contains_key(p),
        entry_of(d, p).sector_type == SectorType::Dir,
    ensures
        m_read_dir_at(d, p) == Ok::<Entries, ErrorKind>(entries_of(d, l, p)),
{
    lemma_sound_chain(d, l, p);
    lemma_read_dir_content(d, l.chains[p]);
}

/// On a sound volume what is not a directory cannot be read as one.
pub proof fn lemma_sound_not_dir(d: Disk, l: Layout, h: u64)
    requires
        sound(d, l),
        l.chains.contains_key(h),
        entry_of(d, h).sector_type != SectorType::Dir,
    ensures
        m_read_dir_at(d, h) is Err,
{
    reveal(m_read_dir_at);
    lemma_sound_chain(d, l, h);
}

/// On a sound volume every entry of a directory leads to a file or directory, and the
/// entry that a name is looked up as is an entry of the directory.
pub proof fn lemma_sound_lookup(d: Disk, l: Layout, p: u64, name: Seq<u8>)
    requires
        sound(d, l),
        l.chains.contains_key(p),
        entry_of(d, p).sector_type == SectorType::Dir,
        m_lookup(entries_of(d, l, p), name) is Some,
    ensures
        l.chains.contains_key(m_lookup(entries_of(d, l, p), name).unwrap()),
        l.parent[m_lookup(entries_of(d, l, p), name).unwrap()] == p,
        m_lookup(entries_of(d, l, p), name).unwrap() != m_root(d).unwrap().root,
{
    reveal(tree_ok);
    let entries = entries_of(d, l, p);
    lemma_position(entries, name);
    let i = position(entries, name).unwrap();
    assert(l.chains.contains_key(entries_of(d, l, p)[i].0));
}

/// On a sound volume a path that is followed from a file or directory leads to a file or
/// directory.
pub proof fn lemma_walk_from_sound(d: Disk, l: Layout, from: u64, names: Seq<Seq<u8>>)
    requires
        sound(d, l),
        l.chains.contains_key(from),
        m_walk_from(d, from, names) is Ok,
    ensures
        l.chains.contains_key(m_walk_from(d, from, names).unwrap()),
    decreases names.len(),
{
    reveal(m_walk_from);
    if names.len() > 0 {
        if entry_of(d, from).sector_type == SectorType::Dir {
            lemma_sound_dir(d, l, from);
            lemma_sound_lookup(d, l, from, names[0]);
            let next = m_lookup(entries_of(d, l, from), names[0]).unwrap();
            lemma_walk_from_sound(d, l, next, names.drop_first());
        } else {
            lemma_sound_not_dir(d, l, from);
        }
    }
}

/// On a sound volume every path that leads somewhere leads to a file or directory.
pub proof fn lemma_walk_sound(d: Disk, l: Layout, path: Seq<Seq<u8>>)
    requires
        sound(d, l),
        m_walk(d, path) is Ok,
    ensures
        l.chains.contains_key(m_walk(d, path).unwrap()),
        m_meta(d, m_walk(d, path).unwrap()) is Ok,
        entry_of(d, m_walk(d, path).unwrap()).sector_type == SectorType::File || entry_of(
            d,
            m_walk(d, path).unwrap(),
        ).sector_type == SectorType::Dir,
{
    reveal(m_walk);
    assert(l.chains.contains_key(m_root(d).unwrap().root)) by {
        reveal(tree_ok);
    }
    lemma_walk_from_sound(d, l, m_root(d).unwrap().root, path);
    lemma_sound_chain(d, l, m_walk(d, path).unwrap());
}

/// On a sound volume every name that a directory lists names a file or a directory.
pub proof fn law_listed_names_exist(d: Disk, l: Layout, parent: Seq<Seq<u8>>, i: int)
    requires
        sound(d, l),
        m_read_dir(d, parent) is Ok,
        0 <= i < m_read_dir(d, parent).unwrap().len(),
    ensures
        m_exists(d, parent.push(m_read_dir(d, parent).unwrap()[i]), SectorType::File) == Ok::<
            bool,
            ErrorKind,
        >(true) || m_exists(d, parent.push(m_read_dir(d, parent).unwrap()[i]), SectorType::Dir)
            == Ok::<bool, ErrorKind>(true),
{
    reveal(m_read_dir);
    reveal(m_exists);
    reveal(m_walk);
    let top = m_root(d).unwrap().root;
    let p = m_walk(d, parent).unwrap();
    lemma_walk_sound(d, l, parent);
    let entries = m_read_dir_at(d, p).unwrap();
    if entry_of(d, p).sector_type == SectorType::Dir {
        lemma_sound_dir(d, l, p);
    } else {
        lemma_sound_not_dir(d, l, p);
    }
    let name = names_of(entries)[i];
    assert(name == entries[i].1);
    lemma_position(entries, name);
    assert(position(entries, name) is Some);
    lemma_walk_push(d, top, parent, name);
    lemma_sound_lookup(d, l, p, name);
    let child = m_lookup(entries, name).unwrap();
    assert(m_walk(d, parent.push(name)) == Ok::<u64, ErrorKind>(child));
    lemma_walk_sound(d, l, parent.push(name));
}

/// On a sound volume every sector of the data region is either on the free list or in the
/// chain of exactly one file or directory, and not both.
pub proof fn law_partition(d: Disk, l: Layout, a: u64)
    requires
        sound(d, l),
        m_root(d).unwrap().root <= a < m_root(d).unwrap().sectors,
    ensures
        l.free.contains(a) != (exists|h: u64|
            l.chains.contains_key(h) && (#[trigger] l.chains[h]).contains(a)),
        forall|h1: u64, h2: u64|
            l.chains.contains_key(h1) && l.chains.contains_key(h2) && l.chains[h1].contains(a)
                && l.chains[h2].contains(a) ==> h1 == h2,
{
    reveal(covered);
    reveal(separate);
    assert(l.owner.contains_key(a));
    if l.owner[a] != 0 {
        assert(l.chains.contains_key(l.owner[a]) && l.chains[l.owner[a]].contains(a));
    }
    assert forall|h: u64| l.chains.contains_key(h) && (#[trigger] l.chains[h]).contains(
        a,
    ) implies !l.free.contains(a) by {
        if l.free.contains(a) {
            let i = choose|i: int| 0 <= i < l.chains[h].len() && l.chains[h][i] == a;
            let j = choose|j: int| 0 <= j < l.free.len() && l.free[j] == a;
            assert(disjoint(l.chains[h], l.free));
            assert(l.chains[h][i] != l.free[j]);
        }
    }
    assert forall|h1: u64, h2: u64|
        l.chains.contains_key(h1) && l.chains.contains_key(h2) && l.chains[h1].contains(a)
            && l.chains[h2].contains(a) implies h1 == h2 by {
        if h1 != h2 {
            let i = choose|i: int| 0 <= i < l.chains[h1].len() && l.chains[h1][i] == a;
            let j = choose|j: int| 0 <= j < l.chains[h2].len() && l.chains[h2][j] == a;
            assert(disjoint(l.chains[h1], l.chains[h2]));
            assert(l.chains[h1][i] != l.chains[h2][j]);
        }
    }
}

/// On a sound volume the size of every file and directory fits its chain: it is at most
/// 4096 bytes for each sector.
pub proof fn law_size_fits(d: Disk, l: Layout, h: u64)
    requires
        sound(d, l),
        l.chains.contains_key(h),
    ensures
        entry_of(d, h).size <= 4096 * l.chains[h].len(),
        linked(d, l.chains[h]),
        l.chains[h][0] == h,
{
    lemma_sound_chain(d, l, h);
}

/// On a sound volume every file and directory can be reached from the root directory: some
/// path leads to it.
pub proof fn law_reachable(d: Disk, l: Layout, h: u64) -> (path: Seq<Seq<u8>>)
    requires
        sound(d, l),
        l.chains.contains_key(h),
        l.depth.contains_key(h),
    ensures
        m_walk(d, path) == Ok::<u64, ErrorKind>(h),
    decreases l.depth[h],
{
    reveal(m_walk);
    reveal(m_walk_from);
    let top = m_root(d).unwrap().root;
    if h == top {
        Seq::empty()
    } else {
        reveal(tree_ok);
        let p = l.parent[h];
        assert(l.chains.contains_key(h) && h != top);
        let up = law_reachable(d, l, p);
        let entries = entries_of(d, l, p);
        assert(listed(entries, h));
        let i = choose|i: int| 0 <= i < entries.len() && (#[trigger] entries[i]).0 == h;
        let name = entries[i].1;
        lemma_sound_dir(d, l, p);
        lemma_position(entries, name);
        assert(l.chains.contains_key(p));
        assert(distinct_entries(entries));
        let k = position(entries, name).unwrap();
        assert(k == i) by {
            if k != i {
                assert(entries[k].1 != entries[i].1);
            }
        }
        lemma_walk_push(d, top, up, name);
        up.push(name)
    }
}

} // verus!
