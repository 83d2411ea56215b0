use vstd::prelude::*;
use crate::error::ErrorKind;
use crate::ffat::chains::{
    law_alloc_takes_the_head, lemma_changed_shape, lemma_free_list_kept, lemma_same_but_trans, lemma_set_meta_same_but, linked,
};
use crate::ffat::content::payload_entries;
use crate::ffat::dir::{encodable, position, spec_encode_dir};
use crate::ffat::dirwrite::{dir_written, lemma_write_dir};
use crate::ffat::loose::{
    adopted_loose, detached, lemma_adopt_loose, lemma_detach, lemma_other_kept_but,
    lemma_regroup_but, packed_but,
};
use crate::ffat::members::{fitted, lemma_fitted_from, lemma_in_take, lemma_members_kept, spared};
use crate::ffat::model::{
    chunk, chunk_count, data_entry, disk_wf, empty_dir_payload, m_alloc, m_create, m_create_dir, m_create_file, m_meta, m_root, m_set_meta, m_walk, m_write_dir_at, Disk, Entries,
};
use crate::ffat::packing::{regrouped, within};
use crate::ffat::payload::{lacking, lemma_tidy_bounds, same_use, tidy};
use crate::ffat::scarce::{lemma_alloc_fails, lemma_write_dir_fails};
use crate::ffat::sound::{
    chain_ok, chains_ok, entries_of, entry_of, packed, separate, sound, tree_ok, Layout,
};
use crate::ffat::structs::{Sector, SectorType};
use crate::ffat::tree::{lemma_sound_dir, lemma_sound_not_dir, lemma_walk_sound};
use crate::ffat::tree_edit::{lemma_tree_add, same_but_at};

verus! {

/// What creating a file or directory does, step by step, where it succeeds on a sound
/// volume: the parent is a directory that does not list the name, the first sector of the
/// free list is taken and gets the given table entry, and the parent is written with one
/// entry more.
pub open spec fn create_parts(d: Disk, l: Layout, path: Seq<Seq<u8>>, meta: Sector) -> bool {
    let p = m_walk(d, path.drop_last()).unwrap();
    let fresh = l.free[0];
    let d2 = m_set_meta(m_alloc(d).0, fresh, meta).0;
    let longer = entries_of(d, l, p).push((fresh, path.last()));
    &&& path.len() > 0
    &&& m_walk(d, path.drop_last()) is Ok
    &&& l.chains.contains_key(p)
    &&& l.depth.contains_key(p)
    &&& entry_of(d, p).sector_type == SectorType::Dir
    &&& position(entries_of(d, l, p), path.last()) is None
    &&& l.free.len() >= 2
    &&& m_alloc(d).1 == Ok::<u64, ErrorKind>(fresh)
    &&& m_write_dir_at(d2, p, longer).1 is Ok
    &&& m_create(d, path, meta) == (m_write_dir_at(d2, p, longer).0, Ok::<u64, ErrorKind>(fresh))
}

/// Creating, where it succeeds on a sound volume, goes through its steps.
pub proof fn lemma_create_parts(d: Disk, l: Layout, path: Seq<Seq<u8>>, meta: Sector)
    requires
        sound(d, l),
        m_create(d, path, meta).1 is Ok,
    ensures
        create_parts(d, l, path, meta),
{
    reveal(m_create);
    let p = m_walk(d, path.drop_last()).unwrap();
    lemma_walk_sound(d, l, path.drop_last());
    if entry_of(d, p).sector_type == SectorType::Dir {
        lemma_sound_dir(d, l, p);
    } else {
        lemma_sound_not_dir(d, l, p);
    }
    if l.free.len() <= 1 {
        lemma_alloc_fails(d, l.free);
    }
    law_alloc_takes_the_head(d, l.free);
    assert(l.depth.contains_key(p)) by {
        reveal(tree_ok);
        assert(l.chains.contains_key(p));
    }
}

/// After the first sector of the free list was taken and got its table entry, the volume
/// is packed but for that sector.
pub proof fn lemma_create_detach(d: Disk, l: Layout, meta: Sector)
    requires
        packed(d, l),
        l.free.len() >= 2,
    ensures
        packed_but(m_set_meta(m_alloc(d).0, l.free[0], meta).0, detached(l), l.free[0]),
        m_meta(m_set_meta(m_alloc(d).0, l.free[0], meta).0, l.free[0]) == Ok::<Sector, ErrorKind>(
            meta,
        ),
        m_root(m_set_meta(m_alloc(d).0, l.free[0], meta).0).unwrap().root
            == m_root(d).unwrap().root,
        !l.chains.contains_key(l.free[0]),
        forall|h: u64|
            l.chains.contains_key(h) ==> entry_of(
                m_set_meta(m_alloc(d).0, l.free[0], meta).0,
                h,
            ) == entry_of(d, h) && payload_entries(
                m_set_meta(m_alloc(d).0, l.free[0], meta).0,
                #[trigger] l.chains[h],
                entry_of(m_set_meta(m_alloc(d).0, l.free[0], meta).0, h).size,
            ) == payload_entries(d, l.chains[h], entry_of(d, h).size),
{
    let fresh = l.free[0];
    let rest = l.free.drop_first();
    law_alloc_takes_the_head(d, l.free);
    let d1 = m_alloc(d).0;
    lemma_set_meta_same_but(d1, fresh, meta);
    let d2 = m_set_meta(d1, fresh, meta).0;
    lemma_same_but_trans(d, d1, d2, set![fresh], set![fresh]);
    assert(set![fresh].union(set![fresh]) =~= set![fresh]);
    assert(l.free.no_duplicates()) by {
        assert(linked(d, l.free));
    }
    assert forall|i: int| 0 <= i < rest.len() implies !set![fresh].contains(#[trigger] rest[i]) by {
        assert(rest[i] == l.free[i + 1]);
    }
    lemma_free_list_kept(d1, d2, set![fresh], Set::empty(), rest);
    lemma_changed_shape(d, d2, set![fresh], Set::empty());
    lemma_detach(d, l, d2, fresh);
}

/// A volume that is packed but for one sector has the chain of every file and directory
/// beside the free list.
pub proof fn lemma_packed_but_chain(d: Disk, l: Layout, x: u64, h: u64)
    requires
        packed_but(d, l, x),
        l.chains.contains_key(h),
    ensures
        chain_ok(d, h, l.chains[h]),
        tidy(d, l.chains[h], l.free),
{
    reveal(packed_but);
    reveal(chains_ok);
    reveal(separate);
    reveal(tidy);
}

/// The number of sectors that the parent takes after an entry for `name` was added.
pub open spec fn grown_count(d: Disk, l: Layout, p: u64, name: Seq<u8>) -> int {
    chunk_count(spec_encode_dir(entries_of(d, l, p).push((l.free[0], name))).len()) as int
}

/// The layout after the parent at `p` was written with one entry more, and the first
/// sector of the free list has left the free list.
pub open spec fn grown(d: Disk, l: Layout, p: u64, name: Seq<u8>) -> Layout {
    let n = grown_count(d, l, p, name);
    regrouped(
        detached(l),
        p,
        fitted(l.chains[p], l.free.drop_first(), n),
        spared(l.chains[p], l.free.drop_first(), n),
    )
}

/// What the volume is after the parent was written with one entry more: packed but for the
/// new sector, which has its table entry and its old contents, with the parent listing the
/// new entry behind the old ones, and everything else as before.
pub open spec fn create_written(d: Disk, l: Layout, path: Seq<Seq<u8>>, meta: Sector, d3: Disk) -> bool {
    let p = m_walk(d, path.drop_last()).unwrap();
    let fresh = l.free[0];
    let l3 = grown(d, l, p, path.last());
    &&& packed_but(d3, l3, fresh)
    &&& m_meta(d3, fresh) == Ok::<Sector, ErrorKind>(meta)
    &&& m_root(d3).unwrap().root == m_root(d).unwrap().root
    &&& entry_of(d3, p).sector_type == SectorType::Dir
    &&& payload_entries(d3, l3.chains[p], entry_of(d3, p).size) == Some(
        entries_of(d, l, p).push((fresh, path.last())),
    )
    &&& forall|h: u64|
        l.chains.contains_key(h) && h != p ==> entry_of(d3, h) == entry_of(d, h)
            && payload_entries(d3, #[trigger] l.chains[h], entry_of(d3, h).size)
            == payload_entries(d, l.chains[h], entry_of(d, h).size)
}

/// Whether the parent could be written with one entry more: the entries can be written, and
/// the free list has more sectors than the chain of the parent lacks.
pub open spec fn create_room(d: Disk, l: Layout, path: Seq<Seq<u8>>) -> bool {
    let p = m_walk(d, path.drop_last()).unwrap();
    let longer = entries_of(d, l, p).push((l.free[0], path.last()));
    let n = chunk_count(spec_encode_dir(longer).len());
    &&& encodable(longer)
    &&& spec_encode_dir(longer).len() <= u64::MAX
    &&& (lacking(l.chains[p].len(), n) == 0 || lacking(l.chains[p].len(), n)
        < l.free.drop_first().len())
}

/// Where creating succeeded, the parent could be written with one entry more.
pub proof fn lemma_create_room(d: Disk, l: Layout, path: Seq<Seq<u8>>, meta: Sector)
    requires
        sound(d, l),
        create_parts(d, l, path, meta),
    ensures
        create_room(d, l, path),
        dir_written(
            m_set_meta(m_alloc(d).0, l.free[0], meta).0,
            l.chains[m_walk(d, path.drop_last()).unwrap()],
            l.free.drop_first(),
            entries_of(d, l, m_walk(d, path.drop_last()).unwrap()).push(
                (l.free[0], path.last()),
            ),
            m_create(d, path, meta).0,
        ),
{
    let p = m_walk(d, path.drop_last()).unwrap();
    let fresh = l.free[0];
    let d2 = m_set_meta(m_alloc(d).0, fresh, meta).0;
    let longer = entries_of(d, l, p).push((fresh, path.last()));
    let c = l.chains[p];
    let f = l.free.drop_first();
    lemma_create_detach(d, l, meta);
    lemma_packed_but_chain(d2, detached(l), fresh, p);
    let n = chunk_count(spec_encode_dir(longer).len());
    assert(encodable(longer) && spec_encode_dir(longer).len() <= u64::MAX) by {
        reveal(m_write_dir_at);
    }
    if lacking(c.len(), n) > 0 && lacking(c.len(), n) >= f.len() {
        lemma_write_dir_fails(d2, c, f, longer);
    }
    assert(c[0] == p);
    lemma_write_dir(d2, c, f, longer);
}

/// On a volume that is packed but for one sector, writing the entries of a directory
/// leaves the volume packed but for that sector, with the directory fitted to its entries
/// and everything else as before.
pub proof fn lemma_dir_written_but(
    d2: Disk,
    base: Layout,
    fresh: u64,
    p: u64,
    longer: Entries,
    d3: Disk,
)
    requires
        packed_but(d2, base, fresh),
        base.chains.contains_key(p),
        entry_of(d2, p).sector_type == SectorType::Dir,
        dir_written(d2, base.chains[p], base.free, longer, d3),
        lacking(base.chains[p].len(), chunk_count(spec_encode_dir(longer).len()))
            <= base.free.len(),
    ensures
        packed_but(
            d3,
            regrouped(
                base,
                p,
                fitted(base.chains[p], base.free, chunk_count(spec_encode_dir(longer).len()) as int),
                spared(base.chains[p], base.free, chunk_count(spec_encode_dir(longer).len()) as int),
            ),
            fresh,
        ),
        m_meta(d3, fresh) == m_meta(d2, fresh),
        d3[fresh as int] == d2[fresh as int],
        m_root(d3).unwrap().root == m_root(d2).unwrap().root,
        entry_of(d3, p).sector_type == SectorType::Dir,
        payload_entries(
            d3,
            fitted(base.chains[p], base.free, chunk_count(spec_encode_dir(longer).len()) as int),
            entry_of(d3, p).size,
        ) == Some(longer),
        forall|h: u64|
            base.chains.contains_key(h) && h != p ==> entry_of(d3, h) == entry_of(d2, h)
                && payload_entries(d3, #[trigger] base.chains[h], entry_of(d3, h).size)
                == payload_entries(d2, base.chains[h], entry_of(d2, h).size),
{
    let c = base.chains[p];
    let f = base.free;
    let n = chunk_count(spec_encode_dir(longer).len()) as int;
    let k = lacking(c.len(), n as nat) as int;
    let c3 = fitted(c, f, n);
    let f3 = spared(c, f, n);
    let metas = c.to_set().union(f.take(k).to_set());
    let blocks = c3.to_set();
    lemma_packed_but_chain(d2, base, fresh, p);
    lemma_tidy_bounds(d2, c, f);
    assert(n >= 1) by {
        crate::ffat::layout::lemma_le_roundtrip();
    }
    lemma_fitted_within(c, f, n);
    assert(c[0] == p);
    crate::ffat::dirwrite::lemma_dir_written_facts(d2, c, f, longer, d3);
    lemma_written_chain(d2, c, f, longer, d3);
    lemma_regroup_but(d2, base, fresh, d3, metas, blocks, p, c3, f3);
    lemma_changed_shape(d2, d3, metas, blocks);
    assert forall|h: u64| base.chains.contains_key(h) && h != p implies entry_of(d3, h)
        == entry_of(d2, h) && payload_entries(d3, #[trigger] base.chains[h], entry_of(d3, h).size)
        == payload_entries(d2, base.chains[h], entry_of(d2, h).size) by {
        lemma_other_kept_but(d2, base, fresh, d3, metas, blocks, p, h);
    }
}

/// After the parent was written with one entry more, the volume is packed but for the new
/// sector, and everything but the parent is as before.
pub proof fn lemma_create_written(d: Disk, l: Layout, path: Seq<Seq<u8>>, meta: Sector)
    requires
        sound(d, l),
        create_parts(d, l, path, meta),
    ensures
        create_written(d, l, path, meta, m_create(d, path, meta).0),
{
    let p = m_walk(d, path.drop_last()).unwrap();
    let fresh = l.free[0];
    let d2 = m_set_meta(m_alloc(d).0, fresh, meta).0;
    let longer = entries_of(d, l, p).push((fresh, path.last()));
    let base = detached(l);
    let d3 = m_create(d, path, meta).0;
    lemma_create_detach(d, l, meta);
    lemma_create_room(d, l, path, meta);
    assert(base.chains[p] == l.chains[p]);
    assert(entry_of(d2, p) == entry_of(d, p)) by {
        assert(l.chains[p] == l.chains[p]);
    }
    lemma_dir_written_but(d2, base, fresh, p, longer, d3);
    let n = chunk_count(spec_encode_dir(longer).len()) as int;
    let l3 = regrouped(
        base,
        p,
        fitted(base.chains[p], base.free, n),
        spared(base.chains[p], base.free, n),
    );
    assert(n == grown_count(d, l, p, path.last()));
    assert(grown(d, l, p, path.last()) == l3);
    assert(packed_but(d3, l3, fresh));
    assert(l3.chains[p] == fitted(base.chains[p], base.free, n));
    assert forall|h: u64| l.chains.contains_key(h) && h != p implies entry_of(d3, h) == entry_of(
        d,
        h,
    ) && payload_entries(d3, #[trigger] l.chains[h], entry_of(d3, h).size) == payload_entries(
        d,
        l.chains[h],
        entry_of(d, h).size,
    ) by {
        assert(base.chains[h] == l.chains[h]);
    }
}

/// What fitting a chain touches lies within the chain and the free list, and the fitted
/// chain and the free list that is left hold what the two held before.
pub proof fn lemma_fitted_within(c: Seq<u64>, f: Seq<u64>, n: int)
    requires
        1 <= n,
        c.len() >= 1,
        lacking(c.len(), n as nat) <= f.len(),
    ensures
        within(c.to_set().union(f.take(lacking(c.len(), n as nat) as int).to_set()), c, f),
        within(fitted(c, f, n).to_set(), c, f),
        forall|x: u64|
            (fitted(c, f, n).contains(x) || spared(c, f, n).contains(x)) == (c.contains(x)
                || f.contains(x)),
{
    let k = lacking(c.len(), n as nat) as int;
    let metas = c.to_set().union(f.take(k).to_set());
    assert forall|x: u64| #[trigger] metas.contains(x) implies c.contains(x) || f.contains(x) by {
        if f.take(k).to_set().contains(x) {
            lemma_in_take(f, k, x);
        }
    }
    assert forall|x: u64| #[trigger] fitted(c, f, n).to_set().contains(x) implies c.contains(x)
        || f.contains(x) by {
        lemma_fitted_from(c, f, n, x);
    }
    assert forall|x: u64| (fitted(c, f, n).contains(x) || spared(c, f, n).contains(x)) == (
    c.contains(x) || f.contains(x)) by {
        lemma_members_kept(c, f, n, x);
    }
}

/// The chain into which the entries of a directory were written is the chain of a
/// directory.
pub proof fn lemma_written_chain(d: Disk, c: Seq<u64>, f: Seq<u64>, entries: Entries, d3: Disk)
    requires
        chain_ok(d, c[0], c),
        entry_of(d, c[0]).sector_type == SectorType::Dir,
        dir_written(d, c, f, entries, d3),
        lacking(c.len(), chunk_count(spec_encode_dir(entries).len())) <= f.len(),
    ensures
        chain_ok(
            d3,
            c[0],
            fitted(c, f, chunk_count(spec_encode_dir(entries).len()) as int),
        ),
        entry_of(d3, c[0]).sector_type == SectorType::Dir,
        payload_entries(
            d3,
            fitted(c, f, chunk_count(spec_encode_dir(entries).len()) as int),
            entry_of(d3, c[0]).size,
        ) == Some(entries),
{
    reveal(dir_written);
    let bytes = spec_encode_dir(entries);
    let n = chunk_count(bytes.len()) as int;
    let c3 = fitted(c, f, n);
    assert(linked(d3, c3)) by {
        reveal(tidy);
    }
    assert(bytes.len() <= 4096 * n);
    assert forall|j: int| 1 <= j < c3.len() implies same_use(
        entry_of(d3, #[trigger] c3[j]),
        data_entry(),
    ) by {
        if j < c.len() {
            assert(c3[j] == c[j]);
            assert(same_use(entry_of(d, c[j]), data_entry()));
        }
    }
}

/// Whether a volume is packed does not depend on what the layout says of the tree.
pub proof fn lemma_packed_same(d: Disk, l: Layout, l2: Layout)
    requires
        packed(d, l),
        l2.free == l.free,
        l2.chains == l.chains,
        l2.owner == l.owner,
    ensures
        packed(d, l2),
{
    assert(chains_ok(d, l2)) by {
        reveal(chains_ok);
    }
    assert(separate(l2)) by {
        reveal(separate);
    }
    assert forall|a: u64|
        m_root(d).unwrap().root <= a < m_root(d).unwrap().sectors implies #[trigger] crate::ffat::sound::owned(
        l2,
        a,
    ) by {
        crate::ffat::sound::lemma_covered_at(d, l, a);
    }
    crate::ffat::sound::lemma_covered_intro(d, l2);
}

/// The layout after a file or directory was created under the parent at `p`.
pub open spec fn created(d: Disk, l: Layout, p: u64, name: Seq<u8>) -> Layout {
    let fresh = l.free[0];
    Layout {
        parent: l.parent.insert(fresh, p),
        depth: l.depth.insert(fresh, l.depth[p] + 1),
        ..adopted_loose(grown(d, l, p, name), fresh)
    }
}

/// After a file or directory was created, on a volume that was sound, the volume is sound
/// again where the new sector is a file, or a directory without entries.
pub proof fn lemma_create_finish(d: Disk, l: Layout, path: Seq<Seq<u8>>, meta: Sector, e: Disk)
    requires
        sound(d, l),
        create_parts(d, l, path, meta),
        create_written(d, l, path, meta, e),
        chain_ok(e, l.free[0], seq![l.free[0]]),
        entry_of(e, l.free[0]).sector_type == SectorType::Dir ==> payload_entries(
            e,
            seq![l.free[0]],
            entry_of(e, l.free[0]).size,
        ) == Some(Seq::<(u64, Seq<u8>)>::empty()),
    ensures
        sound(e, created(d, l, m_walk(d, path.drop_last()).unwrap(), path.last())),
{
    let p = m_walk(d, path.drop_last()).unwrap();
    let fresh = l.free[0];
    let name = path.last();
    let l3 = grown(d, l, p, name);
    let l4 = adopted_loose(l3, fresh);
    let l5 = created(d, l, p, name);
    lemma_adopt_loose(e, l3, fresh);
    assert(!l.chains.contains_key(fresh)) by {
        assert(l.free.contains(fresh)) by {
            assert(l.free[0] == fresh);
        }
        crate::ffat::packing::lemma_free_not_head(d, l, fresh);
    }
    lemma_packed_same(e, l4, l5);
    assert(fresh != p);
    assert(l5.chains[p] == l3.chains[p]);
    assert(same_but_at(d, l, e, l5, p, fresh)) by {
        assert forall|h: u64| #[trigger] l.chains.contains_key(h) && h != fresh implies entry_of(
            e,
            h,
        ).sector_type == entry_of(d, h).sector_type by {
            if h != p {
                assert(l.chains[h] == l.chains[h]);
            }
        }
        assert forall|h: u64|
            #[trigger] l.chains.contains_key(h) && h != fresh && h != p && entry_of(
                d,
                h,
            ).sector_type == SectorType::Dir implies entries_of(e, l5, h) == entries_of(d, l, h) by {
            assert(l5.chains[h] == l.chains[h]);
            assert(entry_of(e, h) == entry_of(d, h));
        }
    }
    assert(tree_ok(d, l));
    lemma_tree_add(d, l, e, l5, p, fresh, name);
}

/// Creating a file, where it succeeds on a sound volume, leaves the volume sound: the
/// first sector of the free list becomes the new file, of one empty sector, and the parent
/// lists it behind its other entries.
pub proof fn law_create_file_sound(d: Disk, l: Layout, path: Seq<Seq<u8>>)
    requires
        sound(d, l),
        m_create_file(d, path).1 is Ok,
    ensures
        path.len() > 0,
        m_walk(d, path.drop_last()) is Ok,
        l.free.len() >= 2,
        sound(
            m_create_file(d, path).0,
            created(d, l, m_walk(d, path.drop_last()).unwrap(), path.last()),
        ),
        m_meta(m_create_file(d, path).0, l.free[0]) == Ok::<Sector, ErrorKind>(
            Sector { sector_type: SectorType::File, size: 0, next: 0 },
        ),
{
    let meta = Sector { sector_type: SectorType::File, size: 0, next: 0 };
    assert(m_create_file(d, path).0 == m_create(d, path, meta).0 && m_create(d, path, meta).1 is Ok) by {
        reveal(m_create_file);
    }
    let e = m_create(d, path, meta).0;
    let fresh = l.free[0];
    lemma_create_parts(d, l, path, meta);
    lemma_create_written(d, l, path, meta);
    assert(linked(e, seq![fresh])) by {
        assert(seq![fresh][0] == fresh);
    }
    assert(chain_ok(e, fresh, seq![fresh]));
    lemma_create_finish(d, l, path, meta, e);
}

/// Creating a directory, where it succeeds on a sound volume, leaves the volume sound: the
/// first sector of the free list becomes the new directory, without entries, and the
/// parent lists it behind its other entries.
pub proof fn law_create_dir_sound(d: Disk, l: Layout, path: Seq<Seq<u8>>)
    requires
        sound(d, l),
        m_create_dir(d, path).1 is Ok,
    ensures
        path.len() > 0,
        m_walk(d, path.drop_last()) is Ok,
        l.free.len() >= 2,
        sound(
            m_create_dir(d, path).0,
            created(d, l, m_walk(d, path.drop_last()).unwrap(), path.last()),
        ),
        entry_of(m_create_dir(d, path).0, l.free[0]).sector_type == SectorType::Dir,
        payload_entries(
            m_create_dir(d, path).0,
            seq![l.free[0]],
            entry_of(m_create_dir(d, path).0, l.free[0]).size,
        ) == Some(Seq::<(u64, Seq<u8>)>::empty()),
        create_parts(d, l, path, Sector { sector_type: SectorType::Dir, size: 8, next: 0 }),
        create_written(
            d,
            l,
            path,
            Sector { sector_type: SectorType::Dir, size: 8, next: 0 },
            m_create_dir(d, path).0,
        ),
{
    let none: Entries = Seq::empty();
    let bytes = empty_dir_payload();
    crate::ffat::layout::lemma_le_roundtrip();
    assert(crate::ffat::dir::encode_addrs(crate::ffat::dir::addrs_of(none)) =~= Seq::<u8>::empty());
    assert(crate::ffat::dir::encode_names(crate::ffat::dir::names_of(none)) =~= Seq::<u8>::empty());
    assert(bytes.len() == 8);
    let meta = Sector { sector_type: SectorType::Dir, size: 8, next: 0 };
    let fresh = l.free[0];
    let e3 = m_create(d, path, meta).0;
    let block = chunk(bytes, 0);
    let e = e3.update(fresh as int, block);
    assert(m_create(d, path, meta).1 == Ok::<u64, ErrorKind>(fresh) ==> m_create_dir(d, path).0
        == e) by {
        reveal(m_create_dir);
    }
    assert(m_create(d, path, meta).1 is Ok) by {
        reveal(m_create_dir);
    }
    lemma_create_parts(d, l, path, meta);
    lemma_create_written(d, l, path, meta);
    let p = m_walk(d, path.drop_last()).unwrap();
    let l3 = grown(d, l, p, path.last());
    crate::ffat::loose::lemma_loose_block(e3, l3, fresh, block);
    assert(disk_wf(e)) by {
        reveal(packed_but);
    }
    lemma_dir_block(e, fresh, bytes);
    assert(create_written(d, l, path, meta, e)) by {
        assert(l3.chains.contains_key(p));
        assert forall|h: u64| l.chains.contains_key(h) && h != p implies entry_of(e, h)
            == entry_of(d, h) && payload_entries(e, #[trigger] l.chains[h], entry_of(e, h).size)
            == payload_entries(d, l.chains[h], entry_of(d, h).size) by {
            assert(l3.chains.contains_key(h));
            assert(l3.chains[h] == l.chains[h]);
        }
        assert(m_root(e) == m_root(e3)) by {
            reveal(packed_but);
            crate::ffat::chains::lemma_block_same_but(e3, fresh, block);
        }
    }
    lemma_create_finish(d, l, path, meta, e);
}

/// A sector that holds the payload of a directory without entries, and whose table entry
/// says that it is a directory of 8 bytes, is the chain of a directory without entries.
proof fn lemma_dir_block(e: Disk, fresh: u64, bytes: Seq<u8>)
    requires
        disk_wf(e),
        bytes == empty_dir_payload(),
        bytes.len() == 8,
        m_meta(e, fresh) == Ok::<Sector, ErrorKind>(
            Sector { sector_type: SectorType::Dir, size: 8, next: 0 },
        ),
        e[fresh as int] == chunk(bytes, 0),
    ensures
        chain_ok(e, fresh, seq![fresh]),
        payload_entries(e, seq![fresh], 8) == Some(Seq::<(u64, Seq<u8>)>::empty()),
{
    let c = seq![fresh];
    let none: Entries = Seq::empty();
    assert(c[0] == fresh);
    assert(linked(e, c));
    assert(chunk_count(8) == 1);
    crate::ffat::model::lemma_meta_ok(e, fresh);
    assert(crate::ffat::content::content_from(e, c, 1, 1) =~= Seq::<u8>::empty());
    assert(crate::ffat::content::content(e, c, 1) =~= e[fresh as int]);
    assert(crate::ffat::content::content(e, c, 1).take(8) =~= bytes);
    assert(encodable(none));
    crate::ffat::dir::lemma_decode_encode_dir(none);
}

} // verus!
