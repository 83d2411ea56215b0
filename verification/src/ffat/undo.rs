use vstd::prelude::*;
use crate::error::ErrorKind;
use crate::ffat::content::content;
use crate::ffat::creation::{
    create_parts, create_written, created, grown, grown_count, law_create_dir_sound,
};
use crate::ffat::dir::{
    encodable, lemma_encode_decode_dir, lemma_position, position, spec_decode_dir,
    spec_encode_dir,
};
use crate::ffat::dirwrite::lemma_write_dir;
use crate::ffat::laws::lemma_walk_push;
use crate::ffat::members::{fitted, spared};
use crate::ffat::model::{
    chunk_count, m_create_dir, m_delete, m_delete_children, m_delete_each, m_lookup, m_read_dir_at, m_root, m_unlink, m_walk, m_walk_from, m_write_dir_at, Disk, Entries,
};
use crate::ffat::payload::lacking;
use crate::ffat::removal::{
    law_unlink_sound, lemma_release_packed, parent_of, rewritten, shorter_of, slot_of, target_of, unlinked,
};
use crate::ffat::sound::{entries_of, entry_of, sound, tree_ok, Layout};
use crate::ffat::structs::SectorType;
use crate::ffat::tree::{
    lemma_sound_chain, lemma_sound_dir, lemma_sound_lookup, lemma_sound_not_dir,
};

verus! {

/// Looking a name up among entries with one more entry behind them finds what it found
/// before.
pub proof fn lemma_position_push(entries: Entries, one: (u64, Seq<u8>), name: Seq<u8>)
    ensures
        position(entries.push(one), name) == (match position(entries, name) {
            Some(i) => Some(i),
            None => if one.1 == name {
                Some(entries.len() as int)
            } else {
                None
            },
        }),
    decreases entries.len(),
{
    let longer = entries.push(one);
    if entries.len() == 0 {
        assert(longer.drop_first() =~= Seq::<(u64, Seq<u8>)>::empty());
        assert(longer[0] == one);
        assert(position(longer.drop_first(), name) is None);
    } else {
        assert(longer[0] == entries[0]);
        assert(longer.drop_first() =~= entries.drop_first().push(one));
        lemma_position_push(entries.drop_first(), one, name);
    }
}

/// Whether the volume `e` has what `d` has and, in the directory at `p`, one entry more.
pub open spec fn one_more(d: Disk, l: Layout, e: Disk, l2: Layout, p: u64, one: (u64, Seq<u8>)) -> bool {
    &&& sound(d, l)
    &&& sound(e, l2)
    &&& m_root(e).unwrap().root == m_root(d).unwrap().root
    &&& l.chains.contains_key(p)
    &&& entry_of(d, p).sector_type == SectorType::Dir
    &&& forall|h: u64| #[trigger] l.chains.contains_key(h) ==> l2.chains.contains_key(h)
    &&& forall|h: u64|
        #[trigger] l.chains.contains_key(h) ==> entry_of(e, h).sector_type == entry_of(
            d,
            h,
        ).sector_type
    &&& forall|h: u64|
        #[trigger] l.chains.contains_key(h) && h != p && entry_of(d, h).sector_type
            == SectorType::Dir ==> entries_of(e, l2, h) == entries_of(d, l, h)
    &&& entries_of(e, l2, p) == entries_of(d, l, p).push(one)
}

/// A path that led somewhere still leads there after an entry was added to a directory.
pub proof fn lemma_walk_from_more(
    d: Disk,
    l: Layout,
    e: Disk,
    l2: Layout,
    p: u64,
    one: (u64, Seq<u8>),
    from: u64,
    names: Seq<Seq<u8>>,
)
    requires
        one_more(d, l, e, l2, p, one),
        l.chains.contains_key(from),
        m_walk_from(d, from, names) is Ok,
    ensures
        m_walk_from(e, from, names) == m_walk_from(d, from, names),
    decreases names.len(),
{
    reveal(m_walk_from);
    if names.len() > 0 {
        assert(l2.chains.contains_key(from));
        if entry_of(d, from).sector_type == SectorType::Dir {
            lemma_sound_dir(d, l, from);
            lemma_sound_dir(e, l2, from);
            let entries = entries_of(d, l, from);
            assert(m_read_dir_at(d, from) == Ok::<Entries, ErrorKind>(entries));
            assert(m_lookup(entries, names[0]) is Some);
            lemma_sound_lookup(d, l, from, names[0]);
            lemma_position(entries, names[0]);
            let next = m_lookup(entries, names[0]).unwrap();
            let after = entries_of(e, l2, from);
            assert(m_read_dir_at(e, from) == Ok::<Entries, ErrorKind>(after));
            if from == p {
                lemma_position_push(entries, one, names[0]);
                let i = position(entries, names[0]).unwrap();
                assert(after[i] == entries[i]);
            } else {
                assert(after == entries);
            }
            assert(m_lookup(after, names[0]) == Some(next));
            lemma_walk_from_more(
                d,
                l,
                e,
                l2,
                p,
                one,
                m_lookup(entries, names[0]).unwrap(),
                names.drop_first(),
            );
        } else {
            lemma_sound_not_dir(d, l, from);
        }
    }
}

/// After a file or directory was created, its path leads to it.
pub proof fn lemma_walk_to_new(
    d: Disk,
    l: Layout,
    e: Disk,
    l2: Layout,
    path: Seq<Seq<u8>>,
    fresh: u64,
)
    requires
        path.len() > 0,
        m_walk(d, path.drop_last()) is Ok,
        one_more(d, l, e, l2, m_walk(d, path.drop_last()).unwrap(), (fresh, path.last())),
        position(entries_of(d, l, m_walk(d, path.drop_last()).unwrap()), path.last()) is None,
    ensures
        m_walk(e, path.drop_last()) == m_walk(d, path.drop_last()),
        m_walk(e, path) == Ok::<u64, ErrorKind>(fresh),
{
    reveal(m_walk);
    let top = m_root(d).unwrap().root;
    let p = m_walk(d, path.drop_last()).unwrap();
    let one = (fresh, path.last());
    assert(l.chains.contains_key(top)) by {
        reveal(tree_ok);
    }
    lemma_walk_from_more(d, l, e, l2, p, one, top, path.drop_last());
    assert(path.drop_last().push(path.last()) =~= path);
    lemma_walk_push(e, top, path.drop_last(), path.last());
    assert(l2.chains.contains_key(p));
    lemma_sound_dir(e, l2, p);
    lemma_position_push(entries_of(d, l, p), one, path.last());
}

/// After a file or directory was created, the volume has what it had, and the parent one
/// entry more.
pub proof fn lemma_created_one_more(
    d: Disk,
    l: Layout,
    path: Seq<Seq<u8>>,
    meta: crate::ffat::structs::Sector,
    e: Disk,
)
    requires
        sound(d, l),
        create_parts(d, l, path, meta),
        create_written(d, l, path, meta, e),
        sound(e, created(d, l, m_walk(d, path.drop_last()).unwrap(), path.last())),
    ensures
        one_more(
            d,
            l,
            e,
            created(d, l, m_walk(d, path.drop_last()).unwrap(), path.last()),
            m_walk(d, path.drop_last()).unwrap(),
            (l.free[0], path.last()),
        ),
{
    let p = m_walk(d, path.drop_last()).unwrap();
    let fresh = l.free[0];
    let l5 = created(d, l, p, path.last());
    let l3 = grown(d, l, p, path.last());
    assert(!l.chains.contains_key(fresh)) by {
        assert(l.free.contains(fresh)) by {
            assert(l.free[0] == fresh);
        }
        crate::ffat::packing::lemma_free_not_head(d, l, fresh);
    }
    assert(l5.chains[p] == l3.chains[p]);
    assert forall|h: u64| #[trigger] l.chains.contains_key(h) implies entry_of(e, h).sector_type
        == entry_of(d, h).sector_type by {
        if h != p {
            assert(l.chains[h] == l.chains[h]);
        }
    }
    assert forall|h: u64|
        #[trigger] l.chains.contains_key(h) && h != p && entry_of(d, h).sector_type
            == SectorType::Dir implies entries_of(e, l5, h) == entries_of(d, l, h) by {
        assert(l5.chains[h] == l.chains[h]);
        assert(entry_of(e, h) == entry_of(d, h));
    }
}

/// Where a directory is written with the entries that it has but for the last one, and had
/// been fitted to its entries before that one was added, its chain and the free list are
/// what they were before the entry was added.
proof fn lemma_fit_back(c: Seq<u64>, f: Seq<u64>, n: int, m: int)
    requires
        c.len() >= 1,
        m == c.len(),
        n >= m,
        lacking(c.len(), n as nat) <= f.len(),
    ensures
        fitted(fitted(c, f, n), spared(c, f, n), m) == c,
        spared(fitted(c, f, n), spared(c, f, n), m) == f,
{
    let k = lacking(c.len(), n as nat) as int;
    let c3 = fitted(c, f, n);
    let f3 = spared(c, f, n);
    assert(c3 =~= c + f.take(k));
    assert(f3 =~= f.skip(k));
    assert(lacking(c3.len(), m as nat) == 0);
    assert(f3.take(0) =~= Seq::<u64>::empty());
    assert(fitted(c3, f3, m) =~= c);
    assert(spared(c3, f3, m) =~= f);
}

/// After a directory was created, the parent can be written without it, and what it took
/// from the free list goes back to the front of the free list.
proof fn lemma_undo_rewrite(d: Disk, l: Layout, path: Seq<Seq<u8>>, e: Disk)
    requires
        sound(d, l),
        create_parts(d, l, path, crate::ffat::structs::Sector {
            sector_type: SectorType::Dir,
            size: 8,
            next: 0,
        }),
        sound(e, created(d, l, m_walk(d, path.drop_last()).unwrap(), path.last())),
        entry_of(e, m_walk(d, path.drop_last()).unwrap()).sector_type == SectorType::Dir,
        entries_of(
            e,
            created(d, l, m_walk(d, path.drop_last()).unwrap(), path.last()),
            m_walk(d, path.drop_last()).unwrap(),
        ) == entries_of(d, l, m_walk(d, path.drop_last()).unwrap()).push(
            (l.free[0], path.last()),
        ),
    ensures
        ({
            let p = m_walk(d, path.drop_last()).unwrap();
            let l1 = created(d, l, p, path.last());
            let old = entries_of(d, l, p);
            &&& encodable(old)
            &&& spec_encode_dir(old).len() <= u64::MAX
            &&& m_write_dir_at(e, p, old).1 is Ok
            &&& rewritten(l1, p, old).chains[p] == l.chains[p]
            &&& rewritten(l1, p, old).free == l.free.drop_first()
        }),
{
    let p = m_walk(d, path.drop_last()).unwrap();
    let l1 = created(d, l, p, path.last());
    let old = entries_of(d, l, p);
    let fresh = l.free[0];
    let longer = old.push((fresh, path.last()));
    let c = l.chains[p];
    let f = l.free.drop_first();
    lemma_sound_chain(d, l, p);
    let size = entry_of(d, p).size;
    let bytes = content(d, c, chunk_count(size as nat) as int).take(size as int);
    assert(spec_decode_dir(bytes) == Some(old));
    crate::ffat::chains::lemma_linked_short(d, c);
    crate::ffat::content::lemma_content_len(d, c, 0, chunk_count(size as nat) as int);
    assert(bytes.len() == size);
    lemma_encode_decode_dir(bytes);
    assert(spec_encode_dir(old) == bytes);
    let m = chunk_count(spec_encode_dir(old).len()) as int;
    assert(m == c.len());
    crate::ffat::dir::lemma_encode_push_len(old, (fresh, path.last()));
    let n = grown_count(d, l, p, path.last());
    assert(n >= m);
    lemma_create_room_of(d, l, path);
    let c3 = fitted(c, f, n);
    let f3 = spared(c, f, n);
    assert(l1.chains[p] == c3);
    assert(l1.free == f3);
    lemma_fit_back(c, f, n, m);
    lemma_sound_chain(e, l1, p);
    assert(c3.len() >= m) by {
        crate::ffat::members::lemma_members_kept(c, f, n, 0);
    }
    assert(lacking(c3.len(), m as nat) == 0);
    assert(c3[0] == p);
    lemma_write_dir(e, c3, f3, old);
}

/// Where creating succeeded, the free list had more sectors than the chain of the parent
/// lacked.
proof fn lemma_create_room_of(d: Disk, l: Layout, path: Seq<Seq<u8>>)
    requires
        sound(d, l),
        create_parts(d, l, path, crate::ffat::structs::Sector {
            sector_type: SectorType::Dir,
            size: 8,
            next: 0,
        }),
    ensures
        lacking(
            l.chains[m_walk(d, path.drop_last()).unwrap()].len(),
            grown_count(d, l, m_walk(d, path.drop_last()).unwrap(), path.last()) as nat,
        ) <= l.free.drop_first().len(),
        grown_count(d, l, m_walk(d, path.drop_last()).unwrap(), path.last()) >= 1,
{
    crate::ffat::creation::lemma_create_room(
        d,
        l,
        path,
        crate::ffat::structs::Sector { sector_type: SectorType::Dir, size: 8, next: 0 },
    );
    crate::ffat::layout::lemma_le_roundtrip();
}

/// Creating a directory and deleting it again gives every sector back: where creating
/// succeeds on a sound volume, deleting succeeds too and leaves the volume sound, and the
/// free list and the chains of all files and directories are what they were before the
/// directory was created.
#[verifier::rlimit(60)]
pub proof fn law_create_dir_then_delete(d: Disk, l: Layout, path: Seq<Seq<u8>>, fuel: nat) -> (after: Layout)
    requires
        sound(d, l),
        m_create_dir(d, path).1 is Ok,
    ensures
        m_delete(m_create_dir(d, path).0, path, fuel).1 == Ok::<(), ErrorKind>(()),
        sound(m_delete(m_create_dir(d, path).0, path, fuel).0, after),
        after.free == l.free,
        after.chains == l.chains,
{
    let meta = crate::ffat::structs::Sector { sector_type: SectorType::Dir, size: 8, next: 0 };
    law_create_dir_sound(d, l, path);
    let e = m_create_dir(d, path).0;
    let p = m_walk(d, path.drop_last()).unwrap();
    let fresh = l.free[0];
    let name = path.last();
    let l1 = created(d, l, p, name);
    let old = entries_of(d, l, p);
    lemma_created_one_more(d, l, path, meta, e);
    assert(position(old, name) is None) by {
        assert(create_parts(d, l, path, meta));
    }
    lemma_walk_to_new(d, l, e, l1, path, fresh);
    assert(l1.chains.contains_key(fresh) && l1.chains[fresh] == seq![fresh]);
    lemma_sound_dir(e, l1, fresh);
    assert(entries_of(e, l1, fresh) =~= Seq::<(u64, Seq<u8>)>::empty());
    assert(m_delete_children(e, path, fuel) == (e, Ok::<(), ErrorKind>(()))) by {
        reveal(m_delete_children);
        reveal(m_delete_each);
        assert(crate::ffat::dir::names_of(entries_of(e, l1, fresh)) =~= Seq::<Seq<u8>>::empty());
    }
    lemma_sound_chain(e, l1, fresh);
    assert(m_delete(e, path, fuel) == m_unlink(e, path)) by {
        reveal(m_delete);
    }
    lemma_position_push(old, (fresh, name), name);
    assert(parent_of(e, path) == p);
    assert(l1.chains.contains_key(p));
    lemma_sound_dir(e, l1, p);
    assert(slot_of(e, l1, path) == old.len());
    assert(target_of(e, l1, path) == fresh);
    assert(shorter_of(e, l1, path) =~= old);
    lemma_undo_rewrite(d, l, path, e);
    let e1 = m_write_dir_at(e, p, old).0;
    let l2 = rewritten(l1, p, old);
    crate::ffat::removal::lemma_rewrite_packed(e, l1, p, old);
    assert(l2.chains.contains_key(fresh) && l2.chains[fresh] == seq![fresh]);
    lemma_release_packed(e1, l2, fresh);
    assert(m_unlink(e, path) == crate::ffat::model::m_free_chain(e1, fresh)) by {
        reveal(m_unlink);
    }
    law_unlink_sound(e, l1, path);
    let l3 = unlinked(e, l1, path);
    assert(l3.free =~= l.free) by {
        assert(l3.free == seq![fresh] + l.free.drop_first());
    }
    assert(!l.chains.contains_key(fresh)) by {
        assert(l.free.contains(fresh)) by {
            assert(l.free[0] == fresh);
        }
        crate::ffat::packing::lemma_free_not_head(d, l, fresh);
    }
    assert(l3.chains =~= l.chains);
    l3
}

} // verus!
