use vstd::prelude::*;
use crate::error::ErrorKind;
use crate::ffat::creation::{create_parts, created, law_create_dir_sound};
use crate::ffat::dir::{lemma_position, position};
use crate::ffat::laws::lemma_walk_push;
use crate::ffat::model::{
    m_create_dir, m_delete, m_delete_children, m_delete_each, m_exists, m_read_dir,
    m_read_dir_at, m_root, m_unlink, m_walk, Disk,
};
use crate::ffat::pruning::{lemma_unlink_prunes, lemma_walk_thinned, pruned};
use crate::ffat::removal::{parent_of, shorter_of, slot_of, unlinked};
use crate::ffat::sound::{entries_of, entry_of, sound, Layout};
use crate::ffat::structs::SectorType;
use crate::ffat::tree::{lemma_sound_chain, lemma_sound_dir};
use crate::ffat::undo::{
    law_create_dir_then_delete, lemma_created_one_more, lemma_position_push, lemma_walk_to_new,
};

verus! {

/// Creating a directory and deleting it again leaves the names as they were: where creating
/// succeeds on a sound volume, the parent lists after the two what it listed before, and
/// the path names neither a directory nor a file.
pub proof fn law_create_dir_then_delete_names(d: Disk, l: Layout, path: Seq<Seq<u8>>, fuel: nat)
    requires
        sound(d, l),
        m_create_dir(d, path).1 is Ok,
    ensures
        m_read_dir(d, path.drop_last()) is Ok,
        m_read_dir(m_delete(m_create_dir(d, path).0, path, fuel).0, path.drop_last())
            == m_read_dir(d, path.drop_last()),
        m_exists(m_delete(m_create_dir(d, path).0, path, fuel).0, path, SectorType::Dir) == Ok::<
            bool,
            ErrorKind,
        >(false),
        m_exists(m_delete(m_create_dir(d, path).0, path, fuel).0, path, SectorType::File) == Ok::<
            bool,
            ErrorKind,
        >(false),
{
    let meta = crate::ffat::structs::Sector { sector_type: SectorType::Dir, size: 8, next: 0 };
    let after = law_create_dir_then_delete(d, l, path, fuel);
    law_create_dir_sound(d, l, path);
    let e = m_create_dir(d, path).0;
    let p = m_walk(d, path.drop_last()).unwrap();
    let fresh = l.free[0];
    let name = path.last();
    let l1 = created(d, l, p, name);
    let old = entries_of(d, l, p);
    lemma_created_one_more(d, l, path, meta, e);
    assert(position(old, name) is None && entry_of(d, p).sector_type == SectorType::Dir
        && l.chains.contains_key(p)) by {
        assert(create_parts(d, l, path, meta));
    }
    lemma_walk_to_new(d, l, e, l1, path, fresh);
    assert(l1.chains.contains_key(fresh) && l1.chains[fresh] == seq![fresh]);
    lemma_sound_dir(e, l1, fresh);
    assert(entries_of(e, l1, fresh) =~= Seq::<(u64, Seq<u8>)>::empty());
    assert(m_delete_children(e, path, fuel) == (e, Ok::<(), ErrorKind>(()))) by {
        reveal(m_delete_children);
        reveal(m_delete_each);
        assert(crate::ffat::dir::names_of(entries_of(e, l1, fresh)) =~= Seq::<Seq<u8>>::empty());
    }
    lemma_sound_chain(e, l1, fresh);
    assert(m_delete(e, path, fuel) == m_unlink(e, path)) by {
        reveal(m_delete);
    }
    lemma_position_push(old, (fresh, name), name);
    assert(parent_of(e, path) == p);
    assert(l1.chains.contains_key(p));
    lemma_sound_dir(e, l1, p);
    assert(slot_of(e, l1, path) == old.len());
    assert(shorter_of(e, l1, path) =~= old);
    let f = m_unlink(e, path).0;
    let l3 = unlinked(e, l1, path);
    lemma_unlink_prunes(e, l1, path);
    assert(pruned(e, l1, path, f, l3));
    lemma_walk_thinned(
        e,
        l1,
        p,
        (path.len() - 1) as nat,
        f,
        l3,
        path.drop_last(),
    );
    assert(m_walk(f, path.drop_last()) == Ok::<u64, ErrorKind>(p));
    lemma_sound_dir(f, l3, p);
    lemma_sound_dir(d, l, p);
    assert(m_read_dir_at(f, p) == m_read_dir_at(d, p));
    assert(m_read_dir(f, path.drop_last()) == m_read_dir(d, path.drop_last())) by {
        reveal(m_read_dir);
    }
    assert(m_read_dir(d, path.drop_last()) is Ok) by {
        reveal(m_read_dir);
    }
    assert(m_walk(f, path) == Err::<u64, ErrorKind>(ErrorKind::NotFound)) by {
        reveal(m_walk);
        let top = m_root(f).unwrap().root;
        lemma_walk_push(f, top, path.drop_last(), name);
        assert(path.drop_last().push(name) =~= path);
        lemma_position(old, name);
    }
    assert(m_exists(f, path, SectorType::Dir) == Ok::<bool, ErrorKind>(false)
        && m_exists(f, path, SectorType::File) == Ok::<bool, ErrorKind>(false)) by {
        reveal(m_exists);
    }
}

} // verus!
