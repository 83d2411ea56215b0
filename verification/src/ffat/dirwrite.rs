use vstd::prelude::*;
use crate::error::ErrorKind;
use crate::ffat::chains::{
    changed, lemma_changed_meta, lemma_changed_trans, lemma_changed_wider, lemma_free_list_kept, lemma_set_meta_same_but,
};
use crate::ffat::content::payload_entries;
use crate::ffat::dir::{encodable, lemma_decode_encode_dir, spec_encode_dir};
use crate::ffat::layout::lemma_le_roundtrip;
use crate::ffat::model::{
    chunk_count, data_entry, m_meta, m_set_meta, m_write_dir_at, m_write_payload, Disk, Entries,
};
use crate::ffat::payload::{
    lacking, lemma_tidy_at, lemma_tidy_bounds, lemma_write_payload, same_use, tidy,
};
use crate::ffat::structs::Sector;

verus! {

/// Writing another type or size into the table entry of a sector of a chain keeps the chain.
pub proof fn lemma_tidy_set_use(d: Disk, c: Seq<u64>, f: Seq<u64>, i: int, entry: Sector)
    requires
        tidy(d, c, f),
        0 <= i < c.len(),
        m_meta(d, c[i]) is Ok,
        entry.next == m_meta(d, c[i]).unwrap().next,
    ensures
        m_set_meta(d, c[i], entry).1 == Ok::<(), ErrorKind>(()),
        tidy(m_set_meta(d, c[i], entry).0, c, f),
        changed(d, m_set_meta(d, c[i], entry).0, set![c[i]], Set::empty()),
        m_meta(m_set_meta(d, c[i], entry).0, c[i]) == Ok::<Sector, ErrorKind>(entry),
        forall|j: int|
            0 <= j < c.len() && j != i ==> m_meta(m_set_meta(d, c[i], entry).0, #[trigger] c[j])
                == m_meta(d, c[j]),
{
    reveal(tidy);
    let at = c[i];
    lemma_set_meta_same_but(d, at, entry);
    let d1 = m_set_meta(d, at, entry).0;
    assert forall|j: int| 0 <= j < c.len() && j != i implies m_meta(d1, #[trigger] c[j]) == m_meta(
        d,
        c[j],
    ) by {
        assert(c[j] != c[i]);
        lemma_changed_meta(d, d1, set![at], Set::empty(), c[j]);
    }
    assert forall|j: int| 0 <= j < c.len() implies (m_meta(d1, #[trigger] c[j]) is Ok && m_meta(
        d1,
        c[j],
    ).unwrap().next == (if j + 1 < c.len() {
        c[j + 1]
    } else {
        0
    })) by {
        if j != i {
            assert(m_meta(d1, c[j]) == m_meta(d, c[j]));
        }
    }
    assert forall|j: int| 0 <= j < f.len() implies !set![at].contains(#[trigger] f[j]) by {
        assert(c[i] != f[j]);
    }
    lemma_free_list_kept(d, d1, set![at], Set::empty(), f);
}

/// What writing the entries of a directory into the chain `c` comes to, where `f` is the
/// free list: the chain has exactly as many sectors as the payload takes, its first sector
/// says how many bytes the payload has, and the chain holds the entries.
#[verifier::opaque]
pub open spec fn dir_written(d: Disk, c: Seq<u64>, f: Seq<u64>, entries: Entries, d3: Disk) -> bool {
    let bytes = spec_encode_dir(entries);
    let n = chunk_count(bytes.len()) as int;
    let k = lacking(c.len(), n as nat) as int;
    let c3 = (c + f.take(k)).take(n);
    let f3 = (c + f.take(k)).skip(n) + f.skip(k);
    &&& tidy(d3, c3, f3)
    &&& c3.len() == n
    &&& c3[0] == c[0]
    &&& changed(d, d3, c.to_set().union(f.take(k).to_set()), c3.to_set())
    &&& m_meta(d3, c[0]) is Ok
    &&& m_meta(d3, c[0]).unwrap().sector_type == m_meta(d, c[0]).unwrap().sector_type
    &&& m_meta(d3, c[0]).unwrap().size == bytes.len()
    &&& payload_entries(d3, c3, bytes.len() as u64) == Some(entries)
    &&& forall|j: int|
        1 <= j < c3.len() && j < c.len() ==> same_use(
            m_meta(d3, #[trigger] c3[j]).unwrap(),
            m_meta(d, c3[j]).unwrap(),
        )
    &&& forall|j: int|
        c.len() <= j < c3.len() ==> same_use(m_meta(d3, #[trigger] c3[j]).unwrap(), data_entry())
}

/// Writing the entries of a directory makes its chain as long as the payload needs, taking
/// from and giving to the front of the free list, and puts the entries into the chain.
pub proof fn lemma_write_dir(d: Disk, c: Seq<u64>, f: Seq<u64>, entries: Entries)
    requires
        tidy(d, c, f),
        encodable(entries),
        spec_encode_dir(entries).len() <= u64::MAX,
        lacking(c.len(), chunk_count(spec_encode_dir(entries).len())) == 0 || lacking(
            c.len(),
            chunk_count(spec_encode_dir(entries).len()),
        ) < f.len(),
    ensures
        m_write_dir_at(d, c[0], entries).1 == Ok::<(), ErrorKind>(()),
        dir_written(d, c, f, entries, m_write_dir_at(d, c[0], entries).0),
{
    reveal(dir_written);
    reveal(m_write_dir_at);
    lemma_le_roundtrip();
    let bytes = spec_encode_dir(entries);
    assert(bytes.len() >= 8);
    let n = chunk_count(bytes.len()) as int;
    let k = lacking(c.len(), n as nat) as int;
    lemma_tidy_bounds(d, c, f);
    lemma_tidy_at(d, c, f, 0);
    let entry = m_meta(d, c[0]).unwrap();
    let sized = Sector { size: bytes.len() as u64, ..entry };
    lemma_tidy_set_use(d, c, f, 0, sized);
    let d1 = m_set_meta(d, c[0], sized).0;
    lemma_write_payload(d1, c, f, bytes);
    let d3 = m_write_payload(d1, c[0], bytes).0;
    assert(m_write_dir_at(d, c[0], entries) == (d3, Ok::<(), ErrorKind>(())));
    let c3 = (c + f.take(k)).take(n);
    let f3 = (c + f.take(k)).skip(n) + f.skip(k);
    let metas = c.to_set().union(f.take(k).to_set());
    lemma_changed_trans(d, d1, d3, set![c[0]], Set::empty(), metas, c3.to_set());
    assert(c.contains(c[0]));
    lemma_changed_wider(
        d,
        d3,
        set![c[0]].union(metas),
        Set::<u64>::empty().union(c3.to_set()),
        metas,
        c3.to_set(),
    );
    assert(c3[0] == c[0]);
    assert(same_use(m_meta(d3, c3[0]).unwrap(), m_meta(d1, c3[0]).unwrap()));
    lemma_tidy_at(d3, c3, f3, 0);
    lemma_decode_encode_dir(entries);
    assert forall|j: int| 1 <= j < c3.len() && j < c.len() implies same_use(
        m_meta(d3, #[trigger] c3[j]).unwrap(),
        m_meta(d, c3[j]).unwrap(),
    ) by {
        assert(c3[j] == c[j]);
        assert(same_use(m_meta(d3, c3[j]).unwrap(), m_meta(d1, c3[j]).unwrap()));
        assert(m_meta(d1, c[j]) == m_meta(d, c[j]));
    }
}

/// What the entries of a directory that were written change: the chain of the directory is
/// fitted to the entries and lies beside the free list that is left, and nothing but the
/// chain and the front of the free list is touched.
pub proof fn lemma_dir_written_facts(d: Disk, c: Seq<u64>, f: Seq<u64>, entries: Entries, d3: Disk)
    requires
        dir_written(d, c, f, entries, d3),
    ensures
        ({
            let n = chunk_count(spec_encode_dir(entries).len()) as int;
            let k = lacking(c.len(), n as nat) as int;
            let c3 = (c + f.take(k)).take(n);
            let f3 = (c + f.take(k)).skip(n) + f.skip(k);
            &&& tidy(d3, c3, f3)
            &&& changed(d, d3, c.to_set().union(f.take(k).to_set()), c3.to_set())
            &&& m_meta(d3, c[0]) is Ok
            &&& m_meta(d3, c[0]).unwrap().sector_type == m_meta(d, c[0]).unwrap().sector_type
            &&& m_meta(d3, c[0]).unwrap().size == spec_encode_dir(entries).len()
        }),
{
    reveal(dir_written);
}

} // verus!
