use vstd::prelude::*;
use crate::error::ErrorKind;
use crate::ffat::chains::{
    disjoint, free_list, law_alloc_takes_the_head, law_free_chain_prepends, lemma_changed_meta, lemma_changed_wider, lemma_free_list_kept, lemma_linked_kept, lemma_same_but_refl, lemma_same_but_trans, lemma_set_meta_same_but, linked, same_but,
};
use crate::ffat::model::{
    data_entry, disk_wf, m_alloc, m_cut_after, m_extend, m_free_chain, m_meta, m_root, m_set_meta, Disk,
};
use crate::ffat::structs::Sector;

verus! {

/// Putting a fresh sector behind a chain takes the first sector of the free list and makes
/// it the last sector of the chain, as a data sector. Only the entries of that sector and
/// of the sector before it are touched.
#[verifier::rlimit(100)]
pub proof fn lemma_extend(d: Disk, c: Seq<u64>, f: Seq<u64>)
    requires
        disk_wf(d),
        linked(d, c),
        free_list(d, f),
        disjoint(c, f),
        f.len() >= 2,
    ensures
        m_extend(d, c.last()).1 == Ok::<u64, ErrorKind>(f[0]),
        disk_wf(m_extend(d, c.last()).0),
        same_but(d, m_extend(d, c.last()).0, set![c.last(), f[0]]),
        linked(m_extend(d, c.last()).0, c.push(f[0])),
        free_list(m_extend(d, c.last()).0, f.drop_first()),
        disjoint(c.push(f[0]), f.drop_first()),
        m_meta(m_extend(d, c.last()).0, f[0]) == Ok::<Sector, ErrorKind>(data_entry()),
        m_meta(m_extend(d, c.last()).0, c.last()) == Ok::<Sector, ErrorKind>(
            Sector { next: f[0], ..m_meta(d, c.last()).unwrap() },
        ),
        forall|i: int|
            0 <= i < c.len() - 1 ==> m_meta(m_extend(d, c.last()).0, #[trigger] c[i]) == m_meta(
                d,
                c[i],
            ),
{
    reveal(m_extend);
    let end = c.last();
    let fresh = f[0];
    assert(c[c.len() - 1] == end);
    assert(end != fresh);
    law_alloc_takes_the_head(d, f);
    let d1 = m_alloc(d).0;
    lemma_set_meta_same_but(d1, fresh, data_entry());
    let d2 = m_set_meta(d1, fresh, data_entry()).0;
    lemma_same_but_trans(d, d1, d2, set![fresh], set![fresh]);
    assert(set![fresh].union(set![fresh]) =~= set![fresh]);
    lemma_changed_meta(d, d2, set![fresh], Set::empty(), end);
    assert(m_meta(d, end) is Ok);
    let entry = m_meta(d2, end).unwrap();
    let tied = Sector { next: fresh, ..entry };
    lemma_set_meta_same_but(d2, end, tied);
    let d3 = m_set_meta(d2, end, tied).0;
    assert(m_extend(d, end) == (d3, Ok::<u64, ErrorKind>(fresh)));
    lemma_same_but_trans(d, d2, d3, set![fresh], set![end]);
    assert(set![fresh].union(set![end]) =~= set![end, fresh]);
    let touched = set![end, fresh];
    // the free list
    let rest = f.drop_first();
    assert forall|i: int| 0 <= i < rest.len() implies !set![fresh].contains(#[trigger] rest[i]) by {
        assert(rest[i] == f[i + 1]);
    }
    lemma_free_list_kept(d1, d2, set![fresh], Set::empty(), rest);
    assert forall|i: int| 0 <= i < rest.len() implies !set![end].contains(#[trigger] rest[i]) by {
        assert(rest[i] == f[i + 1]);
    }
    lemma_free_list_kept(d2, d3, set![end], Set::empty(), rest);
    // the chain
    let longer = c.push(fresh);
    assert forall|i: int, j: int|
        0 <= i < longer.len() && 0 <= j < longer.len() && i != j implies longer[i] != longer[j] by {
        if i < c.len() && j < c.len() {
        } else if i < c.len() {
            assert(longer[i] == c[i]);
        } else {
            assert(longer[j] == c[j]);
        }
    }
    lemma_changed_meta(d2, d3, set![end], Set::empty(), fresh);
    assert forall|i: int| 0 <= i < c.len() - 1 implies m_meta(d3, #[trigger] c[i]) == m_meta(
        d,
        c[i],
    ) by {
        assert(c[i] != end);
        assert(c[i] != fresh);
        lemma_changed_meta(d, d3, touched, Set::empty(), c[i]);
    }
    assert forall|i: int| 0 <= i < longer.len() implies (m_meta(d3, #[trigger] longer[i]) is Ok
        && m_meta(d3, longer[i]).unwrap().next == (if i + 1 < longer.len() {
        longer[i + 1]
    } else {
        0
    })) by {
        if i < c.len() - 1 {
            assert(longer[i] == c[i]);
            assert(longer[i + 1] == c[i + 1]);
            assert(m_meta(d3, c[i]) == m_meta(d, c[i]));
        } else if i == c.len() - 1 {
            assert(longer[i] == end);
        } else {
            assert(longer[i] == fresh);
        }
    }
    assert forall|i: int, j: int| 0 <= i < longer.len() && 0 <= j < rest.len() implies longer[i]
        != rest[j] by {
        assert(rest[j] == f[j + 1]);
        if i < c.len() {
            assert(longer[i] == c[i]);
        }
    }
}

/// The part of a chain behind its first `n` sectors is a chain, and shares no sector with
/// the first part.
pub proof fn lemma_linked_skip(d: Disk, c: Seq<u64>, n: int)
    requires
        linked(d, c),
        1 <= n < c.len(),
    ensures
        linked(d, c.skip(n)),
        disjoint(c.take(n), c.skip(n)),
        c.take(n).no_duplicates(),
{
    let tail = c.skip(n);
    assert forall|i: int| 0 <= i < tail.len() implies (m_meta(d, #[trigger] tail[i]) is Ok && m_meta(
        d,
        tail[i],
    ).unwrap().next == (if i + 1 < tail.len() {
        tail[i + 1]
    } else {
        0
    })) by {
        assert(tail[i] == c[i + n]);
    }
    assert forall|i: int, j: int| 0 <= i < tail.len() && 0 <= j < tail.len() && i != j implies tail[i]
        != tail[j] by {
        assert(tail[i] == c[i + n]);
        assert(tail[j] == c[j + n]);
    }
    assert forall|i: int, j: int| 0 <= i < c.take(n).len() && 0 <= j < tail.len() implies c.take(
        n,
    )[i] != tail[j] by {
        assert(tail[j] == c[j + n]);
    }
}

/// Ending a chain behind its first `n` sectors leaves those as the chain and puts the rest
/// in front of the free list. Only the entries of the last sector that stays and of the
/// sectors that go are touched.
pub proof fn lemma_cut_after(d: Disk, c: Seq<u64>, f: Seq<u64>, n: int)
    requires
        disk_wf(d),
        linked(d, c),
        free_list(d, f),
        disjoint(c, f),
        1 <= n <= c.len(),
    ensures
        m_cut_after(d, c[n - 1]).1 == Ok::<(), ErrorKind>(()),
        disk_wf(m_cut_after(d, c[n - 1]).0),
        same_but(d, m_cut_after(d, c[n - 1]).0, set![c[n - 1]].union(c.skip(n).to_set())),
        linked(m_cut_after(d, c[n - 1]).0, c.take(n)),
        free_list(m_cut_after(d, c[n - 1]).0, c.skip(n) + f),
        disjoint(c.take(n), c.skip(n) + f),
        m_meta(m_cut_after(d, c[n - 1]).0, c[n - 1]) == Ok::<Sector, ErrorKind>(
            Sector { next: 0, ..m_meta(d, c[n - 1]).unwrap() },
        ),
        forall|i: int|
            0 <= i < n - 1 ==> m_meta(m_cut_after(d, c[n - 1]).0, #[trigger] c[i]) == m_meta(
                d,
                c[i],
            ),
{
    reveal(m_cut_after);
    let at = c[n - 1];
    assert(m_meta(d, c[n - 1]) is Ok);
    let entry = m_meta(d, at).unwrap();
    let touched = set![at].union(c.skip(n).to_set());
    if n == c.len() {
        assert(entry.next == 0);
        assert(c.take(n) =~= c);
        assert(c.skip(n) + f =~= f);
        lemma_same_but_refl(d);
        lemma_changed_wider(d, d, Set::empty(), Set::empty(), touched, Set::empty());
    } else {
        let head = c.take(n);
        let tail = c.skip(n);
        assert(entry.next == c[n]);
        lemma_read_nonzero(d, c[n]);
        let ended = Sector { next: 0, ..entry };
        lemma_set_meta_same_but(d, at, ended);
        let d1 = m_set_meta(d, at, ended).0;
        lemma_linked_skip(d, c, n);
        assert forall|i: int| 0 <= i < tail.len() implies !set![at].contains(#[trigger] tail[i]) by {
            assert(tail[i] == c[i + n]);
        }
        lemma_linked_kept(d, d1, set![at], Set::empty(), tail);
        assert forall|i: int| 0 <= i < f.len() implies !set![at].contains(#[trigger] f[i]) by {
        }
        lemma_free_list_kept(d, d1, set![at], Set::empty(), f);
        assert forall|i: int, j: int| 0 <= i < tail.len() && 0 <= j < f.len() implies tail[i]
            != f[j] by {
            assert(tail[i] == c[i + n]);
        }
        assert(tail[0] == c[n]);
        law_free_chain_prepends(d1, tail, f);
        let d2 = m_free_chain(d1, tail[0]).0;
        assert(m_cut_after(d, at) == (d2, Ok::<(), ErrorKind>(())));
        lemma_same_but_trans(d, d1, d2, set![at], tail.to_set());
        assert forall|i: int| 0 <= i < head.len() implies m_meta(d2, #[trigger] head[i]) == m_meta(
            d1,
            head[i],
        ) by {
            assert(!tail.to_set().contains(head[i])) by {
                if tail.contains(head[i]) {
                    let j = choose|j: int| 0 <= j < tail.len() && tail[j] == head[i];
                    assert(head[i] != tail[j]);
                }
            }
            lemma_changed_meta(d1, d2, tail.to_set(), Set::empty(), head[i]);
        }
        assert forall|i: int| 0 <= i < head.len() implies (m_meta(d2, #[trigger] head[i]) is Ok
            && m_meta(d2, head[i]).unwrap().next == (if i + 1 < head.len() {
            head[i + 1]
        } else {
            0
        })) by {
            assert(head[i] == c[i]);
            if i < n - 1 {
                assert(c[i] != at);
                lemma_changed_meta(d, d1, set![at], Set::empty(), c[i]);
                assert(head[i + 1] == c[i + 1]);
            }
        }
        assert forall|i: int| 0 <= i < n - 1 implies m_meta(d2, #[trigger] c[i]) == m_meta(
            d,
            c[i],
        ) by {
            assert(head[i] == c[i]);
            assert(c[i] != at);
            lemma_changed_meta(d, d1, set![at], Set::empty(), c[i]);
        }
        assert(head[n - 1] == at);
        assert forall|i: int, j: int|
            0 <= i < head.len() && 0 <= j < (tail + f).len() implies head[i] != (tail + f)[j] by {
            assert(head[i] == c[i]);
            if j < tail.len() {
                assert((tail + f)[j] == tail[j]);
            } else {
                assert((tail + f)[j] == f[j - tail.len()]);
            }
        }
    }
    if n == c.len() {
        assert forall|i: int, j: int|
            0 <= i < c.take(n).len() && 0 <= j < (c.skip(n) + f).len() implies c.take(n)[i] != (
            c.skip(n) + f)[j] by {
            assert(c.take(n)[i] == c[i]);
            assert((c.skip(n) + f)[j] == f[j]);
        }
    }
}

/// A sector with a table entry is not sector 0.
pub proof fn lemma_read_nonzero(d: Disk, addr: u64)
    requires
        m_meta(d, addr) is Ok,
    ensures
        addr != 0,
{
    let root = m_root(d).unwrap();
    assert(root.locate(addr) is Some);
}

/// A sector of a chain is not among the sectors behind it.
pub proof fn lemma_not_in_later(c: Seq<u64>, i: int, n: int)
    requires
        c.no_duplicates(),
        0 <= i < n <= c.len(),
    ensures
        !c.subrange(i + 1, n).to_set().contains(c[i]),
{
    let later = c.subrange(i + 1, n);
    if later.contains(c[i]) {
        let m = choose|m: int| 0 <= m < later.len() && later[m] == c[i];
        assert(c[m + i + 1] == c[i]);
    }
}

/// The sectors of a part of a chain are its first sector and the sectors of the rest of
/// the part.
pub proof fn lemma_subrange_set(c: Seq<u64>, i: int, n: int)
    requires
        0 <= i < n <= c.len(),
    ensures
        set![c[i]].union(c.subrange(i + 1, n).to_set()) == c.subrange(i, n).to_set(),
{
    let part = c.subrange(i, n);
    crate::ffat::chains::lemma_to_set_split(part);
    assert(part.drop_first() =~= c.subrange(i + 1, n));
    assert(part[0] == c[i]);
}

/// The first `k` sectors of a list are its first sector and the first `k - 1` of the rest.
pub proof fn lemma_take_set(f: Seq<u64>, k: int)
    requires
        1 <= k <= f.len(),
    ensures
        set![f[0]].union(f.drop_first().take(k - 1).to_set()) == f.take(k).to_set(),
{
    let part = f.take(k);
    crate::ffat::chains::lemma_to_set_split(part);
    assert(part.drop_first() =~= f.drop_first().take(k - 1));
    assert(part[0] == f[0]);
}

} // verus!
