use vstd::prelude::*;
use crate::error::ErrorKind;
use crate::ffat::chains::{
    changed, disjoint, free_list, lemma_block_same_but, lemma_changed_block, lemma_changed_shape,
    lemma_changed_trans, lemma_changed_wider, lemma_free_list_kept, lemma_linked_kept,
    lemma_linked_short, linked,
};
use crate::ffat::content::{content, lemma_content_index, lemma_content_len};
use crate::ffat::growth::{
    lemma_cut_after, lemma_extend, lemma_not_in_later, lemma_read_nonzero, lemma_subrange_set,
    lemma_take_set,
};
use crate::ffat::model::{
    chunk, chunk_count, data_entry, disk_wf, m_cut_after, m_extend, m_meta, m_write_chunks,
    m_write_payload, Disk,
};
use crate::ffat::structs::Sector;

verus! {

/// Whether two table entries say the same of what a sector is used for and of the size.
pub open spec fn same_use(a: Sector, b: Sector) -> bool {
    a.sector_type == b.sector_type && a.size == b.size
}

/// The number of sectors that a chain of `have` sectors lacks to hold `n` sectors.
pub open spec fn lacking(have: nat, n: nat) -> nat {
    if n > have {
        (n - have) as nat
    } else {
        0
    }
}

/// Whether `c` is a chain and `f` the free list of the volume, and the two share no sector.
#[verifier::opaque]
pub open spec fn tidy(d: Disk, c: Seq<u64>, f: Seq<u64>) -> bool {
    disk_wf(d) && linked(d, c) && free_list(d, f) && disjoint(c, f)
}

/// Each sector of a chain has a table entry, whose successor is the next sector of the
/// chain, and none where the chain ends.
pub proof fn lemma_tidy_at(d: Disk, c: Seq<u64>, f: Seq<u64>, i: int)
    requires
        tidy(d, c, f),
        0 <= i < c.len(),
    ensures
        m_meta(d, c[i]) is Ok,
        m_meta(d, c[i]).unwrap().next == (if i + 1 < c.len() {
            c[i + 1]
        } else {
            0
        }),
        i + 1 < c.len() ==> c[i + 1] != 0,
        c.len() <= d.len(),
        c.no_duplicates(),
        disk_wf(d),
{
    reveal(tidy);
    lemma_linked_short(d, c);
    if i + 1 < c.len() {
        assert(m_meta(d, c[i + 1]) is Ok);
        lemma_read_nonzero(d, c[i + 1]);
    }
}

/// Writing a sector of a chain changes the contents of that sector and nothing else.
pub proof fn lemma_tidy_block(d: Disk, c: Seq<u64>, f: Seq<u64>, i: int, block: Seq<u8>)
    requires
        tidy(d, c, f),
        0 <= i < c.len(),
        block.len() == 4096,
    ensures
        tidy(d.update(c[i] as int, block), c, f),
        changed(d, d.update(c[i] as int, block), Set::empty(), set![c[i]]),
        d.update(c[i] as int, block)[c[i] as int] == block,
        forall|j: int|
            0 <= j < c.len() ==> m_meta(d.update(c[i] as int, block), #[trigger] c[j]) == m_meta(
                d,
                c[j],
            ),
{
    reveal(tidy);
    let at = c[i];
    assert(m_meta(d, c[i]) is Ok);
    lemma_block_same_but(d, at, block);
    let d1 = d.update(at as int, block);
    lemma_linked_kept(d, d1, Set::empty(), set![at], c);
    lemma_free_list_kept(d, d1, Set::empty(), set![at], f);
}

/// Putting a fresh sector behind a chain takes it from the front of the free list.
pub proof fn lemma_tidy_extend(d: Disk, c: Seq<u64>, f: Seq<u64>)
    requires
        tidy(d, c, f),
        f.len() >= 2,
    ensures
        m_extend(d, c.last()).1 == Ok::<u64, ErrorKind>(f[0]),
        tidy(m_extend(d, c.last()).0, c.push(f[0]), f.drop_first()),
        changed(d, m_extend(d, c.last()).0, set![c.last(), f[0]], Set::empty()),
        forall|j: int|
            0 <= j < c.len() ==> same_use(
                m_meta(m_extend(d, c.last()).0, #[trigger] c[j]).unwrap(),
                m_meta(d, c[j]).unwrap(),
            ),
        same_use(m_meta(m_extend(d, c.last()).0, f[0]).unwrap(), data_entry()),
{
    reveal(tidy);
    lemma_extend(d, c, f);
    let dx = m_extend(d, c.last()).0;
    assert forall|j: int| 0 <= j < c.len() implies same_use(
        m_meta(dx, #[trigger] c[j]).unwrap(),
        m_meta(d, c[j]).unwrap(),
    ) by {
        if j < c.len() - 1 {
            assert(m_meta(dx, c[j]) == m_meta(d, c[j]));
        } else {
            assert(c[j] == c.last());
        }
    }
}

/// What writing sectors `i` to `n - 1` of a payload along the chain `c` comes to, where
/// `f` is the free list: the sectors of the chain from its sector `i` on hold the payload,
/// and where the chain ended too early, what was lacking came from the front of the free
/// list, as data sectors. Of the table, only the entries of the old last sector and of the
/// sectors that were taken are touched.
pub open spec fn chunks_written(
    d: Disk,
    c: Seq<u64>,
    f: Seq<u64>,
    bytes: Seq<u8>,
    i: int,
    n: int,
    d2: Disk,
    r: Result<u64, ErrorKind>,
) -> bool {
    let k = lacking(c.len(), n as nat) as int;
    let c2 = c + f.take(k);
    let f2 = f.skip(k);
    &&& r == Ok::<u64, ErrorKind>(c2[n - 1])
    &&& tidy(d2, c2, f2)
    &&& changed(d, d2, set![c.last()].union(f.take(k).to_set()), c2.subrange(i, n).to_set())
    &&& forall|j: int| i <= j < n ==> d2[#[trigger] c2[j] as int] == chunk(bytes, j)
    &&& forall|j: int|
        0 <= j < c.len() ==> same_use(m_meta(d2, #[trigger] c[j]).unwrap(), m_meta(d, c[j]).unwrap())
    &&& forall|j: int|
        c.len() <= j < c2.len() ==> same_use(m_meta(d2, #[trigger] c2[j]).unwrap(), data_entry())
}

/// The last sector of a payload is written into the chain.
proof fn lemma_chunks_last(d: Disk, c: Seq<u64>, f: Seq<u64>, bytes: Seq<u8>, i: int, n: int)
    requires
        tidy(d, c, f),
        0 <= i < n,
        i < c.len(),
        i + 1 >= n,
    ensures
        chunks_written(
            d,
            c,
            f,
            bytes,
            i,
            n,
            d.update(c[i] as int, chunk(bytes, i)),
            Ok::<u64, ErrorKind>(c[i]),
        ),
{
    let at = c[i];
    let d1 = d.update(at as int, chunk(bytes, i));
    lemma_tidy_block(d, c, f, i, chunk(bytes, i));
    let k = lacking(c.len(), n as nat) as int;
    assert(k == 0);
    assert(c + f.take(k) =~= c);
    assert(f.skip(k) =~= f);
    assert(c.subrange(i, n) =~= seq![at]);
    assert(seq![at].to_set() =~= set![at]) by {
        assert(seq![at][0] == at);
        assert forall|x: u64| seq![at].to_set().contains(x) == set![at].contains(x) by {
            if x == at {
                assert(seq![at][0] == x);
            }
        }
    }
    lemma_changed_wider(
        d,
        d1,
        Set::empty(),
        set![at],
        set![c.last()].union(f.take(k).to_set()),
        set![at],
    );
}

/// A sector of a payload is written into the chain, and the rest behind it.
proof fn lemma_chunks_step(
    d: Disk,
    c: Seq<u64>,
    f: Seq<u64>,
    bytes: Seq<u8>,
    i: int,
    n: int,
    d2: Disk,
    r: Result<u64, ErrorKind>,
)
    requires
        tidy(d, c, f),
        0 <= i,
        i + 1 < n,
        i + 1 < c.len(),
        lacking(c.len(), n as nat) == 0 || lacking(c.len(), n as nat) < f.len(),
        chunks_written(d.update(c[i] as int, chunk(bytes, i)), c, f, bytes, i + 1, n, d2, r),
    ensures
        chunks_written(d, c, f, bytes, i, n, d2, r),
{
    let at = c[i];
    let d1 = d.update(at as int, chunk(bytes, i));
    lemma_tidy_block(d, c, f, i, chunk(bytes, i));
    let k = lacking(c.len(), n as nat) as int;
    let c2 = c + f.take(k);
    let f2 = f.skip(k);
    let metas = set![c.last()].union(f.take(k).to_set());
    let later = c2.subrange(i + 1, n).to_set();
    lemma_changed_trans(d, d1, d2, Set::empty(), set![at], metas, later);
    assert(Set::<u64>::empty().union(metas) =~= metas);
    lemma_tidy_at(d2, c2, f2, 0);
    lemma_subrange_set(c2, i, n);
    assert(c2[i] == at);
    assert forall|j: int| i <= j < n implies d2[#[trigger] c2[j] as int] == chunk(bytes, j) by {
        if j == i {
            lemma_not_in_later(c2, i, n);
            lemma_tidy_at(d1, c, f, i);
            lemma_changed_block(d1, d2, metas, later, at);
        }
    }
    assert forall|j: int| 0 <= j < c.len() implies same_use(
        m_meta(d2, #[trigger] c[j]).unwrap(),
        m_meta(d, c[j]).unwrap(),
    ) by {
        assert(same_use(m_meta(d2, c[j]).unwrap(), m_meta(d1, c[j]).unwrap()));
        assert(m_meta(d1, c[j]) == m_meta(d, c[j]));
    }
}

/// A sector of a payload is written into the last sector of the chain, and the rest into
/// sectors from the free list.
proof fn lemma_chunks_grow(
    d: Disk,
    c: Seq<u64>,
    f: Seq<u64>,
    bytes: Seq<u8>,
    i: int,
    n: int,
    d2: Disk,
    r: Result<u64, ErrorKind>,
)
    requires
        tidy(d, c, f),
        0 <= i,
        i == c.len() - 1,
        i + 1 < n,
        lacking(c.len(), n as nat) < f.len(),
        chunks_written(
            m_extend(d.update(c[i] as int, chunk(bytes, i)), c[i]).0,
            c.push(f[0]),
            f.drop_first(),
            bytes,
            i + 1,
            n,
            d2,
            r,
        ),
    ensures
        chunks_written(d, c, f, bytes, i, n, d2, r),
{
    let at = c[i];
    let d1 = d.update(at as int, chunk(bytes, i));
    lemma_tidy_block(d, c, f, i, chunk(bytes, i));
    let k = lacking(c.len(), n as nat) as int;
    let c2 = c + f.take(k);
    let f2 = f.skip(k);
    assert(c.last() == at);
    lemma_tidy_extend(d1, c, f);
    let dx = m_extend(d1, at).0;
    let cx = c.push(f[0]);
    let fx = f.drop_first();
    let kx = k - 1;
    assert(lacking(cx.len(), n as nat) == kx);
    assert(cx + fx.take(kx) =~= c2);
    assert(fx.skip(kx) =~= f2);
    assert(cx.last() == f[0]);
    let metas_x = set![f[0]].union(fx.take(kx).to_set());
    let later = c2.subrange(i + 1, n).to_set();
    let metas = set![at].union(f.take(k).to_set());
    lemma_changed_trans(d1, dx, d2, set![at, f[0]], Set::empty(), metas_x, later);
    lemma_changed_trans(
        d,
        d1,
        d2,
        Set::empty(),
        set![at],
        set![at, f[0]].union(metas_x),
        Set::<u64>::empty().union(later),
    );
    lemma_take_set(f, k);
    assert(Set::<u64>::empty().union(set![at, f[0]].union(metas_x)) =~= metas);
    lemma_tidy_at(d2, c2, f2, 0);
    lemma_subrange_set(c2, i, n);
    assert(Set::<u64>::empty().union(later) =~= later);
    assert(c2[i] == at);
    assert forall|j: int| i <= j < n implies d2[#[trigger] c2[j] as int] == chunk(bytes, j) by {
        if j == i {
            lemma_not_in_later(c2, i, n);
            lemma_tidy_at(d1, c, f, i);
            lemma_changed_block(d1, dx, set![at, f[0]], Set::empty(), at);
            lemma_changed_shape(d1, dx, set![at, f[0]], Set::empty());
            lemma_tidy_at(dx, cx, fx, i);
            lemma_changed_block(dx, d2, metas_x, later, at);
        }
    }
    assert forall|j: int| 0 <= j < c.len() implies same_use(
        m_meta(d2, #[trigger] c[j]).unwrap(),
        m_meta(d, c[j]).unwrap(),
    ) by {
        assert(cx[j] == c[j]);
        assert(same_use(m_meta(d2, cx[j]).unwrap(), m_meta(dx, cx[j]).unwrap()));
        assert(same_use(m_meta(dx, c[j]).unwrap(), m_meta(d1, c[j]).unwrap()));
        assert(m_meta(d1, c[j]) == m_meta(d, c[j]));
    }
    assert forall|j: int| c.len() <= j < c2.len() implies same_use(
        m_meta(d2, #[trigger] c2[j]).unwrap(),
        data_entry(),
    ) by {
        if j == c.len() {
            assert(c2[j] == cx[j]);
            assert(c2[j] == f[0]);
            assert(same_use(m_meta(d2, cx[j]).unwrap(), m_meta(dx, cx[j]).unwrap()));
        }
    }
}

/// Writing sectors `i` to `n - 1` of a payload along a chain fills the sectors of the chain
/// from its sector `i` on, and where the chain ends too early, takes what is lacking from
/// the front of the free list.
pub proof fn lemma_write_chunks(d: Disk, c: Seq<u64>, f: Seq<u64>, bytes: Seq<u8>, i: int, n: int)
    requires
        tidy(d, c, f),
        0 <= i < n,
        i < c.len(),
        lacking(c.len(), n as nat) == 0 || lacking(c.len(), n as nat) < f.len(),
    ensures
        chunks_written(
            d,
            c,
            f,
            bytes,
            i,
            n,
            m_write_chunks(d, c[i], bytes, i as nat, n as nat).0,
            m_write_chunks(d, c[i], bytes, i as nat, n as nat).1,
        ),
    decreases n - i,
{
    reveal(m_write_chunks);
    lemma_tidy_at(d, c, f, i);
    let at = c[i];
    let d1 = d.update(at as int, chunk(bytes, i));
    if i + 1 >= n {
        lemma_chunks_last(d, c, f, bytes, i, n);
    } else if i + 1 < c.len() {
        lemma_tidy_block(d, c, f, i, chunk(bytes, i));
        lemma_write_chunks(d1, c, f, bytes, i + 1, n);
        let (d2, r) = m_write_chunks(d1, c[i + 1], bytes, (i + 1) as nat, n as nat);
        lemma_chunks_step(d, c, f, bytes, i, n, d2, r);
    } else {
        lemma_tidy_block(d, c, f, i, chunk(bytes, i));
        assert(c.last() == at);
        lemma_tidy_extend(d1, c, f);
        let dx = m_extend(d1, at).0;
        let cx = c.push(f[0]);
        let fx = f.drop_first();
        lemma_write_chunks(dx, cx, fx, bytes, i + 1, n);
        assert(cx[i + 1] == f[0]);
        let (d2, r) = m_write_chunks(dx, f[0], bytes, (i + 1) as nat, n as nat);
        lemma_chunks_grow(d, c, f, bytes, i, n, d2, r);
    }
}

/// Ending a chain behind its first `n` sectors puts the rest in front of the free list.
pub proof fn lemma_tidy_cut(d: Disk, c: Seq<u64>, f: Seq<u64>, n: int)
    requires
        tidy(d, c, f),
        1 <= n <= c.len(),
    ensures
        m_cut_after(d, c[n - 1]).1 == Ok::<(), ErrorKind>(()),
        tidy(m_cut_after(d, c[n - 1]).0, c.take(n), c.skip(n) + f),
        changed(
            d,
            m_cut_after(d, c[n - 1]).0,
            set![c[n - 1]].union(c.skip(n).to_set()),
            Set::empty(),
        ),
        forall|j: int|
            0 <= j < n ==> same_use(
                m_meta(m_cut_after(d, c[n - 1]).0, #[trigger] c[j]).unwrap(),
                m_meta(d, c[j]).unwrap(),
            ),
{
    reveal(tidy);
    lemma_cut_after(d, c, f, n);
    let d2 = m_cut_after(d, c[n - 1]).0;
    assert forall|j: int| 0 <= j < n implies same_use(
        m_meta(d2, #[trigger] c[j]).unwrap(),
        m_meta(d, c[j]).unwrap(),
    ) by {
        if j < n - 1 {
            assert(m_meta(d2, c[j]) == m_meta(d, c[j]));
        }
    }
}

/// The contents of a chain whose sectors hold the sectors of a payload begin with the
/// payload.
pub proof fn lemma_chunks_content(d: Disk, c: Seq<u64>, bytes: Seq<u8>, n: int)
    requires
        disk_wf(d),
        forall|i: int| 0 <= i < c.len() ==> (#[trigger] c[i]) < d.len(),
        n == chunk_count(bytes.len()),
        n <= c.len(),
        forall|j: int| 0 <= j < n ==> d[#[trigger] c[j] as int] == chunk(bytes, j),
    ensures
        content(d, c, n).take(bytes.len() as int) == bytes,
{
    lemma_content_len(d, c, 0, n);
    let front = content(d, c, n).take(bytes.len() as int);
    assert(bytes.len() <= 4096 * n);
    assert forall|b: int| 0 <= b < bytes.len() implies front[b] == bytes[b] by {
        lemma_content_index(d, c, 0, n, b);
        let j = b / 4096;
        assert(0 <= j < n);
        assert(d[c[j] as int] == chunk(bytes, j));
        assert(4096 * j + b % 4096 == b);
    }
    assert(front =~= bytes);
}

/// What writing a payload into the chain `c` comes to, where `f` is the free list: the
/// chain has exactly as many sectors as the payload takes, which hold the payload; what the
/// chain lacked came from the front of the free list, and what it had too many went to the
/// front of the free list.
pub open spec fn payload_written(d: Disk, c: Seq<u64>, f: Seq<u64>, bytes: Seq<u8>, d3: Disk) -> bool {
    let n = chunk_count(bytes.len()) as int;
    let k = lacking(c.len(), n as nat) as int;
    let c2 = c + f.take(k);
    let c3 = c2.take(n);
    let f3 = c2.skip(n) + f.skip(k);
    &&& tidy(d3, c3, f3)
    &&& changed(d, d3, c.to_set().union(f.take(k).to_set()), c3.to_set())
    &&& content(d3, c3, n).take(bytes.len() as int) == bytes
    &&& forall|j: int|
        0 <= j < c3.len() && j < c.len() ==> same_use(
            m_meta(d3, #[trigger] c3[j]).unwrap(),
            m_meta(d, c3[j]).unwrap(),
        )
    &&& forall|j: int|
        c.len() <= j < c3.len() ==> same_use(m_meta(d3, #[trigger] c3[j]).unwrap(), data_entry())
}

/// Writing a payload into a chain makes the chain as long as the payload needs and puts the
/// payload into it.
pub proof fn lemma_write_payload(d: Disk, c: Seq<u64>, f: Seq<u64>, bytes: Seq<u8>)
    requires
        tidy(d, c, f),
        bytes.len() >= 1,
        lacking(c.len(), chunk_count(bytes.len())) == 0 || lacking(
            c.len(),
            chunk_count(bytes.len()),
        ) < f.len(),
    ensures
        m_write_payload(d, c[0], bytes).1 == Ok::<(), ErrorKind>(()),
        payload_written(d, c, f, bytes, m_write_payload(d, c[0], bytes).0),
{
    reveal(m_write_payload);
    let n = chunk_count(bytes.len()) as int;
    let k = lacking(c.len(), n as nat) as int;
    let c2 = c + f.take(k);
    let f2 = f.skip(k);
    lemma_tidy_bounds(d, c, f);
    lemma_tidy_at(d, c, f, 0);
    lemma_write_chunks(d, c, f, bytes, 0, n);
    let (d2, r2) = m_write_chunks(d, c[0], bytes, 0, n as nat);
    assert(r2 == Ok::<u64, ErrorKind>(c2[n - 1]));
    lemma_tidy_cut(d2, c2, f2, n);
    let d3 = m_cut_after(d2, c2[n - 1]).0;
    let c3 = c2.take(n);
    let f3 = c2.skip(n) + f2;
    let m1 = set![c.last()].union(f.take(k).to_set());
    let b1 = c2.subrange(0, n).to_set();
    let m2 = set![c2[n - 1]].union(c2.skip(n).to_set());
    lemma_changed_trans(d, d2, d3, m1, b1, m2, Set::empty());
    assert(c2.subrange(0, n) =~= c3);
    let metas = c.to_set().union(f.take(k).to_set());
    lemma_tidy_bounds(d, c, f);
    lemma_payload_sets(c, f.take(k), n);
    lemma_changed_wider(d, d3, m1.union(m2), b1.union(Set::empty()), metas, c3.to_set());
    lemma_payload_blocks(d2, d3, c2, f2, bytes, n, m2);
    lemma_payload_uses(d, d2, d3, c, c2, n);
}

/// What writing a payload touches of the table lies in the chain and in what is taken from
/// the free list.
proof fn lemma_payload_sets(c: Seq<u64>, taken: Seq<u64>, n: int)
    requires
        c.len() >= 1,
        1 <= n <= (c + taken).len(),
    ensures
        set![c.last()].union(taken.to_set()).union(
            set![(c + taken)[n - 1]].union((c + taken).skip(n).to_set()),
        ).subset_of(c.to_set().union(taken.to_set())),
{
    let c2 = c + taken;
    let all = set![c.last()].union(taken.to_set()).union(
        set![c2[n - 1]].union(c2.skip(n).to_set()),
    );
    let metas = c.to_set().union(taken.to_set());
    assert forall|x: u64| all.contains(x) implies metas.contains(x) by {
        lemma_in_concat(c, taken, x);
        if x == c.last() {
            assert(c[c.len() - 1] == x);
            assert(c.contains(x));
        }
        if x == c2[n - 1] {
            assert(c2.contains(x));
        }
        if c2.skip(n).to_set().contains(x) {
            let m = choose|m: int| 0 <= m < c2.skip(n).len() && c2.skip(n)[m] == x;
            assert(c2[m + n] == x);
            assert(c2.contains(x));
        }
    }
}

/// Cutting the chain behind the payload keeps the payload.
proof fn lemma_payload_blocks(
    d2: Disk,
    d3: Disk,
    c2: Seq<u64>,
    f2: Seq<u64>,
    bytes: Seq<u8>,
    n: int,
    m2: Set<u64>,
)
    requires
        tidy(d2, c2, f2),
        changed(d2, d3, m2, Set::empty()),
        n == chunk_count(bytes.len()),
        1 <= n <= c2.len(),
        forall|j: int| 0 <= j < n ==> d2[#[trigger] c2[j] as int] == chunk(bytes, j),
    ensures
        content(d3, c2.take(n), n).take(bytes.len() as int) == bytes,
{
    let c3 = c2.take(n);
    lemma_changed_shape(d2, d3, m2, Set::empty());
    lemma_tidy_bounds(d2, c2, f2);
    assert forall|j: int| 0 <= j < n implies d3[#[trigger] c3[j] as int] == chunk(bytes, j) by {
        assert(c3[j] == c2[j]);
        lemma_tidy_at(d2, c2, f2, j);
        lemma_changed_block(d2, d3, m2, Set::empty(), c2[j]);
    }
    assert forall|i: int| 0 <= i < c3.len() implies (#[trigger] c3[i]) < d3.len() by {
        assert(c3[i] == c2[i]);
    }
    lemma_chunks_content(d3, c3, bytes, n);
}

/// What the sectors of the chain are used for after a payload was written.
proof fn lemma_payload_uses(d: Disk, d2: Disk, d3: Disk, c: Seq<u64>, c2: Seq<u64>, n: int)
    requires
        1 <= n <= c2.len(),
        c.len() <= c2.len(),
        forall|j: int| 0 <= j < c.len() ==> c2[j] == c[j],
        forall|j: int|
            0 <= j < c.len() ==> same_use(
                m_meta(d2, #[trigger] c[j]).unwrap(),
                m_meta(d, c[j]).unwrap(),
            ),
        forall|j: int|
            c.len() <= j < c2.len() ==> same_use(
                m_meta(d2, #[trigger] c2[j]).unwrap(),
                data_entry(),
            ),
        forall|j: int|
            0 <= j < n ==> same_use(
                m_meta(d3, #[trigger] c2[j]).unwrap(),
                m_meta(d2, c2[j]).unwrap(),
            ),
    ensures
        forall|j: int|
            0 <= j < c2.take(n).len() && j < c.len() ==> same_use(
                m_meta(d3, #[trigger] c2.take(n)[j]).unwrap(),
                m_meta(d, c2.take(n)[j]).unwrap(),
            ),
        forall|j: int|
            c.len() <= j < c2.take(n).len() ==> same_use(
                m_meta(d3, #[trigger] c2.take(n)[j]).unwrap(),
                data_entry(),
            ),
{
    let c3 = c2.take(n);
    assert forall|j: int| 0 <= j < c3.len() && j < c.len() implies same_use(
        m_meta(d3, #[trigger] c3[j]).unwrap(),
        m_meta(d, c3[j]).unwrap(),
    ) by {
        assert(c3[j] == c2[j]);
        assert(c2[j] == c[j]);
        assert(same_use(m_meta(d3, c2[j]).unwrap(), m_meta(d2, c2[j]).unwrap()));
        assert(same_use(m_meta(d2, c[j]).unwrap(), m_meta(d, c[j]).unwrap()));
    }
    assert forall|j: int| c.len() <= j < c3.len() implies same_use(
        m_meta(d3, #[trigger] c3[j]).unwrap(),
        data_entry(),
    ) by {
        assert(c3[j] == c2[j]);
        assert(same_use(m_meta(d3, c2[j]).unwrap(), m_meta(d2, c2[j]).unwrap()));
        assert(same_use(m_meta(d2, c2[j]).unwrap(), data_entry()));
    }
}

/// What is in one of two lists is in the two together.
pub proof fn lemma_in_concat(a: Seq<u64>, b: Seq<u64>, x: u64)
    ensures
        (a + b).contains(x) == (a.contains(x) || b.contains(x)),
{
    let all = a + b;
    if a.contains(x) {
        let i = choose|i: int| 0 <= i < a.len() && a[i] == x;
        assert(all[i] == x);
    }
    if b.contains(x) {
        let i = choose|i: int| 0 <= i < b.len() && b[i] == x;
        assert(all[i + a.len()] == x);
    }
    if all.contains(x) {
        let i = choose|i: int| 0 <= i < all.len() && all[i] == x;
        if i < a.len() {
            assert(a[i] == x);
        } else {
            assert(b[i - a.len()] == x);
        }
    }
}

/// The sectors of a chain lie on the volume.
pub proof fn lemma_tidy_bounds(d: Disk, c: Seq<u64>, f: Seq<u64>)
    requires
        tidy(d, c, f),
    ensures
        forall|i: int| 0 <= i < c.len() ==> 2 <= (#[trigger] c[i]) < d.len(),
        c.len() >= 1,
{
    reveal(tidy);
    lemma_linked_short(d, c);
}

} // verus!
