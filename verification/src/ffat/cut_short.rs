use vstd::prelude::*;
use crate::error::ErrorKind;
use crate::ffat::chains::{
    changed, law_alloc_keeps_the_last, lemma_changed_block, lemma_changed_shape,
    lemma_changed_trans, lemma_changed_wider,
};
use crate::ffat::growth::{lemma_not_in_later, lemma_subrange_set, lemma_take_set};
use crate::ffat::layout::splice;
use crate::ffat::model::{m_extend, m_write, m_write_loop, min2, Disk};
use crate::ffat::payload::{
    lemma_tidy_at, lemma_tidy_block, lemma_tidy_bounds, lemma_tidy_extend, tidy,
};
use crate::ffat::scarce::law_write_runs_out;
use crate::ffat::stream::{lemma_write_loop, stream_written};
use crate::ffat::structs::{FileProgress, WriteProgress};

verus! {

/// Writing whole sectors and then the rest is writing all: where the bytes up to index `m`
/// fill whole sectors from the start of a sector on and can be written, writing all the
/// bytes goes on, after those, with the bytes from `m` on.
pub proof fn lemma_write_loop_prefix(d: Disk, p: FileProgress, data: Seq<u8>, i: int, m: int)
    requires
        0 <= i <= m <= data.len(),
        (m - i) % 4096 == 0,
        p.byte_offset % 4096 == 0,
        m_write_loop(d, p, data.take(m), i as nat).1 is Ok,
    ensures
        m_write_loop(d, p, data, i as nat) == m_write_loop(
            m_write_loop(d, p, data.take(m), i as nat).0,
            m_write_loop(d, p, data.take(m), i as nat).1.unwrap(),
            data,
            m as nat,
        ),
    decreases m - i,
{
    reveal(m_write_loop);
    let front = data.take(m);
    if i < m {
        assert(m - i >= 4096);
        assert(min2(4096 - 0, front.len() - i) == 4096);
        assert(min2(4096 - 0, data.len() - i) == 4096);
        assert(front.subrange(i, i + 4096) =~= data.subrange(i, i + 4096));
        let d1 = d.update(
            p.sector as int,
            splice(d[p.sector as int], 0, data.subrange(i, i + 4096)),
        );
        let moved = FileProgress { byte_offset: (p.byte_offset + 4096) as u64, ..p };
        let (d2, r2) = m_extend(d1, p.sector);
        let next = FileProgress { sector: r2.unwrap(), ..moved };
        assert((p.byte_offset + 4096) % 4096 == 0);
        assert((m - (i + 4096)) % 4096 == 0);
        lemma_write_loop_prefix(d2, next, data, i + 4096, m);
    }
}

/// A write from the start of a sector on that runs out of space fills the last sector of
/// the file and every sector of the free list but the last one, and changes nothing else.
pub proof fn lemma_cut_short_aligned(
    d: Disk,
    c: Seq<u64>,
    f: Seq<u64>,
    p: FileProgress,
    data: Seq<u8>,
    i: int,
)
    requires
        tidy(d, c, f),
        p.sector == c.last(),
        0 <= i <= data.len(),
        p.byte_offset % 4096 == 0,
        f.len() >= 1,
        (data.len() - i) / 4096 >= f.len(),
        p.byte_offset + (data.len() - i) <= u64::MAX,
    ensures
        m_write_loop(d, p, data, i as nat).1 == Err::<FileProgress, ErrorKind>(
            ErrorKind::NotEnoughSpace,
        ),
        tidy(m_write_loop(d, p, data, i as nat).0, c + f.take(f.len() - 1), f.skip(f.len() - 1)),
        changed(
            d,
            m_write_loop(d, p, data, i as nat).0,
            set![c.last()].union(f.take(f.len() - 1).to_set()),
            (c + f.take(f.len() - 1)).subrange(c.len() - 1, c.len() + f.len() - 1).to_set(),
        ),
        forall|j: int|
            0 <= j < f.len() ==> #[trigger] m_write_loop(d, p, data, i as nat).0[(c + f.take(
                f.len() - 1,
            ))[c.len() - 1 + j] as int] == data.subrange(i + 4096 * j, i + 4096 * j + 4096),
{
    law_write_runs_out(d, c, f, p, data, i);
    lemma_tidy_bounds(d, c, f);
    let k = f.len() - 1;
    let m = i + 4096 * k;
    let first = c.len() - 1;
    let front = data.take(m);
    let c2 = c + f.take(k);
    let f2 = f.skip(k);
    assert((front.len() - i) / 4096 == k && (m - i) % 4096 == 0) by {
        assert(front.len() - i == 4096 * k);
    }
    lemma_write_loop(d, c, f, p, front, i);
    let dk = m_write_loop(d, p, front, i as nat).0;
    let rk = m_write_loop(d, p, front, i as nat).1;
    assert(stream_written(d, c, f, p, front, i, dk, rk));
    let pk = rk.unwrap();
    lemma_write_loop_prefix(d, p, data, i, m);
    lemma_tidy_bounds(dk, c2, f2);
    let last = c2.len() - 1;
    let at = c2[last];
    lemma_tidy_at(dk, c2, f2, last);
    let part = data.subrange(m, m + 4096);
    let block = splice(dk[at as int], 0, part);
    assert(dk[at as int].len() == 4096);
    assert(block =~= part);
    lemma_tidy_block(dk, c2, f2, last, block);
    let fin = dk.update(at as int, block);
    assert(m_extend(fin, at) == (fin, Err::<u64, ErrorKind>(ErrorKind::NotEnoughSpace))) by {
        reveal(m_extend);
        reveal(tidy);
        law_alloc_keeps_the_last(fin, f2);
    }
    assert(m_write_loop(dk, pk, data, m as nat) == (
        fin,
        Err::<FileProgress, ErrorKind>(ErrorKind::NotEnoughSpace),
    )) by {
        reveal(m_write_loop);
        assert(min2(4096 - 0, data.len() - m) == 4096);
    }
    let metas = set![c.last()].union(f.take(k).to_set());
    let blocks = c2.subrange(first, c2.len() as int).to_set();
    lemma_changed_trans(d, dk, fin, metas, blocks, Set::empty(), set![at]);
    assert(blocks.contains(at)) by {
        assert(c2.subrange(first, c2.len() as int)[last - first] == at);
    }
    lemma_changed_wider(d, fin, metas.union(Set::empty()), blocks.union(set![at]), metas, blocks);
    assert forall|j: int| 0 <= j < f.len() implies #[trigger] fin[c2[first + j] as int]
        == data.subrange(i + 4096 * j, i + 4096 * j + 4096) by {
        if j < k {
            assert(c2[first + j] != at);
            assert(min2(4096, 4096 * k - 4096 * j) == 4096);
            assert(dk[c2[first + j] as int].take(4096) =~= dk[c2[first + j] as int]);
            assert(front.subrange(i + 4096 * j, i + 4096 * j + 4096) =~= data.subrange(
                i + 4096 * j,
                i + 4096 * j + 4096,
            ));
        }
    }
}

/// A write that runs out of space keeps what it wrote before. Writing at the end of a
/// file, where the bytes fill as many sectors to their end as the free list has sectors, or
/// more, fails for want of space after it has filled the last sector of the file and every
/// sector of the free list but the last one. Those sectors are behind the file in its chain
/// and hold the first bytes of the data: the last sector of the file from the position on,
/// and each of the others as a whole. But for them, their table entries and that of the old
/// last sector the volume is as it was: the size of the file, too.
pub proof fn law_write_cut_short(
    d: Disk,
    c: Seq<u64>,
    f: Seq<u64>,
    p: FileProgress,
    data: Seq<u8>,
    i: int,
)
    requires
        tidy(d, c, f),
        p.sector == c.last(),
        0 <= i <= data.len(),
        f.len() >= 1,
        (p.byte_offset % 4096 + (data.len() - i)) / 4096 >= f.len(),
        p.byte_offset + (data.len() - i) <= u64::MAX,
    ensures
        m_write_loop(d, p, data, i as nat).1 == Err::<FileProgress, ErrorKind>(
            ErrorKind::NotEnoughSpace,
        ),
        i == 0 ==> m_write(d, WriteProgress(p), data) == (
            m_write_loop(d, p, data, 0).0,
            Err::<WriteProgress, ErrorKind>(ErrorKind::NotEnoughSpace),
        ),
        tidy(m_write_loop(d, p, data, i as nat).0, c + f.take(f.len() - 1), f.skip(f.len() - 1)),
        changed(
            d,
            m_write_loop(d, p, data, i as nat).0,
            set![c.last()].union(f.take(f.len() - 1).to_set()),
            (c + f.take(f.len() - 1)).subrange(c.len() - 1, c.len() + f.len() - 1).to_set(),
        ),
        m_write_loop(d, p, data, i as nat).0[c.last() as int] == splice(
            d[c.last() as int],
            p.byte_offset as int % 4096,
            data.subrange(i, i + 4096 - p.byte_offset % 4096),
        ),
        forall|j: int|
            1 <= j < f.len() ==> #[trigger] m_write_loop(d, p, data, i as nat).0[(c + f.take(
                f.len() - 1,
            ))[c.len() - 1 + j] as int] == data.subrange(
                i + 4096 * j - p.byte_offset % 4096,
                i + 4096 * j - p.byte_offset % 4096 + 4096,
            ),
{
    law_write_runs_out(d, c, f, p, data, i);
    assert(i == 0 ==> m_write(d, WriteProgress(p), data) == (
        m_write_loop(d, p, data, 0).0,
        Err::<WriteProgress, ErrorKind>(ErrorKind::NotEnoughSpace),
    )) by {
        reveal(m_write);
    }
    lemma_tidy_bounds(d, c, f);
    let first = c.len() - 1;
    let at = c[first];
    lemma_tidy_at(d, c, f, first);
    let off = p.byte_offset as int % 4096;
    let rest = data.len() - i;
    let take = 4096 - off;
    let k = f.len() - 1;
    let c2 = c + f.take(k);
    let f2 = f.skip(k);
    assert(rest >= take);
    assert(d[at as int].len() == 4096);
    let part = data.subrange(i, i + take);
    let block = splice(d[at as int], off, part);
    assert(c2[first] == at);
    if off == 0 {
        lemma_cut_short_aligned(d, c, f, p, data, i);
        assert(block =~= part);
        let fin = m_write_loop(d, p, data, i as nat).0;
        assert(fin[c2[first + 0] as int] == data.subrange(i + 4096 * 0, i + 4096 * 0 + 4096));
        assert(fin[at as int] == block);
    } else {
        lemma_tidy_block(d, c, f, first, block);
        let d1 = d.update(at as int, block);
        let fin = m_write_loop(d, p, data, i as nat).0;
        let metas = set![at].union(f.take(k).to_set());
        let blocks = c2.subrange(first, c2.len() as int).to_set();
        lemma_subrange_set(c2, first, c2.len() as int);
        if f.len() == 1 {
            assert(m_extend(d1, at) == (d1, Err::<u64, ErrorKind>(ErrorKind::NotEnoughSpace))) by {
                reveal(m_extend);
                reveal(tidy);
                law_alloc_keeps_the_last(d1, f);
            }
            assert(fin == d1) by {
                reveal(m_write_loop);
                assert(min2(4096 - off, rest) == take);
            }
            assert(c2 =~= c);
            assert(f2 =~= f);
            lemma_changed_wider(d, fin, Set::empty(), set![at], metas, blocks);
            assert(fin[at as int] == block);
        } else {
            lemma_tidy_extend(d1, c, f);
            let dx = m_extend(d1, at).0;
            let cx = c.push(f[0]);
            let fx = f.drop_first();
            let px = FileProgress { sector: f[0], byte_offset: (p.byte_offset + take) as u64, ..p };
            assert((p.byte_offset + take) % 4096 == 0);
            assert((rest - take) / 4096 == (off + rest) / 4096 - 1);
            assert(fin == m_write_loop(dx, px, data, (i + take) as nat).0) by {
                reveal(m_write_loop);
                assert(min2(4096 - off, rest) == take);
            }
            lemma_cut_short_aligned(dx, cx, fx, px, data, i + take);
            let kx = k - 1;
            assert(cx + fx.take(kx) =~= c2);
            assert(fx.skip(kx) =~= f2);
            assert(cx.last() == f[0]);
            let metas_x = set![f[0]].union(fx.take(kx).to_set());
            let later = c2.subrange(first + 1, c2.len() as int).to_set();
            assert(changed(dx, fin, metas_x, later));
            lemma_changed_trans(d1, dx, fin, set![at, f[0]], Set::empty(), metas_x, later);
            lemma_changed_trans(
                d,
                d1,
                fin,
                Set::empty(),
                set![at],
                set![at, f[0]].union(metas_x),
                Set::<u64>::empty().union(later),
            );
            lemma_take_set(f, k);
            assert(Set::<u64>::empty().union(set![at, f[0]].union(metas_x)) =~= metas);
            assert(set![at].union(Set::<u64>::empty().union(later)) =~= blocks);
            lemma_tidy_at(fin, c2, f2, 0);
            assert(fin[at as int] == block) by {
                lemma_not_in_later(c2, first, c2.len() as int);
                lemma_tidy_at(d1, c, f, first);
                lemma_changed_block(d1, dx, set![at, f[0]], Set::empty(), at);
                lemma_changed_shape(d1, dx, set![at, f[0]], Set::empty());
                lemma_tidy_at(dx, cx, fx, first);
                lemma_changed_block(dx, fin, metas_x, later, at);
            }
            assert forall|j: int| 1 <= j < f.len() implies #[trigger] fin[c2[first + j] as int]
                == data.subrange(i + 4096 * j - off, i + 4096 * j - off + 4096) by {
                let jx = j - 1;
                assert((cx + fx.take(kx))[cx.len() - 1 + jx] == c2[first + j]);
                assert(i + take + 4096 * jx == i + 4096 * j - off);
            }
        }
    }
}

} // verus!
