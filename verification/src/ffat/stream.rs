use vstd::prelude::*;
use crate::error::ErrorKind;
use crate::ffat::chains::{
    changed, lemma_changed_block, lemma_changed_shape, lemma_changed_trans, lemma_changed_wider,
    lemma_same_but_refl,
};
use crate::ffat::chains::{lemma_linked_short, linked};
use crate::ffat::content::{content, lemma_content_index, lemma_content_len};
use crate::ffat::dirwrite::lemma_tidy_set_use;
use crate::ffat::growth::{lemma_not_in_later, lemma_subrange_set, lemma_take_set};
use crate::ffat::layout::splice;
use crate::ffat::model::{
    data_entry, disk_wf, m_extend, m_meta, m_read, m_read_loop, m_set_meta, m_write,
    m_write_loop, min2, Disk,
};
use crate::ffat::payload::{
    lemma_tidy_at, lemma_tidy_block, lemma_tidy_bounds, lemma_tidy_extend, same_use, tidy,
};
use crate::ffat::structs::{FileProgress, ReadProgress, Sector, SectorType, WriteProgress};

verus! {

/// What writing the bytes of `data` from index `i` on comes to, at the start of the last
/// sector of the chain `c`, where `f` is the free list: every 4096 bytes fill a sector and
/// take the next one from the front of the free list, and the rest lies at the start of
/// the last sector. Of the table, only the entries of the old last sector and of the
/// sectors that were taken are touched.
pub open spec fn stream_written(
    d: Disk,
    c: Seq<u64>,
    f: Seq<u64>,
    p: FileProgress,
    data: Seq<u8>,
    i: int,
    d2: Disk,
    r: Result<FileProgress, ErrorKind>,
) -> bool {
    let rest = data.len() - i;
    let k = rest / 4096;
    let c2 = c + f.take(k);
    let f2 = f.skip(k);
    let first = c.len() - 1;
    &&& r == Ok::<FileProgress, ErrorKind>(
        FileProgress { head: p.head, sector: c2.last(), byte_offset: (p.byte_offset + rest) as u64 },
    )
    &&& tidy(d2, c2, f2)
    &&& changed(d, d2, set![c.last()].union(f.take(k).to_set()), c2.subrange(first, c2.len() as int).to_set())
    &&& forall|j: int|
        0 <= j <= k ==> (#[trigger] d2[c2[first + j] as int]).take(min2(4096, rest - 4096 * j))
            == data.subrange(i + 4096 * j, i + 4096 * j + min2(4096, rest - 4096 * j))
    &&& forall|j: int|
        0 <= j < c.len() ==> same_use(m_meta(d2, #[trigger] c[j]).unwrap(), m_meta(d, c[j]).unwrap())
    &&& forall|j: int|
        c.len() <= j < c2.len() ==> same_use(m_meta(d2, #[trigger] c2[j]).unwrap(), data_entry())
}

/// The set of the sectors of a list of one sector.
proof fn lemma_single_set(at: u64)
    ensures
        seq![at].to_set() == set![at],
{
    assert(seq![at][0] == at);
    assert forall|x: u64| seq![at].to_set().contains(x) == set![at].contains(x) by {
        if x == at {
            assert(seq![at][0] == x);
        }
    }
    assert(seq![at].to_set() =~= set![at]);
}

/// Nothing is left to write.
proof fn lemma_stream_done(d: Disk, c: Seq<u64>, f: Seq<u64>, p: FileProgress, data: Seq<u8>, i: int)
    requires
        tidy(d, c, f),
        p.sector == c.last(),
        i == data.len(),
    ensures
        stream_written(d, c, f, p, data, i, d, Ok::<FileProgress, ErrorKind>(p)),
{
    lemma_tidy_bounds(d, c, f);
    lemma_tidy_at(d, c, f, 0);
    assert(c + f.take(0) =~= c);
    assert(f.skip(0) =~= f);
    assert(disk_wf(d) && crate::ffat::model::m_root(d) is Ok) by {
        reveal(tidy);
    }
    lemma_same_but_refl(d);
    lemma_changed_wider(
        d,
        d,
        Set::empty(),
        Set::empty(),
        set![c.last()].union(f.take(0).to_set()),
        c.subrange(c.len() - 1, c.len() as int).to_set(),
    );
    let first = c.len() - 1;
    assert forall|j: int| 0 <= j <= 0 implies (#[trigger] d[c[first + j] as int]).take(
        min2(4096, 0 - 4096 * j),
    ) == data.subrange(i + 4096 * j, i + 4096 * j + min2(4096, 0 - 4096 * j)) by {
        assert(d[c[first] as int].take(0) =~= data.subrange(i, i));
    }
}

/// The rest fits the last sector of the chain.
proof fn lemma_stream_last(d: Disk, c: Seq<u64>, f: Seq<u64>, p: FileProgress, data: Seq<u8>, i: int)
    requires
        tidy(d, c, f),
        p.sector == c.last(),
        0 <= i < data.len(),
        data.len() - i < 4096,
        p.byte_offset % 4096 == 0,
        p.byte_offset + (data.len() - i) <= u64::MAX,
    ensures
        stream_written(
            d,
            c,
            f,
            p,
            data,
            i,
            d.update(
                p.sector as int,
                splice(d[p.sector as int], 0, data.subrange(i, data.len() as int)),
            ),
            Ok::<FileProgress, ErrorKind>(
                FileProgress { byte_offset: (p.byte_offset + (data.len() - i)) as u64, ..p },
            ),
        ),
{
    lemma_tidy_bounds(d, c, f);
    let first = c.len() - 1;
    let at = c[first];
    lemma_tidy_at(d, c, f, first);
    let rest = data.len() - i;
    let part = data.subrange(i, data.len() as int);
    let block = splice(d[at as int], 0, part);
    assert(d[at as int].len() == 4096);
    lemma_tidy_block(d, c, f, first, block);
    let d1 = d.update(at as int, block);
    assert(c + f.take(0) =~= c);
    assert(f.skip(0) =~= f);
    assert(c.subrange(first, c.len() as int) =~= seq![at]);
    lemma_single_set(at);
    lemma_changed_wider(
        d,
        d1,
        Set::empty(),
        set![at],
        set![c.last()].union(f.take(0).to_set()),
        set![at],
    );
    assert forall|j: int| 0 <= j <= 0 implies (#[trigger] d1[c[first + j] as int]).take(
        min2(4096, rest - 4096 * j),
    ) == data.subrange(i + 4096 * j, i + 4096 * j + min2(4096, rest - 4096 * j)) by {
        assert(block.take(rest) =~= part);
    }
}

/// A sector is filled, and the rest goes into sectors from the free list.
proof fn lemma_stream_grow(
    d: Disk,
    c: Seq<u64>,
    f: Seq<u64>,
    p: FileProgress,
    data: Seq<u8>,
    i: int,
    d2: Disk,
    r: Result<FileProgress, ErrorKind>,
)
    requires
        tidy(d, c, f),
        p.sector == c.last(),
        0 <= i,
        data.len() - i >= 4096,
        (data.len() - i) / 4096 < f.len(),
        p.byte_offset % 4096 == 0,
        p.byte_offset + (data.len() - i) <= u64::MAX,
        stream_written(
            m_extend(
                d.update(
                    p.sector as int,
                    splice(d[p.sector as int], 0, data.subrange(i, i + 4096)),
                ),
                p.sector,
            ).0,
            c.push(f[0]),
            f.drop_first(),
            FileProgress { sector: f[0], byte_offset: (p.byte_offset + 4096) as u64, ..p },
            data,
            i + 4096,
            d2,
            r,
        ),
    ensures
        stream_written(d, c, f, p, data, i, d2, r),
{
    lemma_tidy_bounds(d, c, f);
    let first = c.len() - 1;
    let at = c[first];
    lemma_tidy_at(d, c, f, first);
    let rest = data.len() - i;
    let k = rest / 4096;
    let part = data.subrange(i, i + 4096);
    let block = splice(d[at as int], 0, part);
    assert(d[at as int].len() == 4096);
    assert(block =~= part);
    lemma_tidy_block(d, c, f, first, block);
    let d1 = d.update(at as int, block);
    lemma_tidy_extend(d1, c, f);
    let dx = m_extend(d1, at).0;
    let cx = c.push(f[0]);
    let fx = f.drop_first();
    let kx = k - 1;
    assert((rest - 4096) / 4096 == kx);
    let c2 = c + f.take(k);
    let f2 = f.skip(k);
    assert(cx + fx.take(kx) =~= c2);
    assert(fx.skip(kx) =~= f2);
    assert(cx.last() == f[0]);
    let metas_x = set![f[0]].union(fx.take(kx).to_set());
    let later = c2.subrange(first + 1, c2.len() as int).to_set();
    let metas = set![at].union(f.take(k).to_set());
    lemma_changed_trans(d1, dx, d2, set![at, f[0]], Set::empty(), metas_x, later);
    lemma_changed_trans(
        d,
        d1,
        d2,
        Set::empty(),
        set![at],
        set![at, f[0]].union(metas_x),
        Set::<u64>::empty().union(later),
    );
    lemma_take_set(f, k);
    assert(Set::<u64>::empty().union(set![at, f[0]].union(metas_x)) =~= metas);
    lemma_tidy_at(d2, c2, f2, 0);
    lemma_subrange_set(c2, first, c2.len() as int);
    assert(Set::<u64>::empty().union(later) =~= later);
    assert(c2[first] == at);
    assert(d2[at as int] == block) by {
        lemma_not_in_later(c2, first, c2.len() as int);
        lemma_tidy_at(d1, c, f, first);
        lemma_changed_block(d1, dx, set![at, f[0]], Set::empty(), at);
        lemma_changed_shape(d1, dx, set![at, f[0]], Set::empty());
        lemma_tidy_at(dx, cx, fx, first);
        lemma_changed_block(dx, d2, metas_x, later, at);
    }
    lemma_grow_data(d2, c2, data, i, first, k);
    lemma_grow_uses(d, dx, d2, c, f[0], c2);
}

/// Where the first sector holds the first 4096 bytes and the sectors behind it hold the
/// rest, the sectors hold all of it.
proof fn lemma_grow_data(d2: Disk, c2: Seq<u64>, data: Seq<u8>, i: int, first: int, k: int)
    requires
        0 <= i,
        0 <= first,
        k >= 1,
        first + k < c2.len(),
        k == (data.len() - i) / 4096,
        d2[c2[first] as int] == data.subrange(i, i + 4096),
        forall|j: int|
            0 <= j <= k - 1 ==> (#[trigger] d2[c2[first + 1 + j] as int]).take(
                min2(4096, data.len() - i - 4096 - 4096 * j),
            ) == data.subrange(
                i + 4096 + 4096 * j,
                i + 4096 + 4096 * j + min2(4096, data.len() - i - 4096 - 4096 * j),
            ),
    ensures
        forall|j: int|
            0 <= j <= k ==> (#[trigger] d2[c2[first + j] as int]).take(
                min2(4096, data.len() - i - 4096 * j),
            ) == data.subrange(
                i + 4096 * j,
                i + 4096 * j + min2(4096, data.len() - i - 4096 * j),
            ),
{
    let rest = data.len() - i;
    assert forall|j: int| 0 <= j <= k implies (#[trigger] d2[c2[first + j] as int]).take(
        min2(4096, rest - 4096 * j),
    ) == data.subrange(i + 4096 * j, i + 4096 * j + min2(4096, rest - 4096 * j)) by {
        if j == 0 {
            assert(data.subrange(i, i + 4096).take(4096) =~= data.subrange(i, i + 4096));
        } else {
            let jx = j - 1;
            assert(first + 1 + jx == first + j);
            assert(d2[c2[first + 1 + jx] as int].take(min2(4096, rest - 4096 - 4096 * jx))
                == data.subrange(
                i + 4096 + 4096 * jx,
                i + 4096 + 4096 * jx + min2(4096, rest - 4096 - 4096 * jx),
            ));
        }
    }
}

/// What the sectors of a chain are used for after it has grown.
pub proof fn lemma_grow_uses(d: Disk, dx: Disk, d2: Disk, c: Seq<u64>, fresh: u64, c2: Seq<u64>)
    requires
        c2.len() > c.len(),
        forall|j: int| 0 <= j < c.len() ==> c2[j] == c[j],
        c2[c.len() as int] == fresh,
        forall|j: int|
            0 <= j < c.len() ==> same_use(
                m_meta(dx, #[trigger] c[j]).unwrap(),
                m_meta(d, c[j]).unwrap(),
            ),
        same_use(m_meta(dx, fresh).unwrap(), data_entry()),
        forall|j: int|
            0 <= j < c.len() + 1 ==> same_use(
                m_meta(d2, #[trigger] c.push(fresh)[j]).unwrap(),
                m_meta(dx, c.push(fresh)[j]).unwrap(),
            ),
        forall|j: int|
            c.len() + 1 <= j < c2.len() ==> same_use(
                m_meta(d2, #[trigger] c2[j]).unwrap(),
                data_entry(),
            ),
    ensures
        forall|j: int|
            0 <= j < c.len() ==> same_use(
                m_meta(d2, #[trigger] c[j]).unwrap(),
                m_meta(d, c[j]).unwrap(),
            ),
        forall|j: int|
            c.len() <= j < c2.len() ==> same_use(
                m_meta(d2, #[trigger] c2[j]).unwrap(),
                data_entry(),
            ),
{
    let cx = c.push(fresh);
    assert forall|j: int| 0 <= j < c.len() implies same_use(
        m_meta(d2, #[trigger] c[j]).unwrap(),
        m_meta(d, c[j]).unwrap(),
    ) by {
        assert(cx[j] == c[j]);
        assert(same_use(m_meta(d2, cx[j]).unwrap(), m_meta(dx, cx[j]).unwrap()));
    }
    assert forall|j: int| c.len() <= j < c2.len() implies same_use(
        m_meta(d2, #[trigger] c2[j]).unwrap(),
        data_entry(),
    ) by {
        if j == c.len() {
            assert(cx[j] == fresh);
            assert(same_use(m_meta(d2, cx[j]).unwrap(), m_meta(dx, cx[j]).unwrap()));
        }
    }
}

/// Writing at the start of the last sector of a chain fills one sector after the other,
/// each new one from the front of the free list.
pub proof fn lemma_write_loop(d: Disk, c: Seq<u64>, f: Seq<u64>, p: FileProgress, data: Seq<u8>, i: int)
    requires
        tidy(d, c, f),
        p.sector == c.last(),
        0 <= i <= data.len(),
        p.byte_offset % 4096 == 0,
        p.byte_offset + (data.len() - i) <= u64::MAX,
        (data.len() - i) / 4096 == 0 || (data.len() - i) / 4096 < f.len(),
    ensures
        stream_written(
            d,
            c,
            f,
            p,
            data,
            i,
            m_write_loop(d, p, data, i as nat).0,
            m_write_loop(d, p, data, i as nat).1,
        ),
    decreases data.len() - i,
{
    reveal(m_write_loop);
    lemma_tidy_bounds(d, c, f);
    let first = c.len() - 1;
    lemma_tidy_at(d, c, f, first);
    let rest = data.len() - i;
    if i >= data.len() {
        lemma_stream_done(d, c, f, p, data, i);
    } else if rest < 4096 {
        let take = min2(4096 - 0, rest);
        assert(take == rest);
        assert(data.subrange(i, i + take) =~= data.subrange(i, data.len() as int));
        let d1 = d.update(
            p.sector as int,
            splice(d[p.sector as int], 0, data.subrange(i, data.len() as int)),
        );
        let moved = FileProgress { byte_offset: (p.byte_offset + rest) as u64, ..p };
        assert(m_write_loop(d1, moved, data, (i + take) as nat) == (
            d1,
            Ok::<FileProgress, ErrorKind>(moved),
        ));
        lemma_stream_last(d, c, f, p, data, i);
    } else {
        let part = data.subrange(i, i + 4096);
        let block = splice(d[p.sector as int], 0, part);
        assert(d[p.sector as int].len() == 4096);
        lemma_tidy_block(d, c, f, first, block);
        let d1 = d.update(p.sector as int, block);
        assert(rest / 4096 >= 1);
        lemma_tidy_extend(d1, c, f);
        let dx = m_extend(d1, p.sector).0;
        let px = FileProgress { sector: f[0], byte_offset: (p.byte_offset + 4096) as u64, ..p };
        let cx = c.push(f[0]);
        let fx = f.drop_first();
        assert((rest - 4096) / 4096 == rest / 4096 - 1);
        assert((p.byte_offset + 4096) % 4096 == 0);
        lemma_write_loop(dx, cx, fx, px, data, i + 4096);
        let (d2, r) = m_write_loop(dx, px, data, (i + 4096) as nat);
        lemma_stream_grow(d, c, f, p, data, i, d2, r);
    }
}

/// A part of a sector of a chain is the part of the contents of the chain at its place.
proof fn lemma_content_part(d: Disk, c: Seq<u64>, o: int, take: int)
    requires
        disk_wf(d),
        forall|i: int| 0 <= i < c.len() ==> (#[trigger] c[i]) < d.len(),
        0 <= o,
        0 <= take,
        o % 4096 + take <= 4096,
        o / 4096 < c.len(),
    ensures
        d[c[o / 4096] as int].subrange(o % 4096, o % 4096 + take) == content(
            d,
            c,
            c.len() as int,
        ).subrange(o, o + take),
{
    let stream = content(d, c, c.len() as int);
    lemma_content_len(d, c, 0, c.len() as int);
    let j = o / 4096;
    let off = o % 4096;
    assert(c[j] < d.len());
    let left = d[c[j] as int].subrange(off, off + take);
    assert(o + take <= 4096 * c.len()) by {
        assert(4096 * j + off == o);
        assert(4096 * (j + 1) <= 4096 * c.len());
    }
    let right = stream.subrange(o, o + take);
    assert forall|b: int| 0 <= b < take implies left[b] == right[b] by {
        lemma_content_index(d, c, 0, c.len() as int, o + b);
        assert((o + b) / 4096 == j);
        assert((o + b) % 4096 == off + b);
    }
    assert(left =~= right);
}

/// Where a position moves within its sector, or just to the end of it.
proof fn lemma_sector_arith(o: int, take: int)
    requires
        0 <= o,
        0 < take,
        o % 4096 + take <= 4096,
    ensures
        4096 * (o / 4096) + o % 4096 == o,
        (o + take) / 4096 == o / 4096 + (if o % 4096 + take == 4096 {
            1int
        } else {
            0int
        }),
        o % 4096 + take == 4096 ==> o + take == 4096 * (o / 4096 + 1),
{
}

/// Two parts of a sequence that follow each other are one part.
proof fn lemma_read_glue(stream: Seq<u8>, out: Seq<u8>, o: int, take: int, more: int)
    requires
        0 <= o,
        0 <= take,
        0 <= more,
        o + take + more <= stream.len(),
    ensures
        out + stream.subrange(o, o + take) + stream.subrange(o + take, o + take + more) == out
            + stream.subrange(o, o + take + more),
{
    assert(out + stream.subrange(o, o + take) + stream.subrange(o + take, o + take + more) =~= out
        + stream.subrange(o, o + take + more));
}

/// What one step of reading takes: the bytes up to the end of the sector, of the buffer or
/// of the file, whichever comes first.
pub open spec fn read_take(o: int, size: int, want: int) -> int {
    min2(min2(4096 - o % 4096, want), size - o)
}

/// Reading along a chain gives the contents of the chain from the position on, up to the
/// size of the file and up to as many bytes as are wanted.
pub proof fn lemma_read_loop(d: Disk, c: Seq<u64>, p: FileProgress, size: u64, want: nat, out: Seq<u8>)
    requires
        disk_wf(d),
        linked(d, c),
        p.byte_offset <= size <= 4096 * c.len(),
        p.byte_offset < size ==> p.sector == c[p.byte_offset as int / 4096],
    ensures
        m_read_loop(d, p, size, want, out) is Ok,
        m_read_loop(d, p, size, want, out).unwrap().1 == out + content(
            d,
            c,
            c.len() as int,
        ).subrange(
            p.byte_offset as int,
            p.byte_offset + min2(want as int, size - p.byte_offset),
        ),
        m_read_loop(d, p, size, want, out).unwrap().0.head == p.head,
        m_read_loop(d, p, size, want, out).unwrap().0.byte_offset == p.byte_offset + min2(
            want as int,
            size - p.byte_offset,
        ),
        m_read_loop(d, p, size, want, out).unwrap().0.byte_offset < size ==> m_read_loop(
            d,
            p,
            size,
            want,
            out,
        ).unwrap().0.sector == c[m_read_loop(d, p, size, want, out).unwrap().0.byte_offset as int
            / 4096],
    decreases want,
{
    let stream = content(d, c, c.len() as int);
    let o = p.byte_offset as int;
    lemma_linked_short(d, c);
    lemma_content_len(d, c, 0, c.len() as int);
    if want == 0 || o >= size {
        assert(out + stream.subrange(o, o + 0) =~= out);
        assert(m_read_loop(d, p, size, want, out) == Ok::<(FileProgress, Seq<u8>), ErrorKind>(
            (p, out),
        )) by {
            reveal(m_read_loop);
        }
    } else {
        let off = o % 4096;
        let j = o / 4096;
        let take = read_take(o, size as int, want as int);
        let got = min2(want as int, size - o);
        lemma_sector_arith(o, take);
        assert(j < c.len());
        assert(m_meta(d, c[j]) is Ok);
        let entry = m_meta(d, c[j]).unwrap();
        lemma_content_part(d, c, o, take);
        let out1 = out + d[c[j] as int].subrange(off, off + take);
        let moved = FileProgress { byte_offset: (o + take) as u64, ..p };
        let got2 = min2(want - take, size - (o + take));
        assert(take + got2 == got);
        lemma_read_glue(stream, out, o, take, got2);
        if off + take == 4096 && entry.next == 0 {
            assert(j == c.len() - 1);
            assert(got2 == 0);
            assert(m_read_loop(d, p, size, want, out) == Ok::<(FileProgress, Seq<u8>), ErrorKind>(
                (FileProgress { sector: 0, ..moved }, out1),
            )) by {
                reveal(m_read_loop);
            }
            assert(out1 + stream.subrange(o + take, o + take + 0) =~= out1);
        } else {
            let next = if off + take == 4096 {
                FileProgress { sector: entry.next, ..moved }
            } else {
                moved
            };
            if off + take == 4096 {
                assert(entry.next == c[j + 1]);
            }
            lemma_read_loop(d, c, next, size, (want - take) as nat, out1);
            assert(m_read_loop(d, p, size, want, out) == m_read_loop(
                d,
                next,
                size,
                (want - take) as nat,
                out1,
            )) by {
                reveal(m_read_loop);
            }
        }
    }
}

/// Whether a position is a position in the file whose chain is `c`: it lies within the
/// size, the size within the chain, and before the end of the file the position is in the
/// sector of the chain that its offset falls into.
pub open spec fn reader_at(d: Disk, c: Seq<u64>, progress: ReadProgress) -> bool {
    &&& disk_wf(d)
    &&& linked(d, c)
    &&& progress.0.byte_offset <= progress.1 <= 4096 * c.len()
    &&& progress.0.byte_offset < progress.1 ==> progress.0.sector
        == c[progress.0.byte_offset as int / 4096]
}

/// Reading at a position in a file gives the contents of the chain of the file from the
/// position on, up to the size of the file and up to as many bytes as are wanted, and
/// leaves a position in the file behind what was read.
pub proof fn lemma_read_at(d: Disk, c: Seq<u64>, progress: ReadProgress, want: nat)
    requires
        reader_at(d, c, progress),
    ensures
        m_read(d, progress, want) is Ok,
        m_read(d, progress, want).unwrap().1 == content(d, c, c.len() as int).subrange(
            progress.0.byte_offset as int,
            progress.0.byte_offset + min2(want as int, progress.1 - progress.0.byte_offset),
        ),
        m_read(d, progress, want).unwrap().0.byte_offset == progress.0.byte_offset + min2(
            want as int,
            progress.1 - progress.0.byte_offset,
        ),
        reader_at(d, c, ReadProgress(m_read(d, progress, want).unwrap().0, progress.1)),
{
    reveal(m_read);
    let o = progress.0.byte_offset as int;
    let stream = content(d, c, c.len() as int);
    lemma_linked_short(d, c);
    lemma_content_len(d, c, 0, c.len() as int);
    if progress.0.sector == 0 {
        if o < progress.1 {
            assert(o / 4096 < c.len()) by {
                assert(4096 * (o / 4096) <= o);
            }
            assert(m_meta(d, c[o / 4096]) is Ok);
            crate::ffat::growth::lemma_read_nonzero(d, c[o / 4096]);
        }
        assert(stream.subrange(o, o + 0) =~= Seq::<u8>::empty());
    } else {
        lemma_read_loop(d, c, progress.0, progress.1, want, Seq::empty());
        let got = min2(want as int, progress.1 - o);
        assert(Seq::<u8>::empty() + stream.subrange(o, o + got) =~= stream.subrange(o, o + got));
    }
}

/// The contents of a chain whose sectors hold the bytes of `data`, 4096 to each sector and
/// the rest at the start of the last one, begin with `data`.
pub proof fn lemma_stream_content(d: Disk, c: Seq<u64>, data: Seq<u8>)
    requires
        disk_wf(d),
        forall|i: int| 0 <= i < c.len() ==> (#[trigger] c[i]) < d.len(),
        c.len() == data.len() / 4096 + 1,
        forall|j: int|
            0 <= j <= data.len() / 4096 ==> (#[trigger] d[c[j] as int]).take(
                min2(4096, data.len() - 4096 * j),
            ) == data.subrange(4096 * j, 4096 * j + min2(4096, data.len() - 4096 * j)),
    ensures
        content(d, c, c.len() as int).subrange(0, data.len() as int) == data,
{
    let stream = content(d, c, c.len() as int);
    lemma_content_len(d, c, 0, c.len() as int);
    let front = stream.subrange(0, data.len() as int);
    assert forall|b: int| 0 <= b < data.len() implies front[b] == data[b] by {
        lemma_content_index(d, c, 0, c.len() as int, b);
        let j = b / 4096;
        let m = min2(4096, data.len() - 4096 * j);
        assert(4096 * j + b % 4096 == b);
        assert(b % 4096 < m);
        assert(d[c[j] as int].take(m)[b % 4096] == data.subrange(4096 * j, 4096 * j + m)[b % 4096]);
    }
    assert(front =~= data);
}

/// Whether the sectors of the chain `c` hold the bytes of `data`, 4096 to each sector and
/// the rest at the start of the last one.
pub open spec fn holds(d: Disk, c: Seq<u64>, data: Seq<u8>) -> bool {
    &&& c.len() == data.len() / 4096 + 1
    &&& forall|j: int|
        0 <= j <= data.len() / 4096 ==> (#[trigger] d[c[j] as int]).take(
            min2(4096, data.len() - 4096 * j),
        ) == data.subrange(4096 * j, 4096 * j + min2(4096, data.len() - 4096 * j))
}

/// Writing `data` into a file of one empty sector succeeds where the free list has one
/// sector more than the data fills. The chain of the file then holds the data, and the
/// size of the file is the length of the data.
pub proof fn lemma_write_file(d: Disk, head: u64, f: Seq<u64>, data: Seq<u8>)
    requires
        tidy(d, seq![head], f),
        m_meta(d, head) == Ok::<Sector, ErrorKind>(
            Sector { sector_type: SectorType::File, size: 0, next: 0 },
        ),
        data.len() <= u64::MAX,
        data.len() / 4096 == 0 || data.len() / 4096 < f.len(),
    ensures
        ({
            let start = FileProgress { head, sector: head, byte_offset: 0 };
            let (d2, r) = m_write(d, WriteProgress(start), data);
            let c2 = seq![head] + f.take(data.len() as int / 4096);
            &&& r is Ok
            &&& r.unwrap().0.head == head
            &&& r.unwrap().0.byte_offset == data.len()
            &&& m_meta(d2, head) is Ok
            &&& m_meta(d2, head).unwrap().sector_type == SectorType::File
            &&& m_meta(d2, head).unwrap().size == data.len()
            &&& tidy(d2, c2, f.skip(data.len() as int / 4096))
            &&& holds(d2, c2, data)
            &&& changed(
                d,
                d2,
                set![head].union(f.take(data.len() as int / 4096).to_set()),
                c2.to_set(),
            )
            &&& forall|j: int|
                1 <= j < c2.len() ==> same_use(m_meta(d2, #[trigger] c2[j]).unwrap(), data_entry())
        }),
{
    reveal(m_write);
    let c = seq![head];
    let start = FileProgress { head, sector: head, byte_offset: 0 };
    let k = data.len() as int / 4096;
    let c2 = c + f.take(k);
    let f2 = f.skip(k);
    assert(c.last() == head);
    lemma_write_loop(d, c, f, start, data, 0);
    let (d1, r1) = m_write_loop(d, start, data, 0);
    let moved = r1.unwrap();
    lemma_tidy_bounds(d1, c2, f2);
    lemma_tidy_at(d1, c2, f2, 0);
    assert(c2[0] == head);
    assert(c[0] == head);
    let entry = m_meta(d1, head).unwrap();
    assert(same_use(m_meta(d1, c[0]).unwrap(), m_meta(d, c[0]).unwrap()));
    let sized = Sector { size: data.len() as u64, ..entry };
    lemma_tidy_set_use(d1, c2, f2, 0, sized);
    let d2 = m_set_meta(d1, head, sized).0;
    assert(m_write(d, WriteProgress(start), data) == (
        d2,
        Ok::<WriteProgress, ErrorKind>(WriteProgress(moved)),
    ));
    assert forall|j: int| 0 <= j <= k implies (#[trigger] d2[c2[j] as int]).take(
        min2(4096, data.len() - 4096 * j),
    ) == data.subrange(4096 * j, 4096 * j + min2(4096, data.len() - 4096 * j)) by {
        lemma_tidy_at(d1, c2, f2, j);
        crate::ffat::chains::lemma_changed_block(d1, d2, set![head], Set::empty(), c2[j]);
        assert(c2[c.len() - 1 + j] == c2[j]);
        assert(d1[c2[c.len() - 1 + j] as int].take(min2(4096, data.len() - 0 - 4096 * j))
            == data.subrange(0 + 4096 * j, 0 + 4096 * j + min2(4096, data.len() - 0 - 4096 * j)));
    }
    let m1 = set![c.last()].union(f.take(k).to_set());
    let b1 = c2.subrange(c.len() - 1, c2.len() as int).to_set();
    lemma_changed_trans(d, d1, d2, m1, b1, set![head], Set::empty());
    assert(c2.subrange(0, c2.len() as int) =~= c2);
    lemma_changed_wider(
        d,
        d2,
        m1.union(set![head]),
        b1.union(Set::empty()),
        set![head].union(f.take(k).to_set()),
        c2.to_set(),
    );
    assert forall|j: int| 1 <= j < c2.len() implies same_use(
        m_meta(d2, #[trigger] c2[j]).unwrap(),
        data_entry(),
    ) by {
        assert(c2[j] != c2[0]);
        assert(m_meta(d2, c2[j]) == m_meta(d1, c2[j]));
    }
}

/// Reading a file whose chain holds `data`, from its start, gives the data, up to as many
/// bytes as are wanted.
pub proof fn lemma_read_file(d: Disk, c: Seq<u64>, f: Seq<u64>, data: Seq<u8>, want: nat)
    requires
        tidy(d, c, f),
        holds(d, c, data),
        data.len() <= u64::MAX,
    ensures
        ({
            let start = FileProgress { head: c[0], sector: c[0], byte_offset: 0 };
            &&& m_read(d, ReadProgress(start, data.len() as u64), want) is Ok
            &&& m_read(d, ReadProgress(start, data.len() as u64), want).unwrap().1 == data.take(
                min2(want as int, data.len() as int),
            )
        }),
{
    reveal(m_read);
    let start = FileProgress { head: c[0], sector: c[0], byte_offset: 0 };
    lemma_tidy_bounds(d, c, f);
    lemma_tidy_at(d, c, f, 0);
    assert(disk_wf(d) && linked(d, c)) by {
        reveal(tidy);
    }
    lemma_stream_content(d, c, data);
    crate::ffat::growth::lemma_read_nonzero(d, c[0]);
    lemma_read_loop(d, c, start, data.len() as u64, want, Seq::empty());
    let got = min2(want as int, data.len() as int);
    let stream = content(d, c, c.len() as int);
    lemma_content_len(d, c, 0, c.len() as int);
    assert(data.len() <= stream.len());
    assert(stream.subrange(0, data.len() as int) == data);
    assert(stream.subrange(0, got) =~= stream.subrange(0, data.len() as int).take(got));
    assert(Seq::<u8>::empty() + stream.subrange(0, got) =~= data.take(got));
}

/// What is written into an empty file is read from it: writing `data` into a file of one
/// empty sector succeeds where the free list has one sector more than the data fills, the
/// size of the file is then the length of the data, and reading the file from its start
/// gives the data, up to as many bytes as are wanted.
pub proof fn law_write_then_read(d: Disk, head: u64, f: Seq<u64>, data: Seq<u8>, want: nat)
    requires
        tidy(d, seq![head], f),
        m_meta(d, head) == Ok::<Sector, ErrorKind>(
            Sector { sector_type: SectorType::File, size: 0, next: 0 },
        ),
        data.len() <= u64::MAX,
        data.len() / 4096 == 0 || data.len() / 4096 < f.len(),
    ensures
        ({
            let start = FileProgress { head, sector: head, byte_offset: 0 };
            let (d2, r) = m_write(d, WriteProgress(start), data);
            &&& r is Ok
            &&& m_meta(d2, head) is Ok
            &&& m_meta(d2, head).unwrap().size == data.len()
            &&& m_read(d2, ReadProgress(start, data.len() as u64), want) is Ok
            &&& m_read(d2, ReadProgress(start, data.len() as u64), want).unwrap().1 == data.take(
                min2(want as int, data.len() as int),
            )
        }),
{
    let start = FileProgress { head, sector: head, byte_offset: 0 };
    lemma_write_file(d, head, f, data);
    let d2 = m_write(d, WriteProgress(start), data).0;
    let k = data.len() as int / 4096;
    let c2 = seq![head] + f.take(k);
    assert(c2[0] == head);
    lemma_read_file(d2, c2, f.skip(k), data, want);
}

} // verus!
