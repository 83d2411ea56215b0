use vstd::prelude::*;
use crate::error::ErrorKind;
use crate::ffat::chains::{changed, lemma_changed_trans, lemma_changed_wider, lemma_same_but_refl};
use crate::ffat::growth::{lemma_subrange_set, lemma_take_set};
use crate::ffat::layout::splice;
use crate::ffat::model::{
    data_entry, disk_wf, m_extend, m_meta, m_root, m_write_loop, min2, Disk,
};
use crate::ffat::payload::{
    lemma_tidy_at, lemma_tidy_block, lemma_tidy_bounds, lemma_tidy_extend, same_use, tidy,
};
use crate::ffat::scarce::lemma_extend_fails;
use crate::ffat::chains::linked;
use crate::ffat::dirwrite::lemma_tidy_set_use;
use crate::ffat::files_kept::{lemma_regroup_file, same_names};
use crate::ffat::members::{lemma_in_parts, lemma_in_skip, lemma_in_take};
use crate::ffat::model::{m_set_meta, m_write};
use crate::ffat::packing::{regrouped, within};
use crate::ffat::payload::lemma_in_concat;
use crate::ffat::sound::{chain_ok, entry_of, sound, Layout};
use crate::ffat::structs::{FileProgress, Sector, SectorType, WriteProgress};
use crate::ffat::tree::lemma_sound_chain;

verus! {

/// The number of sectors that writing `rest` bytes at the offset `o` fills to their end.
pub open spec fn filled(o: int, rest: int) -> int {
    (o % 4096 + rest) / 4096
}

/// What writing the bytes of `data` from index `i` on comes to, in the last sector of the
/// chain `c`, where `f` is the free list: every sector that is filled to its end takes the
/// next one from the front of the free list. Of the table, only the entries of the old last
/// sector and of the sectors that were taken are touched, and of the data region only the
/// old last sector and the sectors that were taken.
pub open spec fn appended(
    d: Disk,
    c: Seq<u64>,
    f: Seq<u64>,
    p: FileProgress,
    data: Seq<u8>,
    i: int,
    d2: Disk,
    r: Result<FileProgress, ErrorKind>,
) -> bool {
    let rest = data.len() - i;
    let k = filled(p.byte_offset as int, rest);
    let c2 = c + f.take(k);
    let f2 = f.skip(k);
    &&& k == 0 || k < f.len()
    &&& r == Ok::<FileProgress, ErrorKind>(
        FileProgress { head: p.head, sector: c2.last(), byte_offset: (p.byte_offset + rest) as u64 },
    )
    &&& p.byte_offset + rest <= u64::MAX
    &&& tidy(d2, c2, f2)
    &&& changed(
        d,
        d2,
        set![c.last()].union(f.take(k).to_set()),
        c2.subrange(c.len() - 1, c2.len() as int).to_set(),
    )
    &&& forall|j: int|
        0 <= j < c.len() ==> same_use(m_meta(d2, #[trigger] c[j]).unwrap(), m_meta(d, c[j]).unwrap())
    &&& forall|j: int|
        c.len() <= j < c2.len() ==> same_use(m_meta(d2, #[trigger] c2[j]).unwrap(), data_entry())
}

/// Nothing is left to write.
proof fn lemma_append_done(d: Disk, c: Seq<u64>, f: Seq<u64>, p: FileProgress, data: Seq<u8>, i: int)
    requires
        tidy(d, c, f),
        p.sector == c.last(),
        i == data.len(),
    ensures
        appended(d, c, f, p, data, i, d, Ok::<FileProgress, ErrorKind>(p)),
{
    lemma_tidy_bounds(d, c, f);
    lemma_tidy_at(d, c, f, 0);
    assert(c + f.take(0) =~= c);
    assert(f.skip(0) =~= f);
    assert(disk_wf(d) && m_root(d) is Ok) by {
        reveal(tidy);
    }
    lemma_same_but_refl(d);
    lemma_changed_wider(
        d,
        d,
        Set::empty(),
        Set::empty(),
        set![c.last()].union(f.take(0).to_set()),
        c.subrange(c.len() - 1, c.len() as int).to_set(),
    );
}

/// The rest fits the last sector of the chain without filling it.
proof fn lemma_append_last(d: Disk, c: Seq<u64>, f: Seq<u64>, p: FileProgress, data: Seq<u8>, i: int)
    requires
        tidy(d, c, f),
        p.sector == c.last(),
        0 <= i < data.len(),
        p.byte_offset % 4096 + (data.len() - i) < 4096,
        p.byte_offset + (data.len() - i) <= u64::MAX,
    ensures
        appended(
            d,
            c,
            f,
            p,
            data,
            i,
            d.update(
                p.sector as int,
                splice(
                    d[p.sector as int],
                    p.byte_offset as int % 4096,
                    data.subrange(i, data.len() as int),
                ),
            ),
            Ok::<FileProgress, ErrorKind>(
                FileProgress { byte_offset: (p.byte_offset + (data.len() - i)) as u64, ..p },
            ),
        ),
{
    lemma_tidy_bounds(d, c, f);
    let first = c.len() - 1;
    let at = c[first];
    lemma_tidy_at(d, c, f, first);
    let part = data.subrange(i, data.len() as int);
    let block = splice(d[at as int], p.byte_offset as int % 4096, part);
    assert(d[at as int].len() == 4096);
    lemma_tidy_block(d, c, f, first, block);
    let d1 = d.update(at as int, block);
    assert(c + f.take(0) =~= c);
    assert(f.skip(0) =~= f);
    assert(c.subrange(first, c.len() as int) =~= seq![at]);
    assert(seq![at].to_set() =~= set![at]) by {
        assert forall|x: u64| seq![at].to_set().contains(x) == set![at].contains(x) by {
            if x == at {
                assert(seq![at][0] == x);
            }
        }
    }
    lemma_changed_wider(
        d,
        d1,
        Set::empty(),
        set![at],
        set![c.last()].union(f.take(0).to_set()),
        set![at],
    );
}

/// A sector is filled to its end, and the rest goes into sectors from the free list.
proof fn lemma_append_grow(
    d: Disk,
    c: Seq<u64>,
    f: Seq<u64>,
    p: FileProgress,
    data: Seq<u8>,
    i: int,
    take: int,
    d2: Disk,
    r: Result<FileProgress, ErrorKind>,
)
    requires
        tidy(d, c, f),
        p.sector == c.last(),
        0 <= i,
        f.len() >= 2,
        take == 4096 - p.byte_offset % 4096,
        take <= data.len() - i,
        p.byte_offset + take <= u64::MAX,
        appended(
            m_extend(
                d.update(
                    p.sector as int,
                    splice(
                        d[p.sector as int],
                        p.byte_offset as int % 4096,
                        data.subrange(i, i + take),
                    ),
                ),
                p.sector,
            ).0,
            c.push(f[0]),
            f.drop_first(),
            FileProgress { sector: f[0], byte_offset: (p.byte_offset + take) as u64, ..p },
            data,
            i + take,
            d2,
            r,
        ),
    ensures
        appended(d, c, f, p, data, i, d2, r),
{
    lemma_tidy_bounds(d, c, f);
    let first = c.len() - 1;
    let at = c[first];
    lemma_tidy_at(d, c, f, first);
    let rest = data.len() - i;
    let o = p.byte_offset as int;
    let k = filled(o, rest);
    let part = data.subrange(i, i + take);
    let block = splice(d[at as int], o % 4096, part);
    assert(d[at as int].len() == 4096);
    lemma_tidy_block(d, c, f, first, block);
    let d1 = d.update(at as int, block);
    lemma_tidy_extend(d1, c, f);
    let dx = m_extend(d1, at).0;
    let cx = c.push(f[0]);
    let fx = f.drop_first();
    let kx = filled(o + take, rest - take);
    assert((o + take) % 4096 == 0);
    assert(kx == k - 1);
    let c2 = c + f.take(k);
    let f2 = f.skip(k);
    assert(cx + fx.take(kx) =~= c2);
    assert(fx.skip(kx) =~= f2);
    assert(cx.last() == f[0]);
    let metas_x = set![f[0]].union(fx.take(kx).to_set());
    let later = c2.subrange(first + 1, c2.len() as int).to_set();
    let metas = set![at].union(f.take(k).to_set());
    lemma_changed_trans(d1, dx, d2, set![at, f[0]], Set::empty(), metas_x, later);
    lemma_changed_trans(
        d,
        d1,
        d2,
        Set::empty(),
        set![at],
        set![at, f[0]].union(metas_x),
        Set::<u64>::empty().union(later),
    );
    lemma_take_set(f, k);
    assert(Set::<u64>::empty().union(set![at, f[0]].union(metas_x)) =~= metas);
    lemma_tidy_at(d2, c2, f2, 0);
    lemma_subrange_set(c2, first, c2.len() as int);
    assert(Set::<u64>::empty().union(later) =~= later);
    assert(c2[first] == at);
    crate::ffat::stream::lemma_grow_uses(d, dx, d2, c, f[0], c2);
}

/// Writing in the last sector of a chain, where it succeeds, fills one sector after the
/// other, each new one from the front of the free list.
pub proof fn lemma_append(d: Disk, c: Seq<u64>, f: Seq<u64>, p: FileProgress, data: Seq<u8>, i: int)
    requires
        tidy(d, c, f),
        p.sector == c.last(),
        0 <= i <= data.len(),
        m_write_loop(d, p, data, i as nat).1 is Ok,
    ensures
        appended(
            d,
            c,
            f,
            p,
            data,
            i,
            m_write_loop(d, p, data, i as nat).0,
            m_write_loop(d, p, data, i as nat).1,
        ),
    decreases data.len() - i,
{
    reveal(m_write_loop);
    lemma_tidy_bounds(d, c, f);
    let first = c.len() - 1;
    lemma_tidy_at(d, c, f, first);
    let rest = data.len() - i;
    let o = p.byte_offset as int;
    let off = o % 4096;
    if i >= data.len() {
        lemma_append_done(d, c, f, p, data, i);
    } else {
        let take = min2(4096 - off, rest);
        let part = data.subrange(i, i + take);
        let block = splice(d[p.sector as int], off, part);
        assert(d[p.sector as int].len() == 4096);
        lemma_tidy_block(d, c, f, first, block);
        let d1 = d.update(p.sector as int, block);
        let moved = FileProgress { byte_offset: (o + take) as u64, ..p };
        if off + take == 4096 {
            if f.len() <= 1 {
                lemma_extend_fails(d1, c, f);
            } else {
                lemma_tidy_extend(d1, c, f);
                let dx = m_extend(d1, p.sector).0;
                let px = FileProgress { sector: f[0], ..moved };
                let cx = c.push(f[0]);
                let fx = f.drop_first();
                lemma_append(dx, cx, fx, px, data, i + take);
                let (d2, r) = m_write_loop(dx, px, data, (i + take) as nat);
                lemma_append_grow(d, c, f, p, data, i, take, d2, r);
            }
        } else {
            assert(take == rest);
            assert(data.subrange(i, i + take) =~= data.subrange(i, data.len() as int));
            assert(m_write_loop(d1, moved, data, (i + take) as nat) == (
                d1,
                Ok::<FileProgress, ErrorKind>(moved),
            ));
            lemma_append_last(d, c, f, p, data, i);
        }
    }
}

/// Whether a position belongs to a file that is open for writing: it stands at the end of
/// the file, in the last sector of its chain.
pub open spec fn valid_writer(d: Disk, l: Layout, progress: WriteProgress) -> bool {
    let p = progress.0;
    &&& l.chains.contains_key(p.head)
    &&& entry_of(d, p.head).sector_type == SectorType::File
    &&& p.sector == l.chains[p.head].last()
    &&& p.byte_offset == entry_of(d, p.head).size
    &&& p.byte_offset as int / 4096 == l.chains[p.head].len() - 1
}

/// The layout after `len` bytes were written at the position `p`.
pub open spec fn written_layout(l: Layout, p: FileProgress, len: int) -> Layout {
    let k = filled(p.byte_offset as int, len);
    regrouped(l, p.head, l.chains[p.head] + l.free.take(k), l.free.skip(k))
}

/// Writing at the end of a file, where it succeeds on a sound volume, leaves the volume
/// sound: the chain of the file grows by the sectors that are filled to their end, taken
/// from the front of the free list, and the size of the file by the number of bytes. The
/// names of the volume stay what they are, and the position stands at the end of the file
/// again.
pub proof fn law_write_sound(d: Disk, l: Layout, progress: WriteProgress, data: Seq<u8>)
    requires
        sound(d, l),
        valid_writer(d, l, progress),
        m_write(d, progress, data).1 is Ok,
    ensures
        sound(
            m_write(d, progress, data).0,
            written_layout(l, progress.0, data.len() as int),
        ),
        same_names(
            d,
            l,
            m_write(d, progress, data).0,
            written_layout(l, progress.0, data.len() as int),
        ),
        valid_writer(
            m_write(d, progress, data).0,
            written_layout(l, progress.0, data.len() as int),
            m_write(d, progress, data).1.unwrap(),
        ),
        entry_of(m_write(d, progress, data).0, progress.0.head).size == entry_of(
            d,
            progress.0.head,
        ).size + data.len(),
{
    reveal(m_write);
    let p = progress.0;
    let h = p.head;
    let c = l.chains[h];
    let f = l.free;
    lemma_sound_chain(d, l, h);
    lemma_tidy_bounds(d, c, f);
    assert(c[0] == h);
    lemma_append(d, c, f, p, data, 0);
    let (d1, r1) = m_write_loop(d, p, data, 0);
    let moved = r1.unwrap();
    let k = filled(p.byte_offset as int, data.len() as int);
    let c2 = c + f.take(k);
    let f2 = f.skip(k);
    lemma_tidy_bounds(d1, c2, f2);
    lemma_tidy_at(d1, c2, f2, 0);
    assert(c2[0] == h);
    let entry = m_meta(d1, h).unwrap();
    assert(same_use(m_meta(d1, c[0]).unwrap(), m_meta(d, c[0]).unwrap()));
    let sized = Sector { size: (entry.size + data.len()) as u64, ..entry };
    lemma_tidy_set_use(d1, c2, f2, 0, sized);
    let d2 = m_set_meta(d1, h, sized).0;
    let m1 = set![c.last()].union(f.take(k).to_set());
    let b1 = c2.subrange(c.len() - 1, c2.len() as int).to_set();
    lemma_changed_trans(d, d1, d2, m1, b1, set![h], Set::empty());
    let metas = m1.union(set![h]);
    let blocks = b1.union(Set::empty());
    assert(within(metas, c, f)) by {
        assert forall|x: u64| #[trigger] metas.contains(x) implies c.contains(x) || f.contains(
            x,
        ) by {
            if x == c.last() {
                assert(c[c.len() - 1] == x);
            }
            if x == h {
                assert(c[0] == x);
            }
            if f.take(k).to_set().contains(x) {
                lemma_in_take(f, k, x);
            }
        }
    }
    assert(within(blocks, c, f)) by {
        assert forall|x: u64| #[trigger] blocks.contains(x) implies c.contains(x) || f.contains(
            x,
        ) by {
            if c2.subrange(c.len() - 1, c2.len() as int).contains(x) {
                let part = c2.subrange(c.len() - 1, c2.len() as int);
                let j = choose|j: int| 0 <= j < part.len() && part[j] == x;
                assert(c2[j + c.len() - 1] == x);
                assert(c2.contains(x));
                lemma_in_concat(c, f.take(k), x);
                if f.take(k).contains(x) {
                    lemma_in_take(f, k, x);
                }
            }
        }
    }
    assert(chain_ok(d2, h, c2)) by {
        assert(linked(d2, c2)) by {
            reveal(tidy);
        }
        assert forall|j: int| 1 <= j < c2.len() implies same_use(
            entry_of(d2, #[trigger] c2[j]),
            data_entry(),
        ) by {
            assert(c2[j] != c2[0]);
            assert(m_meta(d2, c2[j]) == m_meta(d1, c2[j]));
            if j < c.len() {
                assert(c2[j] == c[j]);
                assert(same_use(m_meta(d1, c[j]).unwrap(), m_meta(d, c[j]).unwrap()));
                assert(same_use(entry_of(d, c[j]), data_entry()));
            }
        }
        lemma_write_fits(p.byte_offset as int, data.len() as int, c.len() as int);
    }
    assert forall|x: u64| (c2.contains(x) || f2.contains(x)) == (c.contains(x) || f.contains(
        x,
    )) by {
        lemma_in_concat(c, f.take(k), x);
        if f.take(k).contains(x) {
            lemma_in_take(f, k, x);
        }
        if f2.contains(x) {
            lemma_in_skip(f, k, x);
        }
        if f.contains(x) {
            lemma_in_parts(f, k, x);
        }
    }
    lemma_regroup_file(d, l, d2, metas, blocks, h, c2, f2);
    lemma_write_fits(p.byte_offset as int, data.len() as int, c.len() as int);
}

/// Bytes that are written at an offset in the last of `len` sectors fit the sectors that
/// the chain has after the write, and end in the last of them.
proof fn lemma_write_fits(o: int, rest: int, len: int)
    requires
        0 <= o,
        0 <= rest,
        len >= 1,
        o / 4096 == len - 1,
    ensures
        o + rest <= 4096 * (len + filled(o, rest)),
        (o + rest) / 4096 == len + filled(o, rest) - 1,
{
}

} // verus!
