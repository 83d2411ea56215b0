use vstd::prelude::*;
use crate::error::ErrorKind;
use crate::ffat::chains::{free_list, law_alloc_keeps_the_last};
use crate::ffat::dir::{encodable, spec_encode_dir};
use crate::ffat::dirwrite::lemma_tidy_set_use;
use crate::ffat::layout::{lemma_le_roundtrip, splice};
use crate::ffat::model::{
    chunk, chunk_count, disk_wf, m_alloc, m_extend, m_meta, m_root, m_set_meta, m_write_chunks,
    m_write_dir_at, m_write_loop, m_write_payload, Disk, Entries,
};
use crate::ffat::payload::{
    lacking, lemma_tidy_at, lemma_tidy_block, lemma_tidy_bounds, lemma_tidy_extend, tidy,
};
use crate::ffat::structs::{FileProgress, Sector};

verus! {

/// Nothing can be taken off a free list of less than two sectors.
pub proof fn lemma_alloc_fails(d: Disk, f: Seq<u64>)
    requires
        disk_wf(d),
        free_list(d, f),
        f.len() <= 1,
    ensures
        m_alloc(d).1 is Err,
{
    reveal(m_alloc);
    if f.len() == 1 {
        law_alloc_keeps_the_last(d, f);
    } else {
        let root = m_root(d).unwrap();
        assert(root.free == 0);
        assert(root.locate(0) is None);
    }
}

/// A chain cannot grow where the free list has less than two sectors.
pub proof fn lemma_extend_fails(d: Disk, c: Seq<u64>, f: Seq<u64>)
    requires
        tidy(d, c, f),
        f.len() <= 1,
    ensures
        m_extend(d, c.last()).1 is Err,
{
    reveal(m_extend);
    reveal(tidy);
    lemma_alloc_fails(d, f);
}

/// A payload cannot be written where the chain lacks as many sectors as the free list has,
/// or more.
pub proof fn lemma_write_chunks_fails(d: Disk, c: Seq<u64>, f: Seq<u64>, bytes: Seq<u8>, i: int, n: int)
    requires
        tidy(d, c, f),
        0 <= i < n,
        i < c.len(),
        lacking(c.len(), n as nat) > 0,
        lacking(c.len(), n as nat) >= f.len(),
    ensures
        m_write_chunks(d, c[i], bytes, i as nat, n as nat).1 is Err,
    decreases n - i,
{
    reveal(m_write_chunks);
    lemma_tidy_at(d, c, f, i);
    let at = c[i];
    let d1 = d.update(at as int, chunk(bytes, i));
    lemma_tidy_block(d, c, f, i, chunk(bytes, i));
    if i + 1 < c.len() {
        lemma_write_chunks_fails(d1, c, f, bytes, i + 1, n);
    } else {
        assert(c.last() == at);
        if f.len() <= 1 {
            lemma_extend_fails(d1, c, f);
        } else {
            lemma_tidy_extend(d1, c, f);
            let dx = m_extend(d1, at).0;
            let cx = c.push(f[0]);
            let fx = f.drop_first();
            assert(cx[i + 1] == f[0]);
            lemma_write_chunks_fails(dx, cx, fx, bytes, i + 1, n);
        }
    }
}

/// The entries of a directory cannot be written where its chain lacks as many sectors as
/// the free list has, or more.
pub proof fn lemma_write_dir_fails(d: Disk, c: Seq<u64>, f: Seq<u64>, entries: Entries)
    requires
        tidy(d, c, f),
        lacking(c.len(), chunk_count(spec_encode_dir(entries).len())) > 0,
        lacking(c.len(), chunk_count(spec_encode_dir(entries).len())) >= f.len(),
    ensures
        m_write_dir_at(d, c[0], entries).1 is Err,
{
    reveal(m_write_dir_at);
    reveal(m_write_payload);
    lemma_le_roundtrip();
    let bytes = spec_encode_dir(entries);
    if encodable(entries) && bytes.len() <= u64::MAX {
        lemma_tidy_bounds(d, c, f);
        lemma_tidy_at(d, c, f, 0);
        let entry = m_meta(d, c[0]).unwrap();
        let sized = Sector { size: bytes.len() as u64, ..entry };
        lemma_tidy_set_use(d, c, f, 0, sized);
        let d1 = m_set_meta(d, c[0], sized).0;
        lemma_write_chunks_fails(d1, c, f, bytes, 0, chunk_count(bytes.len()) as int);
    }
}

/// Bytes cannot be written where they fill as many sectors as the free list has, or more.
pub proof fn lemma_write_loop_fails(d: Disk, c: Seq<u64>, f: Seq<u64>, p: FileProgress, data: Seq<u8>, i: int)
    requires
        tidy(d, c, f),
        p.sector == c.last(),
        0 <= i <= data.len(),
        p.byte_offset % 4096 == 0,
        (data.len() - i) / 4096 > 0,
        (data.len() - i) / 4096 >= f.len(),
    ensures
        m_write_loop(d, p, data, i as nat).1 is Err,
    decreases data.len() - i,
{
    reveal(m_write_loop);
    lemma_tidy_bounds(d, c, f);
    let first = c.len() - 1;
    lemma_tidy_at(d, c, f, first);
    let rest = data.len() - i;
    assert(rest >= 4096);
    if p.byte_offset + 4096 > u64::MAX {
    } else {
        let part = data.subrange(i, i + 4096);
        let block = splice(d[p.sector as int], 0, part);
        assert(d[p.sector as int].len() == 4096);
        lemma_tidy_block(d, c, f, first, block);
        let d1 = d.update(p.sector as int, block);
        if f.len() <= 1 {
            lemma_extend_fails(d1, c, f);
        } else {
            lemma_tidy_extend(d1, c, f);
            let dx = m_extend(d1, p.sector).0;
            let px = FileProgress { sector: f[0], byte_offset: (p.byte_offset + 4096) as u64, ..p };
            let cx = c.push(f[0]);
            let fx = f.drop_first();
            assert((rest - 4096) / 4096 == rest / 4096 - 1);
            assert((p.byte_offset + 4096) % 4096 == 0);
            lemma_write_loop_fails(dx, cx, fx, px, data, i + 4096);
        }
    }
}

/// A chain cannot grow where the free list has one sector left: the last sector of the free
/// list is never handed out.
pub proof fn lemma_extend_runs_out(d: Disk, c: Seq<u64>, f: Seq<u64>)
    requires
        tidy(d, c, f),
        f.len() == 1,
    ensures
        m_extend(d, c.last()).1 == Err::<u64, ErrorKind>(ErrorKind::NotEnoughSpace),
{
    reveal(m_extend);
    reveal(tidy);
    law_alloc_keeps_the_last(d, f);
}

/// A write that fills as many sectors to their end as the free list has sectors, or more,
/// fails for want of space: writing at the end of a file, on a volume whose free list is
/// not empty, goes on until the free list has one sector left, and then fails with a
/// not-enough-space error.
pub proof fn law_write_runs_out(d: Disk, c: Seq<u64>, f: Seq<u64>, p: FileProgress, data: Seq<u8>, i: int)
    requires
        tidy(d, c, f),
        p.sector == c.last(),
        0 <= i <= data.len(),
        f.len() >= 1,
        (p.byte_offset % 4096 + (data.len() - i)) / 4096 >= f.len(),
        p.byte_offset + (data.len() - i) <= u64::MAX,
    ensures
        m_write_loop(d, p, data, i as nat).1 == Err::<FileProgress, ErrorKind>(
            ErrorKind::NotEnoughSpace,
        ),
    decreases data.len() - i,
{
    reveal(m_write_loop);
    lemma_tidy_bounds(d, c, f);
    let first = c.len() - 1;
    lemma_tidy_at(d, c, f, first);
    let rest = data.len() - i;
    let off = p.byte_offset as int % 4096;
    let take = 4096 - off;
    assert(rest >= take);
    let part = data.subrange(i, i + take);
    let block = splice(d[p.sector as int], off, part);
    assert(d[p.sector as int].len() == 4096);
    lemma_tidy_block(d, c, f, first, block);
    let d1 = d.update(p.sector as int, block);
    if f.len() == 1 {
        lemma_extend_runs_out(d1, c, f);
    } else {
        lemma_tidy_extend(d1, c, f);
        let dx = m_extend(d1, p.sector).0;
        let px = FileProgress { sector: f[0], byte_offset: (p.byte_offset + take) as u64, ..p };
        let cx = c.push(f[0]);
        let fx = f.drop_first();
        assert((p.byte_offset + take) % 4096 == 0);
        assert((0 + (rest - take)) / 4096 == (off + rest) / 4096 - 1);
        law_write_runs_out(dx, cx, fx, px, data, i + take);
    }
}

} // verus!
