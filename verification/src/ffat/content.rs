use vstd::prelude::*;
use crate::error::ErrorKind;
use crate::ffat::chains::{lemma_linked_short, linked};
use crate::ffat::dir::spec_decode_dir;
use crate::ffat::model::{chunk_count, disk_wf, m_meta, m_read_chain, m_read_dir_at, Disk, Entries};
use crate::ffat::structs::SectorType;

verus! {

/// The contents of sectors `k` up to `n` of a chain, one after the other.
pub open spec fn content_from(d: Disk, c: Seq<u64>, k: int, n: int) -> Seq<u8>
    decreases n - k,
{
    if k >= n {
        Seq::empty()
    } else {
        d[c[k] as int] + content_from(d, c, k + 1, n)
    }
}

/// The contents of the first `n` sectors of a chain.
pub open spec fn content(d: Disk, c: Seq<u64>, n: int) -> Seq<u8> {
    content_from(d, c, 0, n)
}

/// The contents of a chain are 4096 bytes for each sector.
pub proof fn lemma_content_len(d: Disk, c: Seq<u64>, k: int, n: int)
    requires
        disk_wf(d),
        0 <= k <= n <= c.len(),
        forall|i: int| 0 <= i < c.len() ==> (#[trigger] c[i]) < d.len(),
    ensures
        content_from(d, c, k, n).len() == 4096 * (n - k),
    decreases n - k,
{
    if k < n {
        assert(c[k] < d.len());
        lemma_content_len(d, c, k + 1, n);
    }
}

/// Byte `b` of the contents of a chain is byte `b % 4096` of sector `b / 4096` of the chain.
pub proof fn lemma_content_index(d: Disk, c: Seq<u64>, k: int, n: int, b: int)
    requires
        disk_wf(d),
        0 <= k <= n <= c.len(),
        forall|i: int| 0 <= i < c.len() ==> (#[trigger] c[i]) < d.len(),
        0 <= b < 4096 * (n - k),
    ensures
        content_from(d, c, k, n)[b] == d[c[k + b / 4096] as int][b % 4096],
    decreases n - k,
{
    lemma_content_len(d, c, k, n);
    assert(c[k] < d.len());
    if b < 4096 {
        assert(b / 4096 == 0);
        assert(b % 4096 == b);
    } else {
        lemma_content_len(d, c, k + 1, n);
        lemma_content_index(d, c, k + 1, n, b - 4096);
        assert((b - 4096) / 4096 == b / 4096 - 1);
        assert((b - 4096) % 4096 == b % 4096);
    }
}

/// The contents of a chain are the same on two volumes that hold the same bytes in each of
/// its sectors.
pub proof fn lemma_content_same(d: Disk, e: Disk, c: Seq<u64>, k: int, n: int)
    requires
        0 <= k <= n <= c.len(),
        forall|i: int| k <= i < n ==> e[#[trigger] c[i] as int] == d[c[i] as int],
    ensures
        content_from(e, c, k, n) == content_from(d, c, k, n),
    decreases n - k,
{
    if k < n {
        assert(e[c[k] as int] == d[c[k] as int]);
        lemma_content_same(d, e, c, k + 1, n);
    }
}

/// Reading the sectors `k` up to `n` of a chain gives their contents.
pub proof fn lemma_read_chain_content(d: Disk, c: Seq<u64>, k: int, n: int, acc: Seq<u8>)
    requires
        linked(d, c),
        0 <= k < c.len(),
        k <= n <= c.len(),
    ensures
        m_read_chain(d, c[k], (n - k) as nat, acc) == Ok::<Seq<u8>, ErrorKind>(
            acc + content_from(d, c, k, n),
        ),
    decreases n - k,
{
    reveal(m_read_chain);
    if k == n {
        assert(acc + content_from(d, c, k, n) =~= acc);
    } else {
        assert(m_meta(d, c[k]) is Ok);
        let entry = m_meta(d, c[k]).unwrap();
        let acc1 = acc + d[c[k] as int];
        if n - k == 1 {
            assert(content_from(d, c, k + 1, n) =~= Seq::<u8>::empty());
            assert(acc + content_from(d, c, k, n) =~= acc1);
        } else {
            assert(entry.next == c[k + 1]);
            assert(m_meta(d, c[k + 1]) is Ok);
            crate::ffat::growth::lemma_read_nonzero(d, c[k + 1]);
            lemma_read_chain_content(d, c, k + 1, n, acc1);
            assert(acc1 + content_from(d, c, k + 1, n) =~= acc + content_from(d, c, k, n));
        }
    }
}

/// The entries that the first `size` bytes of a chain hold, if they are the payload of a
/// directory.
pub open spec fn payload_entries(d: Disk, c: Seq<u64>, size: u64) -> Option<Entries> {
    spec_decode_dir(content(d, c, chunk_count(size as nat) as int).take(size as int))
}

/// Reading a directory whose chain is known gives the entries that the chain holds.
pub proof fn lemma_read_dir_content(d: Disk, c: Seq<u64>)
    requires
        disk_wf(d),
        linked(d, c),
        m_meta(d, c[0]).unwrap().sector_type == SectorType::Dir,
        m_meta(d, c[0]).unwrap().size <= 4096 * c.len(),
    ensures
        m_read_dir_at(d, c[0]) == (match payload_entries(d, c, m_meta(d, c[0]).unwrap().size) {
            Some(entries) => Ok::<Entries, ErrorKind>(entries),
            None => Err(ErrorKind::InternalError),
        }),
{
    reveal(m_read_dir_at);
    assert(m_meta(d, c[0]) is Ok);
    let entry = m_meta(d, c[0]).unwrap();
    let n = chunk_count(entry.size as nat);
    assert(n <= c.len());
    lemma_linked_short(d, c);
    lemma_read_chain_content(d, c, 0, n as int, Seq::empty());
    assert(Seq::<u8>::empty() + content_from(d, c, 0, n as int) =~= content(d, c, n as int));
}

} // verus!
