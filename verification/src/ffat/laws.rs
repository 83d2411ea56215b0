use vstd::prelude::*;
use crate::error::ErrorKind;
use crate::ffat::dir::{
    lemma_decode_encode_dir, lemma_encode_decode_dir, names_of, position, spec_encode_dir,
};
use crate::ffat::layout::{lemma_le_roundtrip, lemma_splice, splice};
use crate::ffat::model::{
    chunk, chunk_count, disk_wf, format_base, format_entry, format_root, format_table_block, lemma_meta_ok, m_create, m_create_file, m_cut_after, m_delete, m_exists, m_format, m_lookup, m_meta, m_open, m_open_write, m_read, m_read_chain, m_read_dir, m_read_dir_at, m_read_loop, m_root, m_seek, m_set_meta, m_walk, m_walk_from, m_write_chunks, m_write_dir_at, m_write_payload, Disk, Entries,
};
use crate::ffat::structs::{
    entry_in, lemma_entry_in_splice, table_sectors, FileProgress, ReadProgress, RootView, Sector,
    SectorType, WriteProgress,
};

verus! {

/// The payload of every directory that can be read is the encoding of its entries: reading
/// a directory and writing its entries again gives the bytes that were read, up to the size
/// of the directory.
pub proof fn law_directory_reencodes(d: Disk, addr: u64)
    requires
        disk_wf(d),
        m_read_dir_at(d, addr) is Ok,
    ensures
        m_meta(d, addr) is Ok,
        m_read_chain(
            d,
            addr,
            chunk_count(m_meta(d, addr).unwrap().size as nat),
            Seq::empty(),
        ) is Ok,
        spec_encode_dir(m_read_dir_at(d, addr).unwrap()) == m_read_chain(
            d,
            addr,
            chunk_count(m_meta(d, addr).unwrap().size as nat),
            Seq::empty(),
        ).unwrap().take(m_meta(d, addr).unwrap().size as int),
{
    reveal(m_read_dir_at);
    let entry = m_meta(d, addr).unwrap();
    let n = chunk_count(entry.size as nat);
    lemma_read_chain_len(d, addr, n, Seq::empty());
    let bytes = m_read_chain(d, addr, n, Seq::empty()).unwrap().take(entry.size as int);
    assert(entry.size <= 4096 * n);
    assert(bytes.len() == entry.size);
    lemma_encode_decode_dir(bytes);
}

/// Reading `n` sectors of a chain adds 4096 bytes for each of them.
pub proof fn lemma_read_chain_len(d: Disk, addr: u64, n: nat, acc: Seq<u8>)
    requires
        disk_wf(d),
        m_read_chain(d, addr, n, acc) is Ok,
    ensures
        m_read_chain(d, addr, n, acc).unwrap().len() == acc.len() + 4096 * n,
    decreases n,
{
    reveal(m_read_chain);
    if n > 0 {
        lemma_meta_ok(d, addr);
        let entry = m_meta(d, addr).unwrap();
        if n > 1 {
            lemma_read_chain_len(d, entry.next, (n - 1) as nat, acc + d[addr as int]);
        }
    }
}

/// Opening a file for writing under a path that leads nowhere fails with a not-found error,
/// and the volume stays as it is.
pub proof fn law_open_write_missing(d: Disk, path: Seq<Seq<u8>>)
    requires
        m_walk(d, path) == Err::<u64, ErrorKind>(ErrorKind::NotFound),
    ensures
        m_open_write(d, path) == (d, Err::<WriteProgress, ErrorKind>(ErrorKind::NotFound)),
{
    reveal(m_open_write);
    reveal(m_open);
}

/// Creating a file in a directory that does not exist fails with a not-found error, and the
/// volume stays as it is.
pub proof fn law_create_file_without_parent(d: Disk, path: Seq<Seq<u8>>)
    requires
        path.len() > 0,
        m_walk(d, path.drop_last()) == Err::<u64, ErrorKind>(ErrorKind::NotFound),
    ensures
        m_create_file(d, path) == (d, Err::<(), ErrorKind>(ErrorKind::NotFound)),
{
    reveal(m_create_file);
    reveal(m_create);
}

/// Following a path with one more name is following the path and then looking the name up
/// in the directory that it leads to.
pub proof fn lemma_walk_push(d: Disk, addr: u64, path: Seq<Seq<u8>>, name: Seq<u8>)
    ensures
        m_walk_from(d, addr, path.push(name)) == (match m_walk_from(d, addr, path) {
            Err(e) => Err::<u64, ErrorKind>(e),
            Ok(parent) => match m_read_dir_at(d, parent) {
                Err(e) => Err(e),
                Ok(entries) => match m_lookup(entries, name) {
                    None => Err(ErrorKind::NotFound),
                    Some(child) => Ok(child),
                },
            },
        }),
    decreases path.len(),
{
    reveal(m_walk_from);
    let longer = path.push(name);
    if path.len() == 0 {
        assert(longer.drop_first() =~= Seq::<Seq<u8>>::empty());
        assert(longer[0] == name);
        match m_read_dir_at(d, addr) {
            Ok(entries) => {
                match m_lookup(entries, name) {
                    Some(child) => {
                        assert(m_walk_from(d, child, longer.drop_first()) == Ok::<u64, ErrorKind>(
                            child,
                        ));
                    },
                    None => {},
                }
            },
            Err(_) => {},
        }
    } else {
        assert(longer.drop_first() =~= path.drop_first().push(name));
        assert(longer[0] == path[0]);
        match m_read_dir_at(d, addr) {
            Ok(entries) => {
                match m_lookup(entries, path[0]) {
                    Some(next) => {
                        lemma_walk_push(d, next, path.drop_first(), name);
                    },
                    None => {},
                }
            },
            Err(_) => {},
        }
    }
}

/// Creating a file under a name that exists fails with an illegal-operation error, and the
/// volume stays as it is.
pub proof fn law_create_file_existing(d: Disk, path: Seq<Seq<u8>>)
    requires
        path.len() > 0,
        m_walk(d, path) is Ok,
    ensures
        m_create_file(d, path) == (d, Err::<(), ErrorKind>(ErrorKind::IllegalOperation)),
{
    reveal(m_create_file);
    reveal(m_create);
    reveal(m_walk);
    let root = m_root(d).unwrap();
    assert(path.drop_last().push(path.last()) =~= path);
    lemma_walk_push(d, root.root, path.drop_last(), path.last());
}

/// Deleting the root directory fails with an illegal-operation error, and the volume stays
/// as it is.
pub proof fn law_delete_root(d: Disk, fuel: nat)
    ensures
        m_delete(d, Seq::empty(), fuel) == (d, Err::<(), ErrorKind>(ErrorKind::IllegalOperation)),
{
    reveal(m_delete);
}

/// A read at or behind the end of the file gives no bytes and leaves the position where it
/// is, so that every later read gives no bytes either.
pub proof fn law_read_at_end(d: Disk, progress: ReadProgress, want: nat)
    requires
        progress.0.byte_offset >= progress.1,
    ensures
        m_read(d, progress, want) == Ok::<(FileProgress, Seq<u8>), ErrorKind>(
            (progress.0, Seq::empty()),
        ),
{
    reveal(m_read);
    reveal(m_read_loop);
}

/// After a seek to or behind the end of the file every read gives no bytes.
pub proof fn law_seek_past_end(d: Disk, progress: ReadProgress, delta: nat, want: nat)
    requires
        progress.0.byte_offset + delta >= progress.1,
        m_seek(d, progress, delta) is Ok,
    ensures
        m_read(d, m_seek(d, progress, delta).unwrap(), want) == Ok::<
            (FileProgress, Seq<u8>),
            ErrorKind,
        >((m_seek(d, progress, delta).unwrap().0, Seq::empty())),
{
    reveal(m_seek);
    law_read_at_end(d, m_seek(d, progress, delta).unwrap(), want);
}

/// After a table entry is written it is read back, every other entry is as before, and the
/// root sector and the size of the volume are as before.
pub proof fn lemma_set_meta_reads(d: Disk, addr: u64, entry: Sector, other: u64)
    requires
        disk_wf(d),
        m_set_meta(d, addr, entry).1 is Ok,
    ensures
        disk_wf(m_set_meta(d, addr, entry).0),
        m_set_meta(d, addr, entry).0.len() == d.len(),
        m_root(m_set_meta(d, addr, entry).0) == m_root(d),
        m_meta(m_set_meta(d, addr, entry).0, other) == (if other == addr {
            Ok::<Sector, ErrorKind>(entry)
        } else {
            m_meta(d, other)
        }),
        forall|i: int|
            m_root(d).unwrap().root <= i < d.len() ==> #[trigger] m_set_meta(d, addr, entry).0[i]
                == d[i],
{
    let root = m_root(d).unwrap();
    let place = root.locate(addr).unwrap();
    root.lemma_locate_in_table(d.len(), addr);
    let block = d[place.0 as int];
    entry.lemma_roundtrip();
    lemma_splice(block, 32 * (place.1 as int), entry.spec_encode());
    let after = m_set_meta(d, addr, entry).0;
    assert(after[0] == d[0]);
    if root.locate(other) is Some {
        let there = root.locate(other).unwrap();
        root.lemma_locate_in_table(d.len(), other);
        if there.0 == place.0 {
            lemma_entry_in_splice(block, place.1 as int, entry, there.1 as int);
            if there.1 == place.1 {
                assert(other == addr);
            }
        } else {
            assert(after[there.0 as int] == d[there.0 as int]);
        }
    }
}

/// Writing a table entry over one that was just written is writing it alone.
pub proof fn lemma_set_meta_over(d: Disk, addr: u64, first: Sector, second: Sector)
    requires
        disk_wf(d),
        m_set_meta(d, addr, first).1 is Ok,
    ensures
        m_set_meta(m_set_meta(d, addr, first).0, addr, second) == m_set_meta(d, addr, second),
{
    let root = m_root(d).unwrap();
    let place = root.locate(addr).unwrap();
    root.lemma_locate_in_table(d.len(), addr);
    let block = d[place.0 as int];
    first.lemma_roundtrip();
    second.lemma_roundtrip();
    let once = splice(block, 32 * (place.1 as int), first.spec_encode());
    let after = m_set_meta(d, addr, first).0;
    lemma_set_meta_reads(d, addr, first, addr);
    assert(after[place.0 as int] == once);
    assert(splice(once, 32 * (place.1 as int), second.spec_encode()) =~= splice(
        block,
        32 * (place.1 as int),
        second.spec_encode(),
    ));
    assert(m_set_meta(after, addr, second).0 =~= m_set_meta(d, addr, second).0);
}

/// Writing a table entry and writing a sector of the data region can be done in either
/// order.
pub proof fn lemma_set_meta_commutes(d: Disk, addr: u64, entry: Sector, at: u64, block: Seq<u8>)
    requires
        disk_wf(d),
        m_meta(d, addr) is Ok,
        m_meta(d, at) is Ok,
        block.len() == 4096,
    ensures
        m_set_meta(d.update(at as int, block), addr, entry).0 == m_set_meta(d, addr, entry).0.update(
            at as int,
            block,
        ),
        m_set_meta(d.update(at as int, block), addr, entry).1 is Ok,
{
    let root = m_root(d).unwrap();
    let place = root.locate(addr).unwrap();
    root.lemma_locate_in_table(d.len(), addr);
    lemma_meta_ok(d, at);
    let e = d.update(at as int, block);
    assert(e[0] == d[0]);
    assert(e[place.0 as int] == d[place.0 as int]);
    assert(m_set_meta(e, addr, entry).0 =~= m_set_meta(d, addr, entry).0.update(at as int, block));
}

/// Writing the entry that is there already changes nothing.
pub proof fn lemma_set_meta_again(d: Disk, addr: u64, entry: Sector)
    requires
        disk_wf(d),
        m_set_meta(d, addr, entry).1 is Ok,
    ensures
        m_set_meta(m_set_meta(d, addr, entry).0, addr, entry) == m_set_meta(d, addr, entry),
{
    let root = m_root(d).unwrap();
    let place = root.locate(addr).unwrap();
    root.lemma_locate_in_table(d.len(), addr);
    let block = d[place.0 as int];
    entry.lemma_roundtrip();
    let once = splice(block, 32 * (place.1 as int), entry.spec_encode());
    let after = m_set_meta(d, addr, entry).0;
    lemma_set_meta_reads(d, addr, entry, addr);
    assert(after[place.0 as int] == once);
    assert(splice(once, 32 * (place.1 as int), entry.spec_encode()) =~= once);
    assert(m_set_meta(after, addr, entry).0 =~= after);
}

/// An entry of a table sector of a freshly formatted volume is read as it was laid out.
pub proof fn lemma_format_table_entry(sectors: nat, k: nat, i: int)
    requires
        0 <= i < 128,
    ensures
        entry_in(format_table_block(sectors, k), i) == format_entry(sectors, (k * 128 + i) as nat),
{
    let block = format_table_block(sectors, k);
    let entry = format_entry(sectors, (k * 128 + i) as nat);
    entry.lemma_roundtrip();
    assert(block.subrange(32 * i, 32 * i + 32) =~= entry.spec_encode()) by {
        assert forall|b: int| 0 <= b < 32 implies block.subrange(32 * i, 32 * i + 32)[b]
            == entry.spec_encode()[b] by {
            assert((32 * i + b) / 32 == i);
            assert((32 * i + b) % 32 == b);
        }
    }
}

/// After the root sector and the table have been written, the root sector is valid and the
/// table holds the entries of a freshly formatted volume.
pub proof fn lemma_format_base(d: Disk, addr: u64)
    requires
        disk_wf(d),
        8 <= d.len() <= 0x7fff_ffff_ffff_ffff,
    ensures
        disk_wf(format_base(d)),
        format_base(d).len() == d.len(),
        m_root(format_base(d)) == Ok::<RootView, ErrorKind>(format_root(d.len())),
        table_sectors(d.len()) + 2 < d.len(),
        table_sectors(d.len()) < addr < d.len() ==> m_meta(format_base(d), addr) == Ok::<
            Sector,
            ErrorKind,
        >(format_entry(d.len(), addr as nat)),
{
    let base = format_base(d);
    let root = format_root(d.len());
    lemma_le_roundtrip();
    root.lemma_roundtrip();
    assert(base[0] == root.spec_encode());
    assert forall|i: int| 0 <= i < base.len() implies (#[trigger] base[i]).len() == 4096 by {
        if i == 0 {
        } else if i <= table_sectors(d.len()) {
        } else {
            assert(base[i] == d[i]);
        }
    }
    assert(root.valid(base.len()));
    if table_sectors(d.len()) < addr < d.len() {
        let place = root.locate(addr).unwrap();
        root.lemma_locate_in_table(base.len(), addr);
        let k = (place.0 - 1) as nat;
        assert(base[place.0 as int] == format_table_block(d.len(), k));
        lemma_format_table_entry(d.len(), k, place.1 as int);
        assert(k * 128 + place.1 == addr);
    }
}

/// Formatting a device that has at least 8 sectors of 4096 bytes succeeds, and the root
/// directory of the fresh volume has no entries.
pub proof fn law_format_gives_empty_root(d: Disk)
    requires
        disk_wf(d),
        8 <= d.len() <= 0x7fff_ffff_ffff_ffff,
    ensures
        m_format(d).1 is Ok,
        disk_wf(m_format(d).0),
        m_format(d).0.len() == d.len(),
        m_root(m_format(d).0) == Ok::<RootView, ErrorKind>(format_root(d.len())),
        m_read_dir(m_format(d).0, Seq::empty()) == Ok::<Seq<Seq<u8>>, ErrorKind>(Seq::empty()),
        m_exists(m_format(d).0, Seq::empty(), SectorType::Dir) == Ok::<bool, ErrorKind>(true),
        m_meta(m_format(d).0, (table_sectors(d.len()) + 1) as u64) == Ok::<Sector, ErrorKind>(
            Sector { sector_type: SectorType::Dir, size: 8, next: 0 },
        ),
        m_read_dir_at(m_format(d).0, (table_sectors(d.len()) + 1) as u64) == Ok::<
            Entries,
            ErrorKind,
        >(Seq::empty()),
        forall|a: u64|
            table_sectors(d.len()) + 1 < a < d.len() ==> #[trigger] m_meta(m_format(d).0, a)
                == Ok::<Sector, ErrorKind>(format_entry(d.len(), a as nat)),
{
    reveal(m_format);
    reveal(m_write_dir_at);
    reveal(m_write_payload);
    reveal(m_write_chunks);
    reveal(m_cut_after);
    reveal(m_read_dir);
    reveal(m_read_dir_at);
    reveal(m_read_chain);
    reveal(m_walk);
    reveal(m_walk_from);
    reveal(m_exists);
    lemma_le_roundtrip();
    let base = format_base(d);
    let home = (table_sectors(d.len()) + 1) as u64;
    lemma_format_base(d, home);
    let none: Entries = Seq::empty();
    let bytes = spec_encode_dir(none);
    assert(crate::ffat::dir::encode_addrs(crate::ffat::dir::addrs_of(none)) =~= Seq::<u8>::empty());
    assert(crate::ffat::dir::encode_names(names_of(none)) =~= Seq::<u8>::empty());
    assert(bytes.len() == 8);
    assert(chunk_count(8) == 1);
    let entry = format_entry(d.len(), home as nat);
    assert(entry == Sector { sector_type: SectorType::Dir, size: 0, next: 0 });
    let sized = Sector { size: 8, ..entry };
    let d1 = m_set_meta(base, home, sized).0;
    lemma_set_meta_reads(base, home, sized, home);
    let d2 = d1.update(home as int, chunk(bytes, 0));
    assert(d2[0] == d1[0]);
    assert(m_root(d2) == m_root(d1));
    let root = format_root(d.len());
    let place = root.locate(home).unwrap();
    root.lemma_locate_in_table(d.len(), home);
    assert(d2[place.0 as int] == d1[place.0 as int]);
    assert(m_meta(d2, home) == Ok::<Sector, ErrorKind>(sized));
    assert(m_write_chunks(d1, home, bytes, 0, 1) == (d2, Ok::<u64, ErrorKind>(home)));
    assert(m_cut_after(d2, home) == (d2, Ok::<(), ErrorKind>(())));
    assert(m_format(d) == (d2, Ok::<(), ErrorKind>(())));
    assert forall|i: int| 0 <= i < d2.len() implies (#[trigger] d2[i]).len() == 4096 by {
        if i != home {
            assert(d2[i] == d1[i]);
        }
    }
    assert(m_read_chain(d2, home, 1, Seq::empty()) == Ok::<Seq<u8>, ErrorKind>(
        Seq::<u8>::empty() + d2[home as int],
    ));
    assert((Seq::<u8>::empty() + d2[home as int]).take(8) =~= bytes);
    lemma_decode_encode_dir(none);
    assert(m_read_dir_at(d2, home) == Ok::<Entries, ErrorKind>(none));
    assert(names_of(none) =~= Seq::<Seq<u8>>::empty());
    assert(m_walk(d2, Seq::empty()) == Ok::<u64, ErrorKind>(home));
    assert forall|a: u64| table_sectors(d.len()) + 1 < a < d.len() implies #[trigger] m_meta(d2, a)
        == Ok::<Sector, ErrorKind>(format_entry(d.len(), a as nat)) by {
        lemma_format_base(d, a);
        lemma_set_meta_reads(base, home, sized, a);
        if root.locate(a) is Some {
            root.lemma_locate_in_table(d.len(), a);
            let there = root.locate(a).unwrap();
            assert(d2[there.0 as int] == d1[there.0 as int]);
        }
    }
}

} // verus!
