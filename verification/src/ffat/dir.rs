use vstd::prelude::*;
use crate::bytes::{bytes_eq, clone_bytes, names_view};
use crate::ffat::layout::{get_bytes, get_u64, le_bytes, le_value, lemma_le_roundtrip};
use crate::path::Filename;
use vstd::bytes::u64_to_le_bytes;

verus! {

/// An entry of a directory: the address of the first sector of a file or directory, and
/// its name.
pub type DirEntry = (u64, Filename);

/// The entries of a directory.
pub type DirData = Vec<DirEntry>;

/// The entries of a directory as values.
pub open spec fn entries_view(data: Seq<DirEntry>) -> Seq<(u64, Seq<u8>)> {
    Seq::new(data.len(), |i: int| (data[i].0, data[i].1@))
}

/// The addresses of the entries, in order.
pub open spec fn addrs_of(entries: Seq<(u64, Seq<u8>)>) -> Seq<u64> {
    Seq::new(entries.len(), |i: int| entries[i].0)
}

/// The names of the entries, in order.
pub open spec fn names_of(entries: Seq<(u64, Seq<u8>)>) -> Seq<Seq<u8>> {
    Seq::new(entries.len(), |i: int| entries[i].1)
}

/// The addresses one after the other, eight bytes each, least significant byte first.
pub open spec fn encode_addrs(addrs: Seq<u64>) -> Seq<u8>
    decreases addrs.len(),
{
    if addrs.len() == 0 {
        Seq::empty()
    } else {
        le_bytes(addrs[0]) + encode_addrs(addrs.drop_first())
    }
}

/// The names one after the other, each behind a byte that holds its length.
pub open spec fn encode_names(names: Seq<Seq<u8>>) -> Seq<u8>
    decreases names.len(),
{
    if names.len() == 0 {
        Seq::empty()
    } else {
        seq![names[0].len() as u8] + names[0] + encode_names(names.drop_first())
    }
}

/// Whether the entries can be written: no name is longer than 255 bytes, and the number of
/// entries fits 64 bits.
pub open spec fn encodable(entries: Seq<(u64, Seq<u8>)>) -> bool {
    &&& entries.len() <= u64::MAX
    &&& forall|i: int| 0 <= i < entries.len() ==> (#[trigger] entries[i]).1.len() <= 255
}

/// The payload of a directory: the number of entries in eight bytes, then all addresses,
/// then all names.
pub open spec fn spec_encode_dir(entries: Seq<(u64, Seq<u8>)>) -> Seq<u8> {
    le_bytes(entries.len() as u64) + encode_addrs(addrs_of(entries)) + encode_names(
        names_of(entries),
    )
}

/// Reads `count` names, each behind its length byte, from bytes that hold nothing else.
pub open spec fn decode_names(bytes: Seq<u8>, count: nat) -> Option<Seq<Seq<u8>>>
    decreases count,
{
    if count == 0 {
        if bytes.len() == 0 {
            Some(Seq::empty())
        } else {
            None
        }
    } else if bytes.len() == 0 || 1 + bytes[0] > bytes.len() {
        None
    } else {
        match decode_names(bytes.skip(1 + bytes[0]), (count - 1) as nat) {
            Some(rest) => Some(seq![bytes.subrange(1, 1 + bytes[0])] + rest),
            None => None,
        }
    }
}

/// The entries that a payload holds, if it is the payload of a directory: the count, that
/// many addresses and that many names, and not a byte more.
pub open spec fn spec_decode_dir(bytes: Seq<u8>) -> Option<Seq<(u64, Seq<u8>)>> {
    if bytes.len() < 8 {
        None
    } else {
        let count = le_value(bytes.subrange(0, 8)) as nat;
        if 8 + 8 * count > bytes.len() {
            None
        } else {
            match decode_names(bytes.skip(8 + 8 * (count as int)), count) {
                Some(names) => Some(
                    Seq::new(
                        count,
                        |i: int| (le_value(bytes.subrange(8 + 8 * i, 16 + 8 * i)), names[i]),
                    ),
                ),
                None => None,
            }
        }
    }
}

proof fn lemma_encode_addrs_push(addrs: Seq<u64>, last: u64)
    ensures
        encode_addrs(addrs.push(last)) == encode_addrs(addrs) + le_bytes(last),
    decreases addrs.len(),
{
    if addrs.len() == 0 {
        assert(addrs.push(last).drop_first() =~= Seq::<u64>::empty());
        assert(addrs.push(last)[0] == last);
        assert(encode_addrs(addrs.push(last).drop_first()) =~= Seq::<u8>::empty());
        assert(encode_addrs(addrs) =~= Seq::<u8>::empty());
        assert(encode_addrs(addrs.push(last)) =~= encode_addrs(addrs) + le_bytes(last));
    } else {
        assert(addrs.push(last).drop_first() =~= addrs.drop_first().push(last));
        lemma_encode_addrs_push(addrs.drop_first(), last);
        assert(encode_addrs(addrs.push(last)) =~= encode_addrs(addrs) + le_bytes(last));
    }
}

proof fn lemma_encode_names_push(names: Seq<Seq<u8>>, last: Seq<u8>)
    ensures
        encode_names(names.push(last)) == encode_names(names) + seq![last.len() as u8] + last,
    decreases names.len(),
{
    if names.len() == 0 {
        assert(names.push(last).drop_first() =~= Seq::<Seq<u8>>::empty());
        assert(names.push(last)[0] == last);
        assert(encode_names(names.push(last).drop_first()) =~= Seq::<u8>::empty());
        assert(encode_names(names) =~= Seq::<u8>::empty());
        assert(encode_names(names.push(last)) =~= encode_names(names) + seq![last.len() as u8]
            + last);
    } else {
        assert(names.push(last).drop_first() =~= names.drop_first().push(last));
        lemma_encode_names_push(names.drop_first(), last);
        assert(encode_names(names.push(last)) =~= encode_names(names) + seq![last.len() as u8]
            + last);
    }
}

/// Each address takes eight bytes, at eight times its index.
proof fn lemma_encode_addrs_layout(addrs: Seq<u64>)
    ensures
        encode_addrs(addrs).len() == 8 * addrs.len(),
        forall|i: int| 0 <= i < addrs.len() ==> #[trigger] encode_addrs(addrs).subrange(8 * i, 8 * i + 8) == le_bytes(addrs[i]),
    decreases addrs.len(),
{
    lemma_le_roundtrip();
    if addrs.len() > 0 {
        let rest = addrs.drop_first();
        lemma_encode_addrs_layout(rest);
        let all = encode_addrs(addrs);
        assert forall|i: int| 0 <= i < addrs.len() implies #[trigger] all.subrange(8 * i, 8 * i + 8)
            == le_bytes(addrs[i]) by {
            if i == 0 {
                assert(all.subrange(0, 8) =~= le_bytes(addrs[0]));
            } else {
                assert(all.subrange(8 * i, 8 * i + 8) =~= encode_addrs(rest).subrange(
                    8 * (i - 1),
                    8 * (i - 1) + 8,
                ));
                assert(rest[i - 1] == addrs[i]);
            }
        }
    }
}

/// Bytes that hold an address at every eighth place are the encoding of those addresses.
proof fn lemma_addrs_from_layout(bytes: Seq<u8>, addrs: Seq<u64>)
    requires
        bytes.len() == 8 * addrs.len(),
        forall|i: int| 0 <= i < addrs.len() ==> addrs[i] == le_value(#[trigger] bytes.subrange(8 * i, 8 * i + 8)),
    ensures
        encode_addrs(addrs) == bytes,
    decreases addrs.len(),
{
    lemma_le_roundtrip();
    if addrs.len() == 0 {
        assert(bytes =~= Seq::<u8>::empty());
    } else {
        let rest = addrs.drop_first();
        let tail = bytes.skip(8);
        assert forall|i: int| 0 <= i < rest.len() implies rest[i] == le_value(
            #[trigger] tail.subrange(8 * i, 8 * i + 8),
        ) by {
            assert(tail.subrange(8 * i, 8 * i + 8) =~= bytes.subrange(8 * (i + 1), 8 * (i + 1) + 8));
            assert(rest[i] == addrs[i + 1]);
        }
        lemma_addrs_from_layout(tail, rest);
        assert(bytes.subrange(8 * 0int, 8 * 0int + 8).len() == 8);
        assert(le_bytes(addrs[0]) == bytes.subrange(0, 8));
        assert(encode_addrs(addrs) =~= bytes);
    }
}

/// Names of at most 255 bytes are read back as they were written.
proof fn lemma_decode_encode_names(names: Seq<Seq<u8>>)
    requires
        forall|i: int| 0 <= i < names.len() ==> (#[trigger] names[i]).len() <= 255,
    ensures
        decode_names(encode_names(names), names.len()) == Some(names),
    decreases names.len(),
{
    if names.len() == 0 {
        assert(names =~= Seq::<Seq<u8>>::empty());
    } else {
        let rest = names.drop_first();
        let bytes = encode_names(names);
        assert(names[0].len() <= 255);
        assert(bytes[0] == names[0].len() as u8);
        assert(bytes.skip(1 + bytes[0]) =~= encode_names(rest));
        assert(bytes.subrange(1, 1 + bytes[0]) =~= names[0]);
        assert forall|i: int| 0 <= i < rest.len() implies (#[trigger] rest[i]).len() <= 255 by {
            assert(rest[i] == names[i + 1]);
        }
        lemma_decode_encode_names(rest);
        assert(seq![names[0]] + rest =~= names);
    }
}

/// Names that were read are at most 255 bytes long, and writing them gives the bytes that
/// they were read from.
proof fn lemma_encode_decode_names(bytes: Seq<u8>, count: nat)
    requires
        decode_names(bytes, count) is Some,
    ensures
        decode_names(bytes, count).unwrap().len() == count,
        forall|i: int| 0 <= i < count ==> (#[trigger] decode_names(bytes, count).unwrap()[i]).len() <= 255,
        encode_names(decode_names(bytes, count).unwrap()) == bytes,
    decreases count,
{
    let names = decode_names(bytes, count).unwrap();
    if count == 0 {
        assert(bytes =~= Seq::<u8>::empty());
    } else {
        let tail = bytes.skip(1 + bytes[0]);
        lemma_encode_decode_names(tail, (count - 1) as nat);
        let rest = decode_names(tail, (count - 1) as nat).unwrap();
        assert(names == seq![bytes.subrange(1, 1 + bytes[0])] + rest);
        assert(names.drop_first() =~= rest);
        assert forall|i: int| 0 <= i < count implies (#[trigger] names[i]).len() <= 255 by {
            if i > 0 {
                assert(names[i] == rest[i - 1]);
            }
        }
        assert(encode_names(names) =~= bytes);
    }
}

/// Entries that can be written are read back as they were written.
pub proof fn lemma_decode_encode_dir(entries: Seq<(u64, Seq<u8>)>)
    requires
        encodable(entries),
    ensures
        spec_decode_dir(spec_encode_dir(entries)) == Some(entries),
{
    lemma_le_roundtrip();
    let bytes = spec_encode_dir(entries);
    let addrs = addrs_of(entries);
    let names = names_of(entries);
    lemma_encode_addrs_layout(addrs);
    assert(bytes.subrange(0, 8) =~= le_bytes(entries.len() as u64));
    let count = entries.len();
    assert(bytes.skip(8 + 8 * (count as int)) =~= encode_names(names));
    assert forall|i: int| 0 <= i < names.len() implies (#[trigger] names[i]).len() <= 255 by {
        assert(entries[i].1.len() <= 255);
    }
    lemma_decode_encode_names(names);
    let decoded = spec_decode_dir(bytes).unwrap();
    assert forall|i: int| 0 <= i < count implies decoded[i] == entries[i] by {
        assert(bytes.subrange(8 + 8 * i, 16 + 8 * i) =~= encode_addrs(addrs).subrange(
            8 * i,
            8 * i + 8,
        ));
        assert(addrs[i] == entries[i].0);
        assert(names[i] == entries[i].1);
    }
    assert(decoded =~= entries);
}

/// Reading a payload and writing the entries again gives the same bytes, and what was read
/// can always be written.
pub proof fn lemma_encode_decode_dir(bytes: Seq<u8>)
    requires
        spec_decode_dir(bytes) is Some,
        bytes.len() <= u64::MAX,
    ensures
        encodable(spec_decode_dir(bytes).unwrap()),
        spec_encode_dir(spec_decode_dir(bytes).unwrap()) == bytes,
{
    lemma_le_roundtrip();
    let entries = spec_decode_dir(bytes).unwrap();
    let count = le_value(bytes.subrange(0, 8)) as nat;
    let tail = bytes.skip(8 + 8 * (count as int));
    lemma_encode_decode_names(tail, count);
    let names = decode_names(tail, count).unwrap();
    assert(names_of(entries) =~= names);
    let addrs = addrs_of(entries);
    let middle = bytes.subrange(8, 8 + 8 * (count as int));
    assert forall|i: int| 0 <= i < addrs.len() implies addrs[i] == le_value(
        #[trigger] middle.subrange(8 * i, 8 * i + 8),
    ) by {
        assert(middle.subrange(8 * i, 8 * i + 8) =~= bytes.subrange(8 + 8 * i, 16 + 8 * i));
    }
    lemma_addrs_from_layout(middle, addrs);
    assert forall|i: int| 0 <= i < entries.len() implies (#[trigger] entries[i]).1.len() <= 255 by {
        assert(entries[i].1 == names[i]);
    }
    assert(bytes.subrange(0, 8).len() == 8);
    assert(le_bytes(count as u64) == bytes.subrange(0, 8));
    assert(spec_encode_dir(entries) =~= bytes);
}

/// One entry more makes the payload longer by the eight bytes of its address, the byte of
/// the length of its name, and its name.
pub proof fn lemma_encode_push_len(entries: Seq<(u64, Seq<u8>)>, one: (u64, Seq<u8>))
    ensures
        spec_encode_dir(entries.push(one)).len() == spec_encode_dir(entries).len() + 9
            + one.1.len(),
{
    lemma_le_roundtrip();
    let longer = entries.push(one);
    assert(addrs_of(longer) =~= addrs_of(entries).push(one.0));
    assert(names_of(longer) =~= names_of(entries).push(one.1));
    lemma_encode_addrs_push(addrs_of(entries), one.0);
    lemma_encode_names_push(names_of(entries), one.1);
}

/// Writes the entries of a directory as its payload. Entries that cannot be written, because
/// a name is longer than 255 bytes, give nothing.
pub fn encode_dir(data: &DirData) -> (payload: Option<Vec<u8>>)
    ensures
        encodable(entries_view(data@)) <==> payload is Some,
        payload matches Some(bytes) ==> bytes@ == spec_encode_dir(entries_view(data@)),
{
    let ghost entries = entries_view(data@);
    let n = data.len();
    let mut out: Vec<u8> = u64_to_le_bytes(n as u64);
    let mut i: usize = 0;
    assert(addrs_of(entries).take(0) =~= Seq::<u64>::empty());
    assert(out@ =~= le_bytes(n as u64) + encode_addrs(addrs_of(entries).take(0)));
    while i < n
        invariant
            i <= n,
            n == data.len(),
            entries == entries_view(data@),
            out@ == le_bytes(n as u64) + encode_addrs(addrs_of(entries).take(i as int)),
        decreases n - i,
    {
        let mut part = u64_to_le_bytes(data[i].0);
        proof {
            lemma_encode_addrs_push(addrs_of(entries).take(i as int), entries[i as int].0);
            assert(addrs_of(entries).take(i as int).push(entries[i as int].0) =~= addrs_of(
                entries,
            ).take(i + 1));
        }
        let ghost before = out@;
        out.append(&mut part);
        assert(out@ =~= le_bytes(n as u64) + encode_addrs(addrs_of(entries).take(i + 1)));
        i += 1;
    }
    assert(addrs_of(entries).take(n as int) =~= addrs_of(entries));
    let ghost head = out@;
    i = 0;
    assert(names_of(entries).take(0) =~= Seq::<Seq<u8>>::empty());
    assert(out@ =~= head + encode_names(names_of(entries).take(0)));
    while i < n
        invariant
            i <= n,
            n == data.len(),
            entries == entries_view(data@),
            head == le_bytes(n as u64) + encode_addrs(addrs_of(entries)),
            out@ == head + encode_names(names_of(entries).take(i as int)),
            forall|k: int| 0 <= k < i ==> (#[trigger] entries[k]).1.len() <= 255,
        decreases n - i,
    {
        let name = &data[i].1;
        if name.len() > 255 {
            assert(entries[i as int].1.len() > 255);
            return None;
        }
        proof {
            lemma_encode_names_push(names_of(entries).take(i as int), entries[i as int].1);
            assert(names_of(entries).take(i as int).push(entries[i as int].1) =~= names_of(
                entries,
            ).take(i + 1));
        }
        out.push(name.len() as u8);
        let mut k: usize = 0;
        let ghost base = out@;
        while k < name.len()
            invariant
                k <= name.len(),
                out@ == base + name@.take(k as int),
            decreases name.len() - k,
        {
            out.push(name[k]);
            assert(name@.take(k as int).push(name@[k as int]) =~= name@.take(k + 1));
            assert(out@ =~= base + name@.take(k + 1));
            k += 1;
        }
        assert(name@.take(name.len() as int) =~= name@);
        assert(out@ =~= head + encode_names(names_of(entries).take(i + 1)));
        i += 1;
    }
    assert(names_of(entries).take(n as int) =~= names_of(entries));
    Some(out)
}

/// Reads the entries of a directory from its payload. Bytes that are not the payload of a
/// directory give nothing.
pub fn decode_dir(bytes: &[u8]) -> (data: Option<DirData>)
    ensures
        data is Some <==> spec_decode_dir(bytes@) is Some,
        data matches Some(d) ==> Some(entries_view(d@)) == spec_decode_dir(bytes@),
{
    let len = bytes.len();
    if len < 8 {
        return None;
    }
    let count64 = get_u64(bytes, 0);
    if count64 > ((len - 8) / 8) as u64 {
        return None;
    }
    let count = count64 as usize;
    let mut pos: usize = 8 + 8 * count;
    let ghost tail = bytes@.skip(8 + 8 * count);
    let mut data: DirData = Vec::new();
    let mut i: usize = 0;
    assert(bytes@.skip(pos as int) =~= tail);
    while i < count
        invariant
            i <= count,
            len == bytes@.len(),
            8 + 8 * count <= pos <= len,
            8 + 8 * count <= len,
            count == le_value(bytes@.subrange(0, 8)),
            tail == bytes@.skip(8 + 8 * count),
            data@.len() == i,
            forall|k: int| 0 <= k < i ==> (#[trigger] data@[k]).0 == le_value(bytes@.subrange(8 + 8 * k, 16 + 8 * k)),
            decode_names(tail, count as nat) == (match decode_names(
                bytes@.skip(pos as int),
                (count - i) as nat,
            ) {
                Some(rest) => Some(names_of(entries_view(data@)) + rest),
                None => None,
            }),
        decreases count - i,
    {
        let ghost here = bytes@.skip(pos as int);
        if pos >= len {
            assert(here.len() == 0);
            return None;
        }
        let n = bytes[pos] as usize;
        assert(here[0] == bytes@[pos as int]);
        if n > len - pos - 1 {
            return None;
        }
        let name = get_bytes(bytes, pos + 1, pos + 1 + n);
        let addr = get_u64(bytes, 8 + 8 * i);
        let ghost before = data@;
        data.push((addr, name));
        proof {
            assert(here.subrange(1, 1 + here[0]) =~= name@);
            assert(here.skip(1 + here[0]) =~= bytes@.skip(pos + 1 + n));
            let next = decode_names(bytes@.skip(pos + 1 + n), (count - i - 1) as nat);
            if next is Some {
                assert(names_of(entries_view(before)) + (seq![name@] + next.unwrap()) =~= names_of(
                    entries_view(data@),
                ) + next.unwrap());
            }
        }
        pos = pos + 1 + n;
        i += 1;
    }
    if pos != len {
        return None;
    }
    proof {
        assert(bytes@.skip(pos as int) =~= Seq::<u8>::empty());
        let names = names_of(entries_view(data@));
        assert(names + Seq::<Seq<u8>>::empty() =~= names);
        assert(decode_names(tail, count as nat) == Some(names));
        assert(spec_decode_dir(bytes@).unwrap() =~= entries_view(data@));
    }
    Some(data)
}

/// The index of the first entry with the given name.
pub open spec fn position(entries: Seq<(u64, Seq<u8>)>, name: Seq<u8>) -> Option<int>
    decreases entries.len(),
{
    if entries.len() == 0 {
        None
    } else if entries[0].1 == name {
        Some(0)
    } else {
        match position(entries.drop_first(), name) {
            Some(i) => Some(i + 1),
            None => None,
        }
    }
}

/// The position is the least index of an entry with the name, and there is none exactly
/// where no entry has the name.
pub proof fn lemma_position(entries: Seq<(u64, Seq<u8>)>, name: Seq<u8>)
    ensures
        match position(entries, name) {
            Some(i) => 0 <= i < entries.len() && entries[i].1 == name && forall|k: int|
                0 <= k < i ==> (#[trigger] entries[k]).1 != name,
            None => forall|k: int| 0 <= k < entries.len() ==> (#[trigger] entries[k]).1 != name,
        },
    decreases entries.len(),
{
    if entries.len() > 0 && entries[0].1 != name {
        let rest = entries.drop_first();
        lemma_position(rest, name);
        match position(rest, name) {
            Some(i) => {
                assert(entries[i + 1] == rest[i]);
                assert forall|k: int| 0 <= k < i + 1 implies (#[trigger] entries[k]).1 != name by {
                    if k > 0 {
                        assert(entries[k] == rest[k - 1]);
                    }
                }
            },
            None => {
                assert forall|k: int| 0 <= k < entries.len() implies (#[trigger] entries[k]).1
                    != name by {
                    if k > 0 {
                        assert(entries[k] == rest[k - 1]);
                    }
                }
            },
        }
    }
}

/// Finds the first entry with the given name.
pub fn find_entry(data: &DirData, name: &Vec<u8>) -> (found: Option<usize>)
    ensures
        match found {
            Some(i) => position(entries_view(data@), name@) == Some(i as int) && i < data@.len(),
            None => position(entries_view(data@), name@) is None,
        },
{
    let ghost entries = entries_view(data@);
    let mut i: usize = 0;
    while i < data.len()
        invariant
            i <= data.len(),
            entries == entries_view(data@),
            forall|k: int| 0 <= k < i ==> (#[trigger] entries[k]).1 != name@,
        decreases data.len() - i,
    {
        if bytes_eq(&data[i].1, name) {
            proof {
                lemma_position(entries, name@);
                assert(entries[i as int].1 == name@);
            }
            return Some(i);
        }
        i += 1;
    }
    proof {
        lemma_position(entries, name@);
    }
    None
}

/// The names of directory entries, in order.
pub fn entry_names(data: &DirData) -> (names: Vec<Filename>)
    ensures
        names_view(names@) == names_of(entries_view(data@)),
{
    let mut names: Vec<Filename> = Vec::with_capacity(data.len());
    let mut i: usize = 0;
    while i < data.len()
        invariant
            i <= data.len(),
            names@.len() == i,
            forall|k: int| 0 <= k < i ==> names@[k]@ == data@[k].1@,
        decreases data.len() - i,
    {
        names.push(clone_bytes(&data[i].1));
        i += 1;
    }
    assert(names_view(names@) =~= names_of(entries_view(data@)));
    names
}

/// Sector `i` of a payload: its bytes from `4096 * i` on, and zeros where it has ended.
pub open spec fn padded_sector(bytes: Seq<u8>, i: int) -> Seq<u8> {
    Seq::new(
        4096,
        |k: int|
            if 4096 * i + k < bytes.len() {
                bytes[4096 * i + k]
            } else {
                0u8
            },
    )
}

/// The bytes of sectors, one after the other.
pub open spec fn joined(raw: Seq<Vec<u8>>) -> Seq<u8> {
    Seq::new((4096 * raw.len()) as nat, |b: int| raw[b / 4096]@[b % 4096])
}

/// Writes the entries of a directory as sectors: the payload, cut into sectors of 4096
/// bytes and filled up with zeros, and the number of bytes of the payload. Entries that
/// cannot be written, because a name is longer than 255 bytes, give nothing.
pub fn raw_dir_data(data: &DirData) -> (sectors: Option<(Vec<Vec<u8>>, usize)>)
    ensures
        encodable(entries_view(data@)) <==> sectors is Some,
        sectors matches Some((raw, size)) ==> size == spec_encode_dir(entries_view(data@)).len()
            && raw@.len() == (size + 4095) / 4096 && forall|i: int|
            0 <= i < raw@.len() ==> (#[trigger] raw@[i])@ == padded_sector(
                spec_encode_dir(entries_view(data@)),
                i,
            ),
{
    let bytes = match encode_dir(data) {
        Some(bytes) => bytes,
        None => return None,
    };
    let size = bytes.len();
    let count = size / 4096 + (if size % 4096 == 0 {
        0
    } else {
        1
    });
    let mut raw: Vec<Vec<u8>> = Vec::with_capacity(count);
    let mut i: usize = 0;
    while i < count
        invariant
            i <= count,
            size == bytes@.len(),
            count == (size + 4095) / 4096,
            raw@.len() == i,
            forall|k: int| 0 <= k < i ==> (#[trigger] raw@[k])@ == padded_sector(bytes@, k),
        decreases count - i,
    {
        let mut sector: Vec<u8> = vec![0u8; 4096];
        let start = 4096 * i;
        let rest = size - start;
        let n = if rest < 4096 {
            rest
        } else {
            4096
        };
        crate::copy::copy_offset(bytes.as_slice(), sector.as_mut_slice(), n, start, 0);
        assert(sector@ =~= padded_sector(bytes@, i as int));
        raw.push(sector);
        i += 1;
    }
    Some((raw, size))
}

/// Reads the entries of a directory from its sectors and the number of bytes of its
/// payload. Bytes that are not the payload of a directory give nothing.
pub fn dir_data_from_raw(raw: &Vec<Vec<u8>>, size: usize) -> (data: Option<DirData>)
    requires
        size <= 4096 * raw@.len(),
        forall|i: int| 0 <= i < raw@.len() ==> (#[trigger] raw@[i])@.len() == 4096,
    ensures
        data is Some <==> spec_decode_dir(joined(raw@).take(size as int)) is Some,
        data matches Some(d) ==> Some(entries_view(d@)) == spec_decode_dir(
            joined(raw@).take(size as int),
        ),
{
    let mut bytes: Vec<u8> = Vec::with_capacity(size);
    let mut b: usize = 0;
    while b < size
        invariant
            b <= size,
            size <= 4096 * raw@.len(),
            forall|i: int| 0 <= i < raw@.len() ==> (#[trigger] raw@[i])@.len() == 4096,
            bytes@ == joined(raw@).take(b as int),
        decreases size - b,
    {
        let sector = &raw[b / 4096];
        bytes.push(sector[b % 4096]);
        assert(joined(raw@).take(b as int).push(joined(raw@)[b as int]) =~= joined(raw@).take(
            b + 1,
        ));
        b += 1;
    }
    decode_dir(bytes.as_slice())
}

} // verus!
