use bitfs::ffat::dir::{decode_dir, dir_data_from_raw, encode_dir, find_entry, raw_dir_data};
use bitfs::ffat::structs::{AllocationTable, FileProgress, RootSector, Sector, SectorType};

#[test]
fn a_table_entry_takes_32_bytes() {
    let entry = Sector { sector_type: SectorType::File, size: 0x0102_0304, next: 7 };
    let bytes = entry.encode();
    let mut expected = vec![0u8; 32];
    expected[0] = 3;
    expected[8..12].copy_from_slice(&[4, 3, 2, 1]);
    expected[16] = 7;
    assert_eq!(bytes, expected);
    let mut block = vec![0xFFu8; 4096];
    entry.write_to(&mut block, 5);
    assert_eq!(&block[160..192], &expected[..]);
    assert_eq!(block[159], 0xFF);
    assert_eq!(block[192], 0xFF);
    assert_eq!(Sector::read_from(&block, 5), entry);
}

#[test]
fn sector_types_have_their_bytes() {
    assert_eq!(SectorType::Free.to_byte(), 0);
    assert_eq!(SectorType::Reserved.to_byte(), 1);
    assert_eq!(SectorType::Data.to_byte(), 2);
    assert_eq!(SectorType::File.to_byte(), 3);
    assert_eq!(SectorType::Dir.to_byte(), 4);
    for byte in 0..=4u8 {
        assert_eq!(SectorType::from_byte(byte).to_byte(), byte);
    }
    assert_eq!(SectorType::from_byte(200), SectorType::Reserved);
    assert_eq!(SectorType::default(), SectorType::Reserved);
    assert_eq!(Sector::default(), Sector { sector_type: SectorType::Reserved, size: 0, next: 0 });
}

#[test]
fn a_root_sector_is_read_back() {
    let root = RootSector { name: [b'X'; 64], table_begin: 1, sectors: 16, root: 2, free: 3 };
    let bytes = root.encode();
    assert_eq!(bytes.len(), 4096);
    assert_eq!(&bytes[..64], &[b'X'; 64][..]);
    assert_eq!(&bytes[64..72], &1u64.to_le_bytes());
    assert_eq!(&bytes[72..80], &16u64.to_le_bytes());
    assert_eq!(&bytes[80..88], &2u64.to_le_bytes());
    assert_eq!(&bytes[88..96], &3u64.to_le_bytes());
    assert!(bytes[96..].iter().all(|b| *b == 0));
    let back = RootSector::decode(&bytes);
    assert_eq!(back.name, root.name);
    assert_eq!((back.table_begin, back.sectors, back.root, back.free), (1, 16, 2, 3));
    assert!(back.is_valid(16));
    assert!(back.is_valid(20));
    assert!(!back.is_valid(15));
    assert_eq!(back.locate(1), None);
    assert_eq!(back.locate(2), Some((1, 2)));
    assert_eq!(back.locate(15), Some((1, 15)));
    assert_eq!(back.locate(16), None);
    let defaults = RootSector::default();
    assert_eq!(defaults.name, [b'0'; 64]);
    assert_eq!((defaults.table_begin, defaults.sectors, defaults.root, defaults.free), (1, 0, 0, 0));
}

#[test]
fn locate_counts_128_entries_to_a_table_sector() {
    let root = RootSector { name: [0; 64], table_begin: 1, sectors: 1000, root: 9, free: 10 };
    assert!(root.is_valid(1000));
    assert_eq!(root.locate(127), Some((1, 127)));
    assert_eq!(root.locate(128), Some((2, 0)));
    assert_eq!(root.locate(999), Some((8, 103)));
    assert_eq!(root.locate(8), None);
    assert_eq!(root.locate(1000), None);
}

#[test]
fn a_directory_payload_groups_addresses_before_names() {
    let data = vec![(5u64, b"ab".to_vec()), (0x0100u64, b"c".to_vec())];
    let bytes = encode_dir(&data).unwrap();
    let mut expected = Vec::new();
    expected.extend_from_slice(&2u64.to_le_bytes());
    expected.extend_from_slice(&5u64.to_le_bytes());
    expected.extend_from_slice(&0x0100u64.to_le_bytes());
    expected.extend_from_slice(&[2, b'a', b'b', 1, b'c']);
    assert_eq!(bytes, expected);
    assert_eq!(decode_dir(&bytes).unwrap(), data);
    assert_eq!(encode_dir(&Vec::new()).unwrap(), vec![0u8; 8]);
    assert_eq!(decode_dir(&[0u8; 8]).unwrap(), Vec::new());
}

#[test]
fn a_directory_payload_holds_nothing_else() {
    let bytes = encode_dir(&vec![(5u64, b"ab".to_vec())]).unwrap();
    let mut longer = bytes.clone();
    longer.push(0);
    assert!(decode_dir(&longer).is_none());
    assert!(decode_dir(&bytes[..bytes.len() - 1]).is_none());
    assert!(decode_dir(&[]).is_none());
    assert!(decode_dir(&[1, 0, 0, 0, 0, 0, 0, 0]).is_none());
    assert!(decode_dir(&[0xFF; 8]).is_none());
}

#[test]
fn a_name_of_more_than_255_bytes_cannot_be_written() {
    assert!(encode_dir(&vec![(1u64, vec![b'a'; 255])]).is_some());
    assert!(encode_dir(&vec![(1u64, vec![b'a'; 256])]).is_none());
    let longest = vec![(1u64, vec![b'a'; 255])];
    assert_eq!(decode_dir(&encode_dir(&longest).unwrap()).unwrap(), longest);
}

#[test]
fn find_entry_gives_the_first_match() {
    let data = vec![(5u64, b"a".to_vec()), (6u64, b"b".to_vec()), (7u64, b"a".to_vec())];
    assert_eq!(find_entry(&data, &b"a".to_vec()), Some(0));
    assert_eq!(find_entry(&data, &b"b".to_vec()), Some(1));
    assert_eq!(find_entry(&data, &b"c".to_vec()), None);
}

#[test]
fn progress_counts_bytes_in_the_sector() {
    let progress = FileProgress { head: 3, sector: 4, byte_offset: 4096 * 2 + 17 };
    assert_eq!(progress.current_bytes_processed(), 17);
}

#[test]
fn a_table_sector_holds_128_entries() {
    let blank = AllocationTable::default();
    assert_eq!(blank.entries.len(), 128);
    assert!(blank.entries.iter().all(|e| *e == Sector::default()));
    let mut table = AllocationTable::default();
    table.entries[0] = Sector { sector_type: SectorType::Dir, size: 8, next: 0 };
    table.entries[127] = Sector { sector_type: SectorType::Free, size: 0, next: 9 };
    let block = table.encode();
    assert_eq!(block.len(), 4096);
    assert_eq!(block[0], 4);
    assert_eq!(block[8], 8);
    assert_eq!(block[32], 1);
    assert_eq!(block[127 * 32], 0);
    assert_eq!(block[127 * 32 + 16], 9);
    let back = AllocationTable::decode(&block);
    assert_eq!(back.entries, table.entries);
}

#[test]
fn a_directory_is_cut_into_sectors_and_joined_again() {
    let mut entries = Vec::new();
    for i in 0..40u64 {
        entries.push((100 + i, vec![b'a' + (i % 26) as u8; 200]));
    }
    let flat = encode_dir(&entries).unwrap();
    assert_eq!(flat.len(), 8 + 40 * 8 + 40 * 201);
    let (raw, size) = raw_dir_data(&entries).unwrap();
    assert_eq!(size, flat.len());
    assert_eq!(raw.len(), 3);
    assert!(raw.iter().all(|sector| sector.len() == 4096));
    assert_eq!(&raw[0][..], &flat[..4096]);
    assert_eq!(&raw[1][..], &flat[4096..8192]);
    assert_eq!(&raw[2][..size - 8192], &flat[8192..]);
    assert!(raw[2][size - 8192..].iter().all(|b| *b == 0));
    assert_eq!(dir_data_from_raw(&raw, size), Some(entries));
    assert_eq!(dir_data_from_raw(&raw, size - 1), None);
}

#[test]
fn an_empty_directory_is_one_count_in_one_sector() {
    let (raw, size) = raw_dir_data(&Vec::new()).unwrap();
    assert_eq!(size, 8);
    assert_eq!(raw, vec![vec![0u8; 4096]]);
    assert_eq!(dir_data_from_raw(&raw, 8), Some(Vec::new()));
    assert_eq!(dir_data_from_raw(&Vec::new(), 0), None);
    assert_eq!(raw_dir_data(&vec![(1u64, vec![b'x'; 256])]), None);
}
