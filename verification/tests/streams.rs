use bitfs::ffat::structs::SectorType;
use bitfs::ffat::FFAT;
use bitfs::filesystem::{BaseFileSystem, ManageFileSystem, ReadFileSystem, WriteFileSystem};
use bitfs::memory_devices::OwnedDisk;
use bitfs::path::Path;

fn fresh(blocks: usize) -> FFAT<OwnedDisk> {
    match FFAT::format(OwnedDisk { data: vec![0u8; 4096 * blocks] }) {
        Ok(fs) => fs,
        Err(_) => panic!("the device could not be formatted"),
    }
}

fn path(text: &str) -> Path {
    Path::from_str(text).unwrap()
}

fn pattern(len: usize) -> Vec<u8> {
    (0..len).map(|i| (i * 7 + i / 4096) as u8).collect()
}

fn free_count(fs: &FFAT<OwnedDisk>) -> usize {
    (0..fs.sectors() as u64)
        .filter(|addr| match fs.read_sector_meta(*addr) {
            Ok(meta) => meta.sector_type == SectorType::Free,
            Err(_) => false,
        })
        .count()
}

fn chain_length(fs: &FFAT<OwnedDisk>, head: u64) -> u64 {
    let mut length = 1;
    let mut at = head;
    while let Some(next) = fs.next_sector(at).unwrap() {
        at = next;
        length += 1;
    }
    length
}

#[test]
fn what_is_written_is_read() {
    for len in [0usize, 1, 5, 4095, 4096, 4097, 8192, 10_000, 30_000] {
        let mut fs = fresh(64);
        fs.create_file(path("/f")).unwrap();
        let bytes = pattern(len);
        let mut writer = fs.open_write(path("/f")).unwrap();
        fs.write(&mut writer, &bytes).unwrap();
        let mut reader = fs.open_read(path("/f")).unwrap();
        assert_eq!(reader.1, len as u64);
        let mut back = vec![0xEEu8; len + 10];
        assert_eq!(fs.read(&mut reader, &mut back).unwrap(), len);
        assert_eq!(&back[..len], &bytes[..]);
        assert_eq!(&back[len..], &[0xEEu8; 10][..]);
        assert_eq!(fs.read(&mut reader, &mut back).unwrap(), 0);
    }
}

#[test]
fn writes_in_pieces_append() {
    let mut fs = fresh(64);
    fs.create_file(path("/f")).unwrap();
    let bytes = pattern(9000);
    let mut writer = fs.open_write(path("/f")).unwrap();
    fs.write(&mut writer, &bytes[..100]).unwrap();
    fs.write(&mut writer, &bytes[100..5000]).unwrap();
    fs.write(&mut writer, &bytes[5000..]).unwrap();
    assert_eq!(writer.0.byte_offset, 9000);
    let mut reader = fs.open_read(path("/f")).unwrap();
    let mut back = Vec::new();
    let mut buffer = [0u8; 1000];
    loop {
        let n = fs.read(&mut reader, &mut buffer).unwrap();
        if n == 0 {
            break;
        }
        back.extend_from_slice(&buffer[..n]);
    }
    assert_eq!(back, bytes);
}

#[test]
fn the_size_stays_below_the_room_of_the_chain() {
    let mut fs = fresh(64);
    fs.create_file(path("/f")).unwrap();
    let mut writer = fs.open_write(path("/f")).unwrap();
    fs.write(&mut writer, &pattern(4096 * 3)).unwrap();
    let head = writer.0.head;
    let meta = fs.read_sector_meta(head).unwrap();
    assert_eq!(meta.size, 4096 * 3);
    assert_eq!(chain_length(&fs, head), 4);
    assert!(meta.size <= 4096 * chain_length(&fs, head));
    assert_eq!(fs.read_sector_meta(meta.next).unwrap().sector_type, SectorType::Data);
    assert_eq!(fs.read_sector_meta(meta.next).unwrap().size, 0);
}

#[test]
fn opening_for_writing_empties_the_file() {
    let mut fs = fresh(64);
    let free = free_count(&fs);
    fs.create_file(path("/f")).unwrap();
    let mut writer = fs.open_write(path("/f")).unwrap();
    fs.write(&mut writer, &pattern(10_000)).unwrap();
    assert_eq!(free_count(&fs), free - 3);
    let mut writer = fs.open_write(path("/f")).unwrap();
    assert_eq!(free_count(&fs), free - 1);
    fs.write(&mut writer, b"xy").unwrap();
    let mut reader = fs.open_read(path("/f")).unwrap();
    let mut buffer = [0u8; 8];
    assert_eq!(fs.read(&mut reader, &mut buffer).unwrap(), 2);
    assert_eq!(&buffer[..2], b"xy");
}

#[test]
fn reads_at_the_end_give_nothing() {
    let mut fs = fresh(64);
    fs.create_file(path("/f")).unwrap();
    let mut writer = fs.open_write(path("/f")).unwrap();
    fs.write(&mut writer, b"abc").unwrap();
    let mut reader = fs.open_read(path("/f")).unwrap();
    let mut buffer = [0u8; 2];
    assert_eq!(fs.read(&mut reader, &mut buffer).unwrap(), 2);
    assert_eq!(fs.read(&mut reader, &mut buffer).unwrap(), 1);
    assert_eq!(buffer[0], b'c');
    for _ in 0..3 {
        assert_eq!(fs.read(&mut reader, &mut buffer).unwrap(), 0);
    }
    let mut nothing = [0u8; 0];
    let mut start = fs.open_read(path("/f")).unwrap();
    assert_eq!(fs.read(&mut start, &mut nothing).unwrap(), 0);
}

#[test]
fn seek_moves_forward_across_sectors() {
    let mut fs = fresh(64);
    fs.create_file(path("/f")).unwrap();
    let bytes = pattern(10_000);
    let mut writer = fs.open_write(path("/f")).unwrap();
    fs.write(&mut writer, &bytes).unwrap();
    let mut reader = fs.open_read(path("/f")).unwrap();
    fs.seek(&mut reader, 10).unwrap();
    let mut buffer = [0u8; 4];
    assert_eq!(fs.read(&mut reader, &mut buffer).unwrap(), 4);
    assert_eq!(&buffer[..], &bytes[10..14]);
    fs.seek(&mut reader, 5000).unwrap();
    assert_eq!(reader.0.byte_offset, 5014);
    assert_eq!(fs.read(&mut reader, &mut buffer).unwrap(), 4);
    assert_eq!(&buffer[..], &bytes[5014..5018]);
    fs.seek(&mut reader, 4096).unwrap();
    assert_eq!(fs.read(&mut reader, &mut buffer).unwrap(), 4);
    assert_eq!(&buffer[..], &bytes[9114..9118]);
}

#[test]
fn reads_after_a_seek_past_the_end_give_nothing() {
    let mut fs = fresh(64);
    fs.create_file(path("/f")).unwrap();
    let mut writer = fs.open_write(path("/f")).unwrap();
    fs.write(&mut writer, &pattern(5000)).unwrap();
    let mut reader = fs.open_read(path("/f")).unwrap();
    fs.seek(&mut reader, 5000).unwrap();
    let mut buffer = [0u8; 4];
    assert_eq!(fs.read(&mut reader, &mut buffer).unwrap(), 0);
    fs.seek(&mut reader, 1_000_000).unwrap();
    assert_eq!(fs.read(&mut reader, &mut buffer).unwrap(), 0);
    fs.seek(&mut reader, usize::MAX).unwrap();
    assert_eq!(reader.0.byte_offset, u64::MAX);
    assert_eq!(fs.read(&mut reader, &mut buffer).unwrap(), 0);
}

#[test]
fn clearing_twice_is_clearing_once() {
    let mut fs = fresh(64);
    fs.create_dir(path("/d")).unwrap();
    fs.create_file(path("/d/f")).unwrap();
    fs.create_dir(path("/d/e")).unwrap();
    fs.create_file(path("/f")).unwrap();
    let mut writer = fs.open_write(path("/f")).unwrap();
    fs.write(&mut writer, &pattern(9000)).unwrap();
    fs.clear(path("/f")).unwrap();
    let once = fs.inner().data;
    let mut fs = FFAT::mount(OwnedDisk { data: once.clone() }).ok().unwrap();
    fs.clear(path("/f")).unwrap();
    assert!(fs.exists_file(path("/f")).unwrap());
    assert_eq!(fs.open_read(path("/f")).unwrap().1, 0);
    assert_eq!(fs.inner().data, once);

    let mut fs = FFAT::mount(OwnedDisk { data: once }).ok().unwrap();
    fs.clear(path("/d")).unwrap();
    assert_eq!(fs.read_dir(path("/d")).unwrap(), Vec::<Vec<u8>>::new());
    assert!(!fs.exists_file(path("/d/f")).unwrap());
    let once = fs.inner().data;
    let mut fs = FFAT::mount(OwnedDisk { data: once.clone() }).ok().unwrap();
    fs.clear(path("/d")).unwrap();
    assert_eq!(fs.inner().data, once);
}

#[test]
fn creating_and_deleting_gives_the_sectors_back() {
    let mut fs = fresh(64);
    fs.create_dir(path("/keep")).unwrap();
    let free = free_count(&fs);
    fs.create_dir(path("/p")).unwrap();
    assert_eq!(free_count(&fs), free - 1);
    fs.delete(path("/p")).unwrap();
    assert_eq!(free_count(&fs), free);
    assert_eq!(fs.read_dir(Path::root()).unwrap(), vec![b"keep".to_vec()]);
    fs.create_file(path("/q")).unwrap();
    let mut writer = fs.open_write(path("/q")).unwrap();
    fs.write(&mut writer, &pattern(20_000)).unwrap();
    fs.delete(path("/q")).unwrap();
    assert_eq!(free_count(&fs), free);
}

#[test]
fn listed_names_exist() {
    let mut fs = fresh(64);
    fs.create_dir(path("/a")).unwrap();
    fs.create_file(path("/b")).unwrap();
    fs.create_dir(path("/a/c")).unwrap();
    fs.create_file(path("/a/d")).unwrap();
    for parent in [Path::root(), path("/a"), path("/a/c")] {
        for name in fs.read_dir(parent.clone()).unwrap() {
            let child = parent.concat(name);
            assert!(fs.exists_file(child.clone()).unwrap() || fs.exists_dir(child).unwrap());
        }
    }
    assert_eq!(fs.read_dir(Path::root()).unwrap(), vec![b"a".to_vec(), b"b".to_vec()]);
    assert_eq!(fs.read_dir(path("/a")).unwrap(), vec![b"c".to_vec(), b"d".to_vec()]);
}

#[test]
fn a_directory_can_grow_over_several_sectors() {
    let mut fs = fresh(256);
    let free = free_count(&fs);
    fs.create_dir(path("/d")).unwrap();
    let mut expected = Vec::new();
    for i in 0..40u32 {
        let mut name = vec![b'n'; 200];
        name.extend_from_slice(i.to_string().as_bytes());
        fs.create_file(path("/d").concat(name.clone())).unwrap();
        expected.push(name);
    }
    assert_eq!(fs.read_dir(path("/d")).unwrap(), expected);
    let head = fs.open_read(path("/d").concat(expected[0].clone())).unwrap().0.head;
    assert_eq!(fs.read_sector_meta(head).unwrap().sector_type, SectorType::File);
    // 8 + 40 * 8 + 40 * 201 + 70 bytes of digits in three sectors, and 40 files
    assert_eq!(free_count(&fs), free - 3 - 40);
    for name in expected.iter().skip(2) {
        fs.delete(path("/d").concat(name.clone())).unwrap();
    }
    assert_eq!(fs.read_dir(path("/d")).unwrap(), expected[..2].to_vec());
    assert_eq!(free_count(&fs), free - 1 - 2);
    fs.delete(path("/d")).unwrap();
    assert_eq!(free_count(&fs), free);
}
