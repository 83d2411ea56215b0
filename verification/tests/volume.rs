use bitfs::error::FsError;
use bitfs::ffat::dir::dir_data_from_raw;
use bitfs::ffat::structs::{RootSector, Sector, SectorType};
use bitfs::ffat::FFAT;
use bitfs::filesystem::{BaseFileSystem, ManageFileSystem, ReadFileSystem, WriteFileSystem};
use bitfs::memory_devices::OwnedDisk;
use bitfs::path::Path;

fn fresh(blocks: usize) -> FFAT<OwnedDisk> {
    match FFAT::format(OwnedDisk { data: vec![0u8; 4096 * blocks] }) {
        Ok(fs) => fs,
        Err(_) => panic!("the device could not be formatted"),
    }
}

fn path(text: &str) -> Path {
    Path::from_str(text).unwrap()
}

fn free_count(fs: &FFAT<OwnedDisk>) -> usize {
    let mut count = 0;
    for addr in 0..fs.sectors() as u64 {
        if let Ok(meta) = fs.read_sector_meta(addr) {
            if meta.sector_type == SectorType::Free {
                count += 1;
            }
        }
    }
    count
}

fn write_all(fs: &mut FFAT<OwnedDisk>, at: &str, bytes: &[u8]) {
    let mut handle = fs.open_write(path(at)).unwrap();
    fs.write(&mut handle, bytes).unwrap();
}

fn read_all(fs: &FFAT<OwnedDisk>, at: &str) -> Vec<u8> {
    let mut handle = fs.open_read(path(at)).unwrap();
    let mut out = Vec::new();
    let mut buffer = [0u8; 4096];
    loop {
        let n = fs.read(&mut handle, &mut buffer).unwrap();
        if n == 0 {
            break;
        }
        out.extend_from_slice(&buffer[..n]);
    }
    out
}

#[test]
fn fresh_volume_has_an_empty_root() {
    let fs = fresh(16);
    assert_eq!(fs.read_dir(path("/")).unwrap(), Vec::<Vec<u8>>::new());
    assert!(fs.exists_dir(path("/")).unwrap());
    assert!(!fs.exists_file(path("/a")).unwrap());
}

#[test]
fn nested_directories_and_a_small_file() {
    let mut fs = fresh(64);
    fs.create_dir(path("/home")).unwrap();
    fs.create_dir(path("/home/u")).unwrap();
    fs.create_file(path("/home/u/m")).unwrap();
    write_all(&mut fs, "/home/u/m", b"hello");
    assert_eq!(fs.read_dir(path("/home/u")).unwrap(), vec![b"m".to_vec()]);
    assert_eq!(read_all(&fs, "/home/u/m"), b"hello".to_vec());
}

#[test]
fn a_file_over_several_sectors() {
    let mut fs = fresh(64);
    fs.create_file(path("/x")).unwrap();
    write_all(&mut fs, "/x", &vec![0xABu8; 10_000]);
    let mut handle = fs.open_read(path("/x")).unwrap();
    let mut out = vec![0u8; 10_000];
    assert_eq!(fs.read(&mut handle, &mut out).unwrap(), 10_000);
    assert_eq!(out, vec![0xABu8; 10_000]);
    let mut more = [0u8; 16];
    assert_eq!(fs.read(&mut handle, &mut more).unwrap(), 0);
    assert_eq!(fs.read(&mut handle, &mut more).unwrap(), 0);
}

#[test]
fn creating_twice_is_illegal() {
    let mut fs = fresh(64);
    fs.create_file(path("/x")).unwrap();
    assert!(matches!(fs.create_file(path("/x")), Err(FsError::IllegalOperation(_))));
}

#[test]
fn deleting_a_directory_takes_its_children_along() {
    let mut fs = fresh(64);
    let free = free_count(&fs);
    fs.create_dir(path("/a")).unwrap();
    fs.create_file(path("/a/b")).unwrap();
    assert_eq!(free_count(&fs), free - 2);
    fs.delete(path("/a")).unwrap();
    assert!(!fs.exists_dir(path("/a")).unwrap());
    assert!(!fs.exists_file(path("/a/b")).unwrap());
    assert_eq!(free_count(&fs), free);
}

#[test]
fn fresh_volume_free_list() {
    let fs = fresh(16);
    // sector 0 is the root sector, sector 1 the table, sector 2 the root directory
    assert_eq!(free_count(&fs), 13);
    let first = fs.read_sector_meta(3).unwrap();
    assert_eq!(first.sector_type, SectorType::Free);
    assert_eq!(first.next, 4);
    let last = fs.read_sector_meta(15).unwrap();
    assert_eq!(last.next, 0);
    let root = fs.read_sector_meta(2).unwrap();
    assert_eq!(root.sector_type, SectorType::Dir);
    assert_eq!(root.size, 8);
    assert!(matches!(fs.read_sector_meta(1), Err(FsError::IllegalOperation(_))));
    assert!(matches!(fs.read_sector_meta(16), Err(FsError::IllegalOperation(_))));
}

fn chain_of(image: &[u8], head: u64, seen: &mut Vec<bool>) -> Vec<u64> {
    let mut chain = Vec::new();
    let mut at = head;
    while at != 0 {
        assert!(!seen[at as usize], "sector {} is used twice", at);
        seen[at as usize] = true;
        chain.push(at);
        let block = 4096 * (1 + at as usize / 128);
        at = Sector::read_from(&image[block..block + 4096], at as usize % 128).next;
    }
    chain
}

fn entry_at(image: &[u8], sector: u64) -> Sector {
    let block = 4096 * (1 + sector as usize / 128);
    Sector::read_from(&image[block..block + 4096], sector as usize % 128)
}

fn visit(image: &[u8], head: u64, seen: &mut Vec<bool>) {
    let chain = chain_of(image, head, seen);
    let meta = entry_at(image, head);
    assert!(meta.size <= 4096 * chain.len() as u64);
    for later in &chain[1..] {
        assert_eq!(entry_at(image, *later).sector_type, SectorType::Data);
    }
    if meta.sector_type == SectorType::Dir {
        let mut raw = Vec::new();
        for sector in &chain {
            let at = 4096 * *sector as usize;
            raw.push(image[at..at + 4096].to_vec());
        }
        let entries = dir_data_from_raw(&raw, meta.size as usize).unwrap();
        for (child, _) in entries {
            visit(image, child, seen);
        }
    } else {
        assert_eq!(meta.sector_type, SectorType::File);
    }
}

#[test]
fn every_sector_is_reserved_free_or_in_one_chain() {
    let mut fs = match FFAT::format(OwnedDisk { data: vec![0u8; 4096 * 300] }) {
        Ok(fs) => fs,
        Err(_) => panic!("the device could not be formatted"),
    };
    fs.create_dir(Path::from_str("/a").unwrap()).unwrap();
    fs.create_dir(Path::from_str("/a/b").unwrap()).unwrap();
    fs.create_file(Path::from_str("/a/b/f").unwrap()).unwrap();
    let mut writer = fs.open_write(Path::from_str("/a/b/f").unwrap()).unwrap();
    fs.write(&mut writer, &vec![9u8; 13_000]).unwrap();
    fs.create_file(Path::from_str("/g").unwrap()).unwrap();
    let mut writer = fs.open_write(Path::from_str("/g").unwrap()).unwrap();
    fs.write(&mut writer, &vec![3u8; 5_000]).unwrap();
    fs.create_dir(Path::from_str("/gone").unwrap()).unwrap();
    fs.create_file(Path::from_str("/gone/h").unwrap()).unwrap();
    fs.delete(Path::from_str("/gone").unwrap()).unwrap();
    fs.clear(Path::from_str("/g").unwrap()).unwrap();

    let image = fs.inner().data;
    let root = RootSector::decode(&image[..4096]);
    assert_eq!(root.sectors, 300);
    assert_eq!(root.table_begin, 1);
    assert_eq!(root.root, 4);
    let mut seen = vec![false; 300];
    for reserved in 0..root.root {
        seen[reserved as usize] = true;
        assert_eq!(entry_at(&image, reserved).sector_type, SectorType::Reserved);
    }
    let free = chain_of(&image, root.free, &mut seen);
    for sector in &free {
        assert_eq!(entry_at(&image, *sector).sector_type, SectorType::Free);
    }
    visit(&image, root.root, &mut seen);
    assert!(seen.iter().all(|used| *used));
    assert_eq!(free.len(), 300 - 4 - 1 - 2 - 4 - 1);
}

#[test]
fn whatever_a_path_leads_to_can_be_deleted() {
    let mut fs = fresh(64);
    let free = free_count(&fs);
    let mut at = String::new();
    for depth in 0..20 {
        at.push_str("/d");
        fs.create_dir(path(&at)).unwrap();
        fs.create_file(path(&format!("{}/f{}", at, depth))).unwrap();
    }
    assert_eq!(free_count(&fs), free - 40);
    fs.delete(path("/d/d/d")).unwrap();
    assert_eq!(free_count(&fs), free - 4);
    assert_eq!(fs.read_dir(path("/d/d")).unwrap(), vec![b"f1".to_vec()]);
    fs.delete(path("/d")).unwrap();
    assert_eq!(free_count(&fs), free);
    assert_eq!(fs.read_dir(Path::root()).unwrap(), Vec::<Vec<u8>>::new());
}
