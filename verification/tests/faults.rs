use bitfs::error::FsError;
use bitfs::ffat::structs::{Sector, SectorType};
use bitfs::ffat::FFAT;
use bitfs::filesystem::{
    BaseFileSystem, ManageFileSystem, MountedFileSystem, ReadFileSystem, WriteFileSystem,
};
use bitfs::memory_devices::{OwnedDisk, RomDisk};
use bitfs::path::Path;

fn fresh(blocks: usize) -> FFAT<OwnedDisk> {
    match FFAT::format(OwnedDisk { data: vec![0u8; 4096 * blocks] }) {
        Ok(fs) => fs,
        Err(_) => panic!("the device could not be formatted"),
    }
}

fn remount(disk: OwnedDisk) -> FFAT<OwnedDisk> {
    match FFAT::mount(disk) {
        Ok(fs) => fs,
        Err(_) => panic!("the device could not be mounted"),
    }
}

fn path(text: &str) -> Path {
    Path::from_str(text).unwrap()
}

fn set_entry(disk: &mut OwnedDisk, sector: usize, entry: Sector) {
    let at = 4096 * (1 + sector / 128);
    entry.write_to(&mut disk.data[at..at + 4096], sector % 128);
}

#[test]
fn small_devices_cannot_be_formatted() {
    let disk = OwnedDisk { data: vec![7u8; 4096 * 7] };
    match FFAT::format(disk) {
        Ok(_) => panic!("seven blocks are too few"),
        Err(back) => assert_eq!(back.data, vec![7u8; 4096 * 7]),
    }
    assert!(FFAT::format(OwnedDisk { data: vec![0u8; 4096 * 8] }).is_ok());
}

#[test]
fn read_only_devices_cannot_be_formatted() {
    let bytes = vec![0u8; 4096 * 16];
    assert!(FFAT::format(RomDisk { data: &bytes }).is_err());
}

#[test]
fn unformatted_devices_cannot_be_mounted() {
    assert!(FFAT::mount(OwnedDisk { data: vec![0u8; 4096 * 16] }).is_err());
    assert!(FFAT::mount(OwnedDisk { data: vec![0u8; 100] }).is_err());
}

#[test]
fn a_formatted_device_can_be_mounted_again() {
    let fs = FFAT::format(OwnedDisk { data: vec![0u8; 4096 * 16] }).ok().unwrap();
    let disk = fs.inner();
    let fs = FFAT::mount(disk).ok().unwrap();
    assert_eq!(fs.read_dir(Path::root()).unwrap(), Vec::<Vec<u8>>::new());
    assert_eq!(FFAT::<OwnedDisk>::name(), "FFAT");
    assert_eq!(<FFAT<OwnedDisk> as MountedFileSystem<OwnedDisk>>::name(), "FFAT");
    assert_eq!(fs.sectors(), 16);
    assert!(!fs.is_read_only());
}

#[test]
fn a_volume_on_a_read_only_device_can_be_read_but_not_changed() {
    let mut fs = FFAT::format(OwnedDisk { data: vec![0u8; 4096 * 16] }).ok().unwrap();
    fs.create_file(path("/f")).unwrap();
    let mut handle = fs.open_write(path("/f")).unwrap();
    fs.write(&mut handle, b"abc").unwrap();
    let image = fs.inner().data;
    let mut rom = FFAT::mount(RomDisk { data: &image }).ok().unwrap();
    assert!(rom.is_read_only());
    assert_eq!(rom.read_dir(Path::root()).unwrap(), vec![b"f".to_vec()]);
    let mut reader = rom.open_read(path("/f")).unwrap();
    let mut buffer = [0u8; 8];
    assert_eq!(rom.read(&mut reader, &mut buffer).unwrap(), 3);
    assert_eq!(&buffer[..3], b"abc");
    assert!(matches!(rom.create_file(path("/g")), Err(FsError::IllegalOperation(_))));
    assert!(matches!(rom.create_dir(path("/g")), Err(FsError::IllegalOperation(_))));
    assert!(matches!(rom.delete(path("/f")), Err(FsError::IllegalOperation(_))));
    assert!(matches!(rom.clear(path("/f")), Err(FsError::IllegalOperation(_))));
    assert!(matches!(rom.open_write(path("/f")), Err(FsError::IllegalOperation(_))));
}

#[test]
fn missing_paths_are_not_found() {
    let mut fs = fresh(16);
    assert!(matches!(fs.open_write(path("/nothing")), Err(FsError::NotFound)));
    assert!(matches!(fs.open_read(path("/nothing")), Err(FsError::NotFound)));
    assert!(matches!(fs.create_file(path("/no/file")), Err(FsError::NotFound)));
    assert!(matches!(fs.create_dir(path("/no/dir")), Err(FsError::NotFound)));
    assert!(matches!(fs.read_dir(path("/nothing")), Err(FsError::NotFound)));
    assert!(matches!(fs.delete(path("/nothing")), Err(FsError::NotFound)));
    assert!(matches!(fs.clear(path("/nothing")), Err(FsError::NotFound)));
    assert!(!fs.exists_file(path("/nothing")).unwrap());
    assert!(!fs.exists_dir(path("/nothing/deeper")).unwrap());
}

#[test]
fn misuse_is_an_illegal_operation() {
    let mut fs = fresh(16);
    fs.create_file(path("/f")).unwrap();
    fs.create_dir(path("/d")).unwrap();
    assert!(matches!(fs.delete(Path::root()), Err(FsError::IllegalOperation(_))));
    assert!(matches!(fs.create_file(Path::root()), Err(FsError::IllegalOperation(_))));
    assert!(matches!(fs.create_dir(path("/d")), Err(FsError::IllegalOperation(_))));
    assert!(matches!(fs.create_file(path("/d")), Err(FsError::IllegalOperation(_))));
    assert!(matches!(fs.open_read(path("/d")), Err(FsError::IllegalOperation(_))));
    assert!(matches!(fs.open_write(path("/d")), Err(FsError::IllegalOperation(_))));
    assert!(matches!(fs.read_dir(path("/f")), Err(FsError::IllegalOperation(_))));
    assert!(matches!(fs.create_file(path("/f/under")), Err(FsError::IllegalOperation(_))));
    let long = Path::root().concat(vec![b'n'; 256]);
    assert!(matches!(fs.create_file(long), Err(FsError::IllegalOperation(_))));
    assert!(fs.create_file(Path::root().concat(vec![b'n'; 255])).is_ok());
    assert!(fs.exists_file(path("/f")).unwrap());
    assert!(!fs.exists_dir(path("/f")).unwrap());
    assert!(fs.exists_dir(path("/d")).unwrap());
    assert!(!fs.exists_file(path("/d")).unwrap());
}

#[test]
fn a_write_beyond_the_free_list_runs_out_of_space() {
    let mut fs = fresh(8);
    fs.create_file(path("/big")).unwrap();
    let mut handle = fs.open_write(path("/big")).unwrap();
    let result = fs.write(&mut handle, &vec![1u8; 4096 * 8]);
    assert!(matches!(result, Err(FsError::NotEnoughSpace)));
    // the size of the file was not reached, so nothing of the write can be read
    let mut reader = fs.open_read(path("/big")).unwrap();
    let mut buffer = [0u8; 16];
    assert_eq!(fs.read(&mut reader, &mut buffer).unwrap(), 0);
    assert!(matches!(fs.create_file(path("/more")), Err(FsError::NotEnoughSpace)));
}

#[test]
fn a_broken_root_sector_is_not_mounted() {
    let mut disk = fresh(16).inner();
    disk.data[64] = 2;
    match FFAT::mount(disk) {
        Ok(_) => panic!("the table does not begin at sector 1"),
        Err(back) => assert_eq!(back.data[64], 2),
    }
    let mut disk = fresh(16).inner();
    disk.data[72] = 17;
    assert!(FFAT::mount(disk).is_err());
    let mut disk = fresh(16).inner();
    disk.data[80] = 3;
    assert!(FFAT::mount(disk).is_err());
}

#[test]
fn a_directory_that_ends_too_early_is_an_internal_error() {
    let mut disk = fresh(16).inner();
    set_entry(&mut disk, 2, Sector { sector_type: SectorType::Dir, size: 5000, next: 0 });
    let fs = remount(disk);
    assert!(matches!(fs.read_dir(Path::root()), Err(FsError::InternalError(_))));
    let mut disk = fs.inner();
    set_entry(&mut disk, 2, Sector { sector_type: SectorType::Dir, size: u64::MAX, next: 0 });
    let fs = remount(disk);
    assert!(matches!(fs.read_dir(Path::root()), Err(FsError::InternalError(_))));
    let mut disk = fs.inner();
    set_entry(&mut disk, 2, Sector { sector_type: SectorType::Dir, size: 7, next: 0 });
    let fs = remount(disk);
    assert!(matches!(fs.read_dir(Path::root()), Err(FsError::InternalError(_))));
}

#[test]
fn a_chain_in_a_circle_is_an_internal_error() {
    let mut fs = fresh(16);
    fs.create_file(path("/f")).unwrap();
    let head = 3;
    assert_eq!(fs.read_sector_meta(head).unwrap().sector_type, SectorType::File);
    let mut disk = fs.inner();
    set_entry(&mut disk, 10, Sector { sector_type: SectorType::Data, size: 0, next: 11 });
    set_entry(&mut disk, 11, Sector { sector_type: SectorType::Data, size: 0, next: 10 });
    set_entry(&mut disk, head as usize, Sector { sector_type: SectorType::File, size: 0, next: 10 });
    let mut fs = remount(disk);
    assert!(matches!(fs.clear(path("/f")), Err(FsError::InternalError(_))));
}

#[test]
fn an_address_outside_the_data_region_is_illegal() {
    let mut disk = fresh(16).inner();
    set_entry(&mut disk, 2, Sector { sector_type: SectorType::Dir, size: 8192, next: 1 });
    let fs = remount(disk);
    assert!(matches!(fs.read_dir(Path::root()), Err(FsError::IllegalOperation(_))));
    assert!(matches!(fs.read_sector_meta(0), Err(FsError::IllegalOperation(_))));
    assert!(matches!(fs.next_sector(99), Err(FsError::IllegalOperation(_))));
    assert_eq!(fs.sector_to_table_location(1).unwrap(), None);
    assert_eq!(fs.sector_to_table_location(2).unwrap(), Some((1, 2)));
    assert_eq!(fs.next_sector(3).unwrap(), Some(4));
    assert_eq!(fs.next_sector(15).unwrap(), None);
}

#[test]
fn a_read_only_volume_refuses_only_what_would_be_written() {
    let mut fs = FFAT::format(OwnedDisk { data: vec![0u8; 4096 * 16] }).ok().unwrap();
    fs.create_dir(path("/d")).unwrap();
    fs.create_file(path("/d/f")).unwrap();
    let image = fs.inner().data;
    let mut rom = FFAT::mount(RomDisk { data: &image }).ok().unwrap();
    assert!(matches!(rom.open_write(path("/nothing")), Err(FsError::NotFound)));
    assert!(matches!(rom.open_write(path("/d")), Err(FsError::IllegalOperation(_))));
    assert!(matches!(rom.create_file(path("/no/file")), Err(FsError::NotFound)));
    assert!(matches!(rom.create_dir(path("/no/dir")), Err(FsError::NotFound)));
    assert!(matches!(rom.create_file(path("/d/f")), Err(FsError::IllegalOperation(_))));
    assert!(matches!(rom.create_file(path("/d/g")), Err(FsError::IllegalOperation(_))));
    assert!(matches!(rom.create_file(Path::root()), Err(FsError::IllegalOperation(_))));
    assert!(matches!(rom.delete(path("/nothing")), Err(FsError::NotFound)));
    assert!(matches!(rom.delete(path("/d/nothing")), Err(FsError::NotFound)));
    assert!(matches!(rom.delete(Path::root()), Err(FsError::IllegalOperation(_))));
    assert!(matches!(rom.delete(path("/d")), Err(FsError::IllegalOperation(_))));
    assert!(matches!(rom.clear(path("/nothing")), Err(FsError::NotFound)));
    assert!(matches!(rom.clear(path("/d")), Err(FsError::IllegalOperation(_))));
    assert_eq!(rom.read_dir(path("/d")).unwrap(), vec![b"f".to_vec()]);
    let kept = rom.inner().data;
    assert_eq!(kept, &image[..]);
}

#[test]
fn a_refused_operation_leaves_the_volume_as_it_is() {
    let mut fs = fresh(16);
    fs.create_dir(path("/d")).unwrap();
    fs.create_file(path("/d/f")).unwrap();
    let before = fs.inner().data;
    let mut fs = remount(OwnedDisk { data: before.clone() });
    assert!(matches!(fs.open_write(path("/nothing")), Err(FsError::NotFound)));
    assert!(matches!(fs.open_write(path("/d")), Err(FsError::IllegalOperation(_))));
    assert!(matches!(fs.create_file(path("/no/file")), Err(FsError::NotFound)));
    assert!(matches!(fs.create_file(path("/d/f")), Err(FsError::IllegalOperation(_))));
    assert!(matches!(fs.create_dir(path("/d")), Err(FsError::IllegalOperation(_))));
    assert!(matches!(fs.create_file(path("/d/f/g")), Err(FsError::IllegalOperation(_))));
    assert!(matches!(fs.delete(path("/d/nothing")), Err(FsError::NotFound)));
    assert!(matches!(fs.delete(Path::root()), Err(FsError::IllegalOperation(_))));
    assert!(matches!(fs.clear(path("/nothing")), Err(FsError::NotFound)));
    assert_eq!(fs.inner().data, before);
}

#[test]
fn a_write_that_runs_out_keeps_what_it_wrote() {
    let mut fs = fresh(10);
    fs.create_file(path("/other")).unwrap();
    let mut handle = fs.open_write(path("/other")).unwrap();
    fs.write(&mut handle, b"kept").unwrap();
    fs.create_file(path("/big")).unwrap();
    let mut handle = fs.open_write(path("/big")).unwrap();
    let mut data = Vec::new();
    for i in 0..4096 * 8 {
        data.push((i / 4096 + 1) as u8);
    }
    assert!(matches!(fs.write(&mut handle, &data), Err(FsError::NotEnoughSpace)));
    let mut reader = fs.open_read(path("/other")).unwrap();
    let mut buffer = [0u8; 16];
    assert_eq!(fs.read(&mut reader, &mut buffer).unwrap(), 4);
    assert_eq!(&buffer[..4], b"kept");
    assert_eq!(fs.read_dir(Path::root()).unwrap(), vec![b"other".to_vec(), b"big".to_vec()]);
    // ten sectors: root sector, table, root directory, the two files, and five free ones,
    // of which the last is never handed out
    let image = fs.inner().data;
    let entry = |sector: usize| Sector::read_from(&image[4096..8192], sector);
    assert_eq!(entry(4), Sector { sector_type: SectorType::File, size: 0, next: 5 });
    let mut at = 4;
    for filled in 1..=5u8 {
        assert!(image[4096 * at..4096 * (at + 1)].iter().all(|b| *b == filled));
        if filled < 5 {
            at = entry(at).next as usize;
            assert_eq!(entry(at).sector_type, SectorType::Data);
        }
    }
    assert_eq!(entry(at).next, 0);
    assert_eq!(entry(9), Sector { sector_type: SectorType::Free, size: 0, next: 0 });
}

#[test]
fn a_write_in_the_middle_of_a_sector_that_runs_out_keeps_what_it_wrote() {
    let mut fs = fresh(8);
    fs.create_file(path("/big")).unwrap();
    let mut handle = fs.open_write(path("/big")).unwrap();
    fs.write(&mut handle, &[7u8; 100]).unwrap();
    let data: Vec<u8> = (0..4096 * 6).map(|i| (i % 251) as u8).collect();
    assert!(matches!(fs.write(&mut handle, &data), Err(FsError::NotEnoughSpace)));
    let mut reader = fs.open_read(path("/big")).unwrap();
    let mut buffer = [0u8; 200];
    assert_eq!(fs.read(&mut reader, &mut buffer).unwrap(), 100);
    assert_eq!(&buffer[..100], &[7u8; 100][..]);
    // eight sectors: root sector, table, root directory, the file, and four free ones
    let image = fs.inner().data;
    let entry = |sector: usize| Sector::read_from(&image[4096..8192], sector);
    assert_eq!(entry(3), Sector { sector_type: SectorType::File, size: 100, next: 4 });
    assert_eq!(&image[4096 * 3..4096 * 3 + 100], &[7u8; 100][..]);
    assert_eq!(&image[4096 * 3 + 100..4096 * 4], &data[..3996]);
    assert_eq!(&image[4096 * 4..4096 * 7], &data[3996..3996 + 4096 * 3]);
    assert_eq!(entry(6).next, 0);
    assert_eq!(entry(7), Sector { sector_type: SectorType::Free, size: 0, next: 0 });
}

fn format_any<T: MountedFileSystem<OwnedDisk>>(disk: OwnedDisk) -> Result<T, OwnedDisk> {
    T::format(disk)
}

fn remount_any<T: MountedFileSystem<OwnedDisk>>(fs: T) -> Result<T, OwnedDisk> {
    T::mount(fs.inner())
}

#[test]
fn any_mounted_file_system_is_formatted_and_mounted_alike() {
    let fs: FFAT<OwnedDisk> = match format_any(OwnedDisk { data: vec![9u8; 4096 * 12] }) {
        Ok(fs) => fs,
        Err(_) => panic!("twelve blocks can be formatted"),
    };
    assert_eq!(fs.read_dir(Path::root()).unwrap(), Vec::<Vec<u8>>::new());
    let mut fs = match remount_any(fs) {
        Ok(fs) => fs,
        Err(_) => panic!("a formatted device can be mounted"),
    };
    assert_eq!(fs.read_dir(Path::root()).unwrap(), Vec::<Vec<u8>>::new());
    fs.create_dir(path("/d")).unwrap();
    let fs = match remount_any(fs) {
        Ok(fs) => fs,
        Err(_) => panic!("a volume in use can be mounted again"),
    };
    assert_eq!(fs.read_dir(Path::root()).unwrap(), vec![b"d".to_vec()]);
    match format_any::<FFAT<OwnedDisk>>(OwnedDisk { data: vec![9u8; 4096 * 7] }) {
        Ok(_) => panic!("seven blocks are too few"),
        Err(back) => assert_eq!(back.data, vec![9u8; 4096 * 7]),
    }
    match format_any::<FFAT<OwnedDisk>>(OwnedDisk { data: vec![9u8; 4096 * 8 + 1] }) {
        Ok(fs) => assert_eq!(fs.inner().data.len(), 4096 * 8 + 1),
        Err(_) => panic!("eight blocks and a byte are eight blocks"),
    }
    match <FFAT<OwnedDisk> as MountedFileSystem<OwnedDisk>>::mount(
        OwnedDisk { data: vec![9u8; 4096 * 12] },
    ) {
        Ok(_) => panic!("there is no volume on the device"),
        Err(back) => assert_eq!(back.data, vec![9u8; 4096 * 12]),
    }
    match <FFAT<OwnedDisk> as MountedFileSystem<OwnedDisk>>::mount(OwnedDisk { data: Vec::new() }) {
        Ok(_) => panic!("there is no block on the device"),
        Err(back) => assert!(back.data.is_empty()),
    }
}
