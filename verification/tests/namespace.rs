use bitfs::error::FsError;
use bitfs::ffat::FFAT;
use bitfs::files::{attach_allowed, names_conflict, no_such_fd, RootFileSystem};
use bitfs::filesystem::{BaseFileSystem, ManageFileSystem};
use bitfs::memory_devices::OwnedDisk;
use bitfs::path::Path;

type Volume = FFAT<OwnedDisk>;

fn fresh(blocks: usize) -> Volume {
    match FFAT::format(OwnedDisk { data: vec![0u8; 4096 * blocks] }) {
        Ok(fs) => fs,
        Err(_) => panic!("the device could not be formatted"),
    }
}

fn path(text: &str) -> Path {
    Path::from_str(text).unwrap()
}

fn rooted() -> RootFileSystem<Volume> {
    let mut root = RootFileSystem::new();
    assert!(root.attach(fresh(64), Path::root()).is_ok());
    root
}

#[test]
fn a_second_volume_appears_at_its_attach_point() {
    let mut root = rooted();
    root.create_dir(path("/mnt")).unwrap();
    root.create_file(path("/top")).unwrap();
    assert!(root.attach(fresh(32), path("/mnt")).is_ok());
    assert_eq!(root.attach_count(), 2);
    root.create_file(path("/mnt/z")).unwrap();
    assert_eq!(root.read_dir(path("/mnt")).unwrap(), vec![b"z".to_vec()]);
    assert!(root.exists_file(path("/mnt/z")).unwrap());
    assert!(root.exists_dir(path("/mnt")).unwrap());
    assert_eq!(root.read_dir(Path::root()).unwrap(), vec![b"mnt".to_vec(), b"top".to_vec()]);
    // the file lives on the second volume, not on the first
    let second = root.detach(1).unwrap();
    assert_eq!(second.read_dir(Path::root()).unwrap(), vec![b"z".to_vec()]);
    assert_eq!(root.read_dir(path("/mnt")).unwrap(), Vec::<Vec<u8>>::new());
    assert!(!root.exists_file(path("/mnt/z")).unwrap());
    assert_eq!(root.attach_count(), 1);
}

#[test]
fn a_volume_with_a_name_of_the_attach_point_comes_back() {
    let mut root = rooted();
    root.create_dir(path("/mnt")).unwrap();
    root.create_file(path("/mnt/a")).unwrap();
    let mut other = fresh(32);
    other.create_dir(path("/a")).unwrap();
    other.create_file(path("/b")).unwrap();
    let back = match root.attach(other, path("/mnt")) {
        Ok(()) => panic!("both hold the name a"),
        Err(back) => back,
    };
    assert_eq!(root.attach_count(), 1);
    assert_eq!(back.read_dir(Path::root()).unwrap(), vec![b"a".to_vec(), b"b".to_vec()]);
    let mut back = back;
    back.delete(path("/a")).unwrap();
    assert!(root.attach(back, path("/mnt")).is_ok());
    assert_eq!(root.read_dir(path("/mnt")).unwrap(), vec![b"b".to_vec()]);
}

#[test]
fn a_volume_cannot_be_attached_where_nothing_is() {
    let mut root = rooted();
    assert!(root.attach(fresh(32), path("/nowhere")).is_err());
    let mut empty: RootFileSystem<Volume> = RootFileSystem::new();
    assert!(empty.attach(fresh(32), path("/mnt")).is_err());
    assert_eq!(empty.attach_count(), 0);
    assert!(empty.attach(fresh(32), Path::root()).is_ok());
    assert_eq!(empty.attach_count(), 1);
}

#[test]
fn paths_go_to_the_longest_attach_point() {
    let mut root = rooted();
    root.create_dir(path("/a")).unwrap();
    assert!(root.attach(fresh(32), path("/a")).is_ok());
    root.create_dir(path("/a/b")).unwrap();
    assert!(root.attach(fresh(32), path("/a/b")).is_ok());
    let (index, rest) = root.suitable_fs(path("/a/b/c/d")).unwrap();
    assert_eq!(index, 2);
    assert_eq!(rest.to_string(), "/c/d");
    let (index, rest) = root.suitable_fs(path("/a/x")).unwrap();
    assert_eq!(index, 1);
    assert_eq!(rest.to_string(), "/x");
    let (index, rest) = root.suitable_fs(path("/other")).unwrap();
    assert_eq!(index, 0);
    assert_eq!(rest.to_string(), "/other");
    let (index, rest) = root.suitable_fs(path("/a/b")).unwrap();
    assert_eq!(index, 2);
    assert!(rest.is_root());
    root.detach(2);
    assert_eq!(root.suitable_fs(path("/a/b/c")).unwrap().0, 1);
}

#[test]
fn a_path_that_no_volume_holds_is_illegal() {
    let mut empty: RootFileSystem<Volume> = RootFileSystem::new();
    assert!(matches!(empty.read_dir(Path::root()), Err(FsError::IllegalOperation(_))));
    assert!(matches!(empty.create_file(path("/f")), Err(FsError::IllegalOperation(_))));
    assert!(matches!(empty.create_dir(path("/f")), Err(FsError::IllegalOperation(_))));
    assert!(matches!(empty.delete(path("/f")), Err(FsError::IllegalOperation(_))));
    assert!(matches!(empty.clear(path("/f")), Err(FsError::IllegalOperation(_))));
    assert!(matches!(empty.exists_dir(path("/f")), Err(FsError::IllegalOperation(_))));
    assert!(matches!(empty.exists_file(path("/f")), Err(FsError::IllegalOperation(_))));
    assert!(matches!(empty.open_read(path("/f")), Err(FsError::IllegalOperation(_))));
    assert!(matches!(empty.open_write(path("/f")), Err(FsError::IllegalOperation(_))));
    assert!(matches!(empty.suitable_fs(path("/f")), Err(FsError::IllegalOperation(_))));
    assert!(matches!(empty.read_all(path("/f")), Err(FsError::IllegalOperation(_))));
}

#[test]
fn descriptors_count_up_from_one() {
    let mut root = rooted();
    root.create_file(path("/f")).unwrap();
    root.create_file(path("/g")).unwrap();
    assert_eq!(root.open_write(path("/f")).unwrap(), 1);
    assert_eq!(root.open_read(path("/f")).unwrap(), 2);
    assert!(matches!(root.open_read(path("/missing")), Err(FsError::NotFound)));
    assert_eq!(root.open_read(path("/g")).unwrap(), 4);
    assert_eq!(root.get_free_fd(), Some(5));
    assert_eq!(root.open_write(path("/g")).unwrap(), 6);
}

#[test]
fn files_are_written_and_read_by_descriptor() {
    let mut root = rooted();
    root.create_dir(path("/home")).unwrap();
    root.create_file(path("/home/m")).unwrap();
    let writer = root.open_write(path("/home/m")).unwrap();
    root.write(writer, b"hello ").unwrap();
    root.write(writer, b"world").unwrap();
    let reader = root.open_read(path("/home/m")).unwrap();
    let mut buffer = [0u8; 4];
    assert_eq!(root.read(reader, &mut buffer).unwrap(), 4);
    assert_eq!(&buffer, b"hell");
    root.seek(reader, 2).unwrap();
    assert_eq!(root.read(reader, &mut buffer).unwrap(), 4);
    assert_eq!(&buffer, b"worl");
    assert_eq!(root.read(reader, &mut buffer).unwrap(), 1);
    assert_eq!(buffer[0], b'd');
    assert_eq!(root.read(reader, &mut buffer).unwrap(), 0);
    assert_eq!(root.read_all(path("/home/m")).unwrap(), b"hello world".to_vec());
    let big: Vec<u8> = (0..20_000).map(|i| (i % 251) as u8).collect();
    root.create_file(path("/big")).unwrap();
    let writer = root.open_write(path("/big")).unwrap();
    root.write(writer, &big).unwrap();
    assert_eq!(root.read_all(path("/big")).unwrap(), big);
}

#[test]
fn descriptors_work_only_in_their_state() {
    let mut root = rooted();
    root.create_file(path("/f")).unwrap();
    let writer = root.open_write(path("/f")).unwrap();
    let reader = root.open_read(path("/f")).unwrap();
    let mut buffer = [0u8; 4];
    assert!(matches!(root.read(writer, &mut buffer), Err(FsError::IllegalOperation(_))));
    assert!(matches!(root.seek(writer, 1), Err(FsError::IllegalOperation(_))));
    assert!(matches!(root.write(reader, b"x"), Err(FsError::IllegalOperation(_))));
    assert!(matches!(root.read(99, &mut buffer), Err(FsError::IllegalOperation(_))));
    assert!(matches!(root.write(99, b"x"), Err(FsError::IllegalOperation(_))));
    assert!(matches!(root.seek(0, 1), Err(FsError::IllegalOperation(_))));
    assert!(matches!(root.close(99), Err(FsError::IllegalOperation(_))));
    root.write(writer, b"ab").unwrap();
    root.close(writer).unwrap();
    assert!(matches!(root.write(writer, b"x"), Err(FsError::IllegalOperation(_))));
    assert!(matches!(root.close(writer), Err(FsError::IllegalOperation(_))));
    root.close(reader).unwrap();
    assert!(matches!(root.read(reader, &mut buffer), Err(FsError::IllegalOperation(_))));
    assert_eq!(root.open_read(path("/f")).unwrap(), 3);
}

#[test]
fn descriptors_of_a_detached_volume_are_dead() {
    let mut root = rooted();
    root.create_dir(path("/mnt")).unwrap();
    assert!(root.attach(fresh(32), path("/mnt")).is_ok());
    root.create_file(path("/mnt/f")).unwrap();
    let writer = root.open_write(path("/mnt/f")).unwrap();
    let reader = root.open_read(path("/mnt/f")).unwrap();
    root.write(writer, b"abc").unwrap();
    assert!(root.detach(1).is_some());
    assert!(root.detach(1).is_none());
    assert!(root.detach(7).is_none());
    let mut buffer = [0u8; 4];
    assert!(matches!(root.write(writer, b"x"), Err(FsError::IllegalOperation(_))));
    assert!(matches!(root.read(reader, &mut buffer), Err(FsError::IllegalOperation(_))));
    assert!(matches!(root.seek(reader, 1), Err(FsError::IllegalOperation(_))));
}

#[test]
fn names_conflict_where_one_is_shared() {
    let a = vec![b"x".to_vec(), b"y".to_vec()];
    let b = vec![b"z".to_vec(), b"y".to_vec()];
    let c = vec![b"z".to_vec()];
    assert!(names_conflict(&a, &b));
    assert!(!names_conflict(&a, &c));
    assert!(!names_conflict(&a, &Vec::new()));
    assert!(attach_allowed(&Ok(a.clone()), &Ok(c.clone())));
    assert!(!attach_allowed(&Ok(a.clone()), &Ok(b)));
    assert!(!attach_allowed(&Err(FsError::NotFound), &Ok(c.clone())));
    assert!(!attach_allowed(&Ok(a), &Err(FsError::NotFound)));
    assert!(matches!(no_such_fd::<u8>(), Err(FsError::IllegalOperation(_))));
}

#[test]
fn read_all_gives_the_error_of_the_volume() {
    let mut fs = match FFAT::format(OwnedDisk { data: vec![0u8; 4096 * 16] }) {
        Ok(fs) => fs,
        Err(_) => panic!("the device could not be formatted"),
    };
    fs.create_dir(Path::from_str("/d").unwrap()).unwrap();
    fs.create_file(Path::from_str("/empty").unwrap()).unwrap();
    let mut root = RootFileSystem::new();
    assert!(root.attach(fs, Path::root()).is_ok());
    assert!(matches!(root.read_all(Path::from_str("/nothing").unwrap()), Err(FsError::NotFound)));
    assert!(matches!(
        root.read_all(Path::from_str("/d").unwrap()),
        Err(FsError::IllegalOperation(_))
    ));
    assert_eq!(root.read_all(Path::from_str("/empty").unwrap()).unwrap(), Vec::<u8>::new());
    assert_eq!(root.next_fd, 4);
    root.next_fd = i64::MAX;
    assert!(matches!(
        root.read_all(Path::from_str("/empty").unwrap()),
        Err(FsError::IllegalOperation(_))
    ));
    assert_eq!(root.next_fd, i64::MAX);
}
