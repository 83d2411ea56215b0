use bitfs::path::Path;

fn names(path: &Path) -> Vec<Vec<u8>> {
    (0..path.len()).map(|i| path.get(i).clone()).collect()
}

#[test]
fn from_str_splits_at_separators() {
    let path = Path::from_str("/a/b").unwrap();
    assert_eq!(names(&path), vec![b"a".to_vec(), b"b".to_vec()]);
    assert_eq!(path.len(), 2);
    assert!(!path.is_root());
}

#[test]
fn from_str_of_a_separator_is_the_root() {
    let path = Path::from_str("/").unwrap();
    assert!(path.is_root());
    assert_eq!(path.len(), 0);
    assert!(Path::from_str("").unwrap().is_root());
    assert!(Path::root().is_root());
}

#[test]
fn from_str_drops_empty_names() {
    let path = Path::new("//usr///bin/").unwrap();
    assert_eq!(names(&path), vec![b"usr".to_vec(), b"bin".to_vec()]);
    let bare = Path::from_str("x").unwrap();
    assert_eq!(names(&bare), vec![b"x".to_vec()]);
}

#[test]
fn to_string_writes_a_separator_before_each_name() {
    assert_eq!(Path::from_str("/a/b").unwrap().to_string(), "/a/b");
    assert_eq!(Path::from_str("a//b/").unwrap().to_string(), "/a/b");
    assert_eq!(Path::root().to_string(), "/");
    assert_eq!(Path::root().to_bytes(), b"/".to_vec());
}

#[test]
fn to_string_keeps_text_that_is_not_ascii() {
    let path = Path::from_str("/grüße/日本").unwrap();
    assert_eq!(path.len(), 2);
    assert_eq!(path.get(0).clone(), "grüße".as_bytes().to_vec());
    assert_eq!(path.to_string(), "/grüße/日本");
}

#[test]
fn written_paths_are_read_back() {
    for text in ["/", "/a", "/a/b/c", "/home/anon/message"] {
        let path = Path::from_str(text).unwrap();
        let again = Path::from_str(&path.to_string()).unwrap();
        assert_eq!(names(&again), names(&path));
        assert_eq!(path.to_string(), text);
    }
}

#[test]
fn parent_and_name() {
    let path = Path::from_str("/a/b/c").unwrap();
    assert_eq!(names(&path.parent_dir().unwrap()), vec![b"a".to_vec(), b"b".to_vec()]);
    assert_eq!(path.name().unwrap(), b"c".to_vec());
    assert!(Path::root().parent_dir().is_none());
    assert!(Path::root().name().is_none());
    let top = Path::from_str("/a").unwrap();
    assert!(top.parent_dir().unwrap().is_root());
}

#[test]
fn concat_then_parent_is_the_path() {
    let path = Path::from_str("/a/b").unwrap();
    let longer = path.concat(b"c".to_vec());
    assert_eq!(names(&longer), vec![b"a".to_vec(), b"b".to_vec(), b"c".to_vec()]);
    assert_eq!(names(&longer.parent_dir().unwrap()), names(&path));
    assert_eq!(longer.name().unwrap(), b"c".to_vec());
    let under_root = Path::root().concat(b"x".to_vec());
    assert!(under_root.parent_dir().unwrap().is_root());
}

#[test]
fn head_tail_takes_the_first_name() {
    let (head, tail) = Path::from_str("/a/b/c").unwrap().head_tail();
    assert_eq!(head.unwrap(), b"a".to_vec());
    assert_eq!(names(&tail), vec![b"b".to_vec(), b"c".to_vec()]);
    let (none, root) = Path::root().head_tail();
    assert!(none.is_none());
    assert!(root.is_root());
}

#[test]
fn relative_to_strips_an_ancestor() {
    let path = Path::from_str("/a/b/c/d").unwrap();
    let rest = path.clone().relative_to(Path::from_str("/a/b").unwrap()).unwrap();
    assert_eq!(names(&rest), vec![b"c".to_vec(), b"d".to_vec()]);
    assert!(path.clone().relative_to(Path::from_str("/a/x").unwrap()).is_none());
    assert!(path.clone().relative_to(Path::from_str("/a/b/c/d/e").unwrap()).is_none());
    assert_eq!(names(&path.clone().relative_to(Path::root()).unwrap()), names(&path));
    assert!(path.clone().relative_to(path.clone()).unwrap().is_root());
}

#[test]
fn paths_are_equal_where_their_names_are() {
    assert!(Path::from_str("/a/b").unwrap() == Path::from_str("a//b/").unwrap());
    assert!(Path::from_str("/a/b").unwrap() != Path::from_str("/a/c").unwrap());
    assert!(Path::from_str("/a/b").unwrap() != Path::from_str("/a").unwrap());
    assert!(Path::root() == Path::from_str("/").unwrap());
    assert!(Path::root().concat(b"x".to_vec()) == Path::from_bytes(b"/x"));
}
