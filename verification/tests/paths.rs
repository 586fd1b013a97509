use lib::fs::dir::{resolve, split_path, DirEntry, DirTable, PathError, ROOTINO};

fn comps(p: &str) -> Result<Vec<Vec<u8>>, PathError> {
    split_path(p.as_bytes())
}

#[test]
fn split_path_components() {
    assert_eq!(comps("/a/bc/d"), Ok(vec![b"a".to_vec(), b"bc".to_vec(), b"d".to_vec()]));
    assert_eq!(comps("/"), Ok(vec![]));
    assert_eq!(comps("/a/"), Ok(vec![b"a".to_vec()]));
}

#[test]
fn split_path_errors() {
    assert_eq!(comps(""), Err(PathError::NotAbsolute));
    assert_eq!(comps("a/b"), Err(PathError::NotAbsolute));
    assert_eq!(comps("/a//b"), Err(PathError::EmptyComponent));
    assert_eq!(comps("//"), Err(PathError::EmptyComponent));
    let long = "/x".repeat(17);
    assert_eq!(comps(&long), Err(PathError::TooLong));
    assert_eq!(comps(&"/x".repeat(16)).map(|v| v.len()), Ok(16));
    // the first violation from the left decides
    let mixed = format!("{}//", "/x".repeat(17));
    assert_eq!(comps(&mixed), Err(PathError::TooLong));
}

#[test]
fn dir_entry_names() {
    let mut e = DirEntry::empty();
    assert!(e.is_empty());
    assert!(e.set_name(b"hello"));
    assert_eq!(e.namelen, 5);
    assert!(e.name_eq(b"hello"));
    assert!(!e.name_eq(b"hell"));
    assert_eq!(e.name_bytes(), b"hello".to_vec());
    assert!(!e.set_name(b"fifteen-bytes!!"));
    assert!(e.name_eq(b"hello"));
    assert!(e.set_name(b"fourteen-bytes"));
    assert_eq!(e.name_bytes().len(), 14);
    e.inum = 3;
    assert!(!e.is_empty());
}

#[test]
fn resolve_walks_from_root() {
    let mut t = DirTable { entries: vec![(ROOTINO, b"bin".to_vec(), 2), (2, b"sh".to_vec(), 7)] };
    assert_eq!(resolve(b"/bin/sh", &mut t), Ok(7));
    assert_eq!(resolve(b"/", &mut t), Ok(ROOTINO));
    assert_eq!(resolve(b"/bin/ls", &mut t), Err(PathError::NotFound));
    assert_eq!(resolve(b"bin", &mut t), Err(PathError::NotAbsolute));
}
