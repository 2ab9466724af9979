use std::cmp::Ordering;
use zarchive2::path::Path;

#[test]
fn paths_equal_ignoring_case() {
    let a = Path::new(b"Docs/readme.TXT");
    let b = Path::new(b"docs/README.txt");
    assert!(a == b);
    assert_eq!(a.cmp(&b), Ordering::Equal);
    assert_eq!(a.partial_cmp(&b), Some(Ordering::Equal));
}

#[test]
fn paths_order_ignoring_case() {
    let a = Path::new(b"Alpha");
    let b = Path::new(b"beta");
    assert!(a != b);
    assert_eq!(a.cmp(&b), Ordering::Less);
    assert_eq!(b.cmp(&a), Ordering::Greater);
    assert!(a < b);
    // a proper prefix comes first
    assert_eq!(Path::new(b"dir").cmp(&Path::new(b"DIR/x")), Ordering::Less);
    // 'Z' folds to 'z' (0x7A), which sorts after '_' (0x5F)
    assert_eq!(Path::new(b"_").cmp(&Path::new(b"Z")), Ordering::Less);
    assert_eq!(Path::new(b"").cmp(&Path::new(b"")), Ordering::Equal);
}

#[test]
fn canonicalize_resolves_separators_and_dots() {
    assert_eq!(Path::new(b"a//b/./c").canonicalize().as_bytes(), b"a/b/c");
    assert_eq!(Path::new(b"/a/b/").canonicalize().as_bytes(), b"a/b");
    assert_eq!(Path::new(b"a/x/../b").canonicalize().as_bytes(), b"a/b");
    assert_eq!(Path::new(b"../a").canonicalize().as_bytes(), b"a");
    assert_eq!(Path::new(b"./.").canonicalize().as_bytes(), b"");
    assert_eq!(Path::new(b"a/.b/..c").canonicalize().as_bytes(), b"a/.b/..c");
}

#[test]
fn canonical_paths() {
    assert!(Path::new(b"a/b/c").is_canonical());
    assert!(Path::new(b"").is_canonical());
    assert!(!Path::new(b"a//b").is_canonical());
    assert!(!Path::new(b"a/./b").is_canonical());
    assert!(!Path::new(b"a/").is_canonical());
    let c = Path::new(b"x//y/../z").canonicalize();
    assert!(c.is_canonical());
}

#[test]
fn path_components() {
    let names = Path::new(b"Docs//./sub/../readme.TXT").components();
    assert_eq!(names, vec![b"Docs".to_vec(), b"readme.TXT".to_vec()]);
    assert!(Path::new(b"/").components().is_empty());
}
