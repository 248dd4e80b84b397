use os_test::path::{Path, PathBuf};

#[test]
fn parents() {
    let path = Path::new("/usr/foo/tmp.html");
    let parent = path.parent().unwrap();
    let grand_parent = parent.parent().unwrap();
    assert_eq!(parent, Path::new("/usr/foo"));
    assert_eq!(grand_parent, Path::new("/usr"));
    assert_eq!(grand_parent.parent(), Some(Path::new("/")));
    assert_eq!(Path::new("hello").parent(), None);
}

#[test]
fn top_folders() {
    let path = Path::new("/usr/foo/tmp.html");
    assert_eq!(path.top_folder(), Some(Path::new("/")));
    let path = Path::new("hello/byebyte/good/bye");
    assert_eq!(path.top_folder(), Some(Path::new("hello")));
    let path = Path::new("bye");
    assert_eq!(path.top_folder(), None);
    let path = Path::new("/");
    assert_eq!(path.top_folder(), Some(Path::new("/")));
}

#[test]
fn relative() {
    let path = Path::new("/usr/foo/tmp/ok.html");
    let parent = Path::new("/usr/foo");
    assert_eq!(path.relative_to(&parent), Some(Path::new("tmp/ok.html")));
    let path = Path::new("/text.html");
    let root = Path::root();
    assert_eq!(path.relative_to(&root), Some(Path::new("text.html")));
    let path = Path::new("ok/test/testing");
    let unrelated_paarent = Path::new("/ok/test");
    assert_eq!(path.relative_to(&unrelated_paarent), None);
}

#[test]
fn filenames_and_roots() {
    assert_eq!(Path::new("/usr/foo").filename(), Some(Path::new("foo")));
    assert_eq!(Path::new("/a").filename(), Some(Path::new("a")));
    assert_eq!(Path::new("/").filename(), None);
    assert_eq!(Path::new("plain").filename(), None);
    assert!(Path::new("/").is_root());
    assert!(!Path::new("/a").is_root());
    assert!(Path::new("/a").has_root());
    assert!(!Path::new("a/b").has_root());
    let (top, rest) = Path::new("a/b/c").split_from_top().unwrap();
    assert_eq!(top, Path::new("a"));
    assert_eq!(rest, Path::new("b/c"));
    assert_eq!(Path::new("abc").split_from_top(), None);
}

#[test]
fn path_buffers() {
    let b = PathBuf::new("/mnt");
    assert_eq!(b.as_path(), &Path::new("/mnt"));
    let joined = b.append(&Path::new("/disk"));
    assert_eq!(joined.as_path(), &Path::new("/mnt/disk"));
    let copy = PathBuf::from_path(&Path::new("x/y"));
    assert_eq!(copy.as_path(), &Path::new("x/y"));
    assert_eq!(PathBuf::new("a"), PathBuf::new("a"));
    assert_ne!(PathBuf::new("a"), PathBuf::new("b"));
}
