//! Cleaning of paths and following of links.

use tar::realpath::{normalize, realpath, Resolver};
use tar::TarError;

fn resolve(path: &str, base: Option<&str>) -> Result<String, TarError> {
    resolve_with(path, base, &[])
}

fn resolve_with(path: &str, base: Option<&str>, links: &[(&str, &str)]) -> Result<String, TarError> {
    let table: Vec<(Vec<u8>, Vec<u8>)> =
        links.iter().map(|(a, b)| (a.as_bytes().to_vec(), b.as_bytes().to_vec())).collect();
    realpath(path.as_bytes(), base.map(|b| b.as_bytes()), &table)
        .map(|p| String::from_utf8(p).unwrap())
}

#[test]
fn test_err_basic() {
    resolve("", None).unwrap_err();
    resolve("", None).unwrap_err();
    resolve("", Some("")).unwrap_err();
    resolve("", Some("/")).unwrap_err();
}

#[test]
fn test_err_relative_base() {
    resolve(".", None).unwrap_err();
    resolve(".", None).unwrap_err();
    resolve("./", None).unwrap_err();
    resolve("./", None).unwrap_err();
    resolve("..", None).unwrap_err();
    resolve("..", None).unwrap_err();
    resolve("../", None).unwrap_err();
    resolve("../", None).unwrap_err();
    resolve(".", Some(".")).unwrap_err();
    resolve(".", Some(".")).unwrap_err();
    resolve(".", Some("./")).unwrap_err();
    resolve(".", Some("./")).unwrap_err();
    resolve(".", Some("..")).unwrap_err();
    resolve(".", Some("..")).unwrap_err();
    resolve(".", Some("../")).unwrap_err();
    resolve(".", Some("../")).unwrap_err();
}

#[test]
fn test_ok_basic() {
    assert_eq!(resolve("/", None).unwrap(), "/");
    assert_eq!(resolve(".", Some("/")).unwrap(), "/");
    assert_eq!(resolve("..", Some("/")).unwrap(), "/");
    assert_eq!(resolve("../..", Some("/")).unwrap(), "/");
    assert_eq!(resolve("/root", None).unwrap(), "/root");
    assert_eq!(resolve("/foobar", None).unwrap(), "/foobar");
}

#[test]
fn test_ok_canonicalize() {
    assert_eq!(resolve("/bin", None).unwrap(), "/bin");
    assert_eq!(resolve("/bin", Some("./foo")).unwrap(), "/bin");
    assert_eq!(resolve("../../bin", Some("/usr/share")).unwrap(), "/bin");
    assert_eq!(resolve("../../bin", Some("/")).unwrap(), "/bin");
    assert_eq!(resolve(".", Some("/bin")).unwrap(), "/bin");
    assert_eq!(resolve("..", Some("/usr/bin")).unwrap(), "/usr");
}

#[test]
fn test_ok_resolve() {
    assert_eq!(resolve("/foo", None).unwrap(), "/foo");
    assert_eq!(resolve("/foo/.", None).unwrap(), "/foo");
    assert_eq!(resolve("/foo/..", None).unwrap(), "/");
    assert_eq!(resolve("/foo/../..", None).unwrap(), "/");
    assert_eq!(resolve("/foo/./..", None).unwrap(), "/");
    assert_eq!(resolve("/foo/../.", None).unwrap(), "/");
    assert_eq!(resolve("/foo/../bar/..", None).unwrap(), "/");
    assert_eq!(resolve("/foo/../bar/../foo", None).unwrap(), "/foo");
    assert_eq!(resolve("/foo/bar/..", None).unwrap(), "/foo");
    assert_eq!(resolve("/foo", Some("./foo")).unwrap(), "/foo");
    assert_eq!(resolve("../../foo", Some("/usr/share")).unwrap(), "/foo");
    assert_eq!(resolve("../../foo", Some("/")).unwrap(), "/foo");
    assert_eq!(resolve(".", Some("/foo")).unwrap(), "/foo");
    assert_eq!(resolve("..", Some("/usr/foo")).unwrap(), "/usr");
}

#[test]
fn test_ok_basic_symlink() {
    let links = [("/t1/dst", "/t1/src")];
    assert_eq!(resolve_with("/t1/dst", None, &links).unwrap(), "/t1/src");
    assert_eq!(resolve("/t1/dst", None).unwrap(), "/t1/dst");
}

#[test]
fn test_err_recursive_symlink() {
    let links = [("/t1/src", "/t1/src")];
    resolve_with("/t1/src", None, &links).unwrap_err();
    assert_eq!(resolve("/t1/src", None).unwrap(), "/t1/src");
}

#[test]
fn test_ok_relative_symlink() {
    let links = [("/t1/dst", ".")];
    assert_eq!(resolve_with("/t1/dst", None, &links).unwrap(), "/t1");
    assert_eq!(resolve("/t1/dst", None).unwrap(), "/t1/dst");
}

#[test]
fn test_ok_root_symlink() {
    let links = [("/t1/dst", "/")];
    assert_eq!(resolve_with("/t1/dst", None, &links).unwrap(), "/");
    assert_eq!(resolve("/t1/dst", None).unwrap(), "/t1/dst");
}

#[test]
fn test_err_root_symlink() {
    let links = [("/t1/dst", "/")];
    assert_eq!(resolve_with("/t1/dst", None, &links).unwrap(), "/");
}

#[test]
fn test_ok_relative_components_symlink() {
    let links = [("/t1/dst", "/t1/foo/bar/../../.")];
    assert_eq!(resolve_with("/t1/dst", None, &links).unwrap(), "/t1");
}

#[test]
fn errors_say_why() {
    assert_eq!(resolve("", None), Err(TarError::EmptyPath));
    assert_eq!(resolve("a", None), Err(TarError::RelativePath));
    assert_eq!(
        resolve_with("/l", None, &[("/l", "l")]),
        Err(TarError::TooManyLinks)
    );
}

#[test]
fn links_on_the_way_are_followed() {
    let links = [("/a", "/b"), ("/b/c", "../d/e"), ("/d/e/f", "g")];
    assert_eq!(resolve_with("/a/c/f/h", None, &links).unwrap(), "/d/e/g/h");
    // What is resolved is resolved to itself.
    assert_eq!(resolve_with("/d/e/g/h", None, &links).unwrap(), "/d/e/g/h");
    // A link is followed before a parent is taken.
    assert_eq!(resolve_with("/a/c/..", None, &links).unwrap(), "/d");
}

#[test]
fn forty_links_are_followed() {
    let chain = |n: usize| -> Vec<(Vec<u8>, Vec<u8>)> {
        (0..n).map(|i| (format!("/{}", i).into_bytes(), format!("{}", i + 1).into_bytes())).collect()
    };
    assert_eq!(realpath(b"/0", None, &chain(40)), Ok(b"/40".to_vec()));
    assert_eq!(realpath(b"/0", None, &chain(41)), Err(TarError::TooManyLinks));
}

#[test]
fn resolver_asks_of_each_path() {
    let mut walk = Resolver::new(b"b/c", Some(b"/a/./x/..")).unwrap();
    assert_eq!(walk.ask(), Some(b"/a".to_vec()));
    walk.answer(None).unwrap();
    assert_eq!(walk.ask(), Some(b"/a/x".to_vec()));
    walk.answer(None).unwrap();
    assert_eq!(walk.ask(), Some(b"/a/b".to_vec()));
    walk.answer(Some(b"../z")).unwrap();
    assert_eq!(walk.ask(), Some(b"/z".to_vec()));
    walk.answer(None).unwrap();
    assert_eq!(walk.ask(), Some(b"/z/c".to_vec()));
    walk.answer(None).unwrap();
    assert_eq!(walk.ask(), None);
    assert_eq!(walk.path(), b"/z/c".to_vec());
}

#[test]
fn normalized_paths() {
    assert_eq!(normalize(b"a//b/./c/"), b"a/b/c".to_vec());
    assert_eq!(normalize(b"./a/../b"), b"./a/../b".to_vec());
    assert_eq!(normalize(b"//a/."), b"/a".to_vec());
    assert_eq!(normalize(b""), b"".to_vec());
    assert_eq!(normalize(b"a/b/c"), b"a/b/c".to_vec());
}
