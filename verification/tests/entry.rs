//! Unpacking of links, with a file system that is held in memory.

use tar::contained::{check_link, check_step};
use tar::realpath::realpath;
use tar::unpack::{Placement, UnpackAction, UnpackPlan, UnpackStep};
use tar::{Archive, Builder, EntryType, Header, TarError};

/// A file system: the targets of its links, its directories, and its files.
struct Disk {
    links: Vec<(Vec<u8>, Vec<u8>)>,
    dirs: Vec<Vec<u8>>,
    files: Vec<Vec<u8>>,
}

impl Disk {
    fn new() -> Disk {
        Disk { links: Vec::new(), dirs: Vec::new(), files: Vec::new() }
    }

    fn resolve(&self, p: &[u8]) -> Result<Vec<u8>, TarError> {
        realpath(p, None, &self.links)
    }

    fn has_link(&self, p: &str) -> bool {
        self.links.iter().any(|(l, _)| l == p.as_bytes())
    }

    fn opens(&self, p: &str) -> bool {
        match self.resolve(p.as_bytes()) {
            Ok(real) => self.files.contains(&real),
            Err(_) => false,
        }
    }

    fn target(&self, p: &str) -> Option<Vec<u8>> {
        self.links.iter().find(|(l, _)| l == p.as_bytes()).map(|(_, t)| t.clone())
    }

    /// Creates the directory that a path stands in, and says what the path comes to. A link may
    /// lead to where there is no directory.
    fn make_parent(&mut self, p: &[u8]) -> Result<Vec<u8>, TarError> {
        let dir = self.resolve(&p[..p.iter().rposition(|b| *b == b'/').unwrap()])?;
        self.dirs.push(dir);
        self.resolve(p)
    }

    fn create(&mut self, real: Vec<u8>) -> Result<(), TarError> {
        let cut = real.iter().rposition(|b| *b == b'/').unwrap();
        if !self.dirs.iter().any(|d| d == &real[..cut]) {
            return Err(TarError::ShortWrite);
        }
        self.files.push(real);
        Ok(())
    }

    /// Unpacks an archive. Nothing is done at a place that links lead outside.
    fn unpack(&mut self, bytes: &[u8], dst: &str) -> Result<(), TarError> {
        let dst = dst.as_bytes();
        let run = Archive::new(bytes.to_vec()).unpack(dst);
        for step in run.steps {
            check_step(&step, dst, &self.links)?;
            if let Placement::At(p) = step.place {
                let real = self.make_parent(&p)?;
                match step.action {
                    UnpackAction::File(..) => self.create(real)?,
                    UnpackAction::Symlink(target) => self.links.push((real, target)),
                    UnpackAction::HardLink(target) => {
                        let source = self.resolve(&target)?;
                        assert!(self.files.contains(&source));
                        self.files.push(real);
                    }
                    _ => {}
                }
            }
        }
        run.end
    }
}

fn header(kind: EntryType, path: &str, link: Option<&str>) -> Header {
    let mut header = Header::new_gnu();
    header.set_size(0);
    header.set_entry_type(kind);
    header.set_path(path.as_bytes()).unwrap();
    if let Some(link) = link {
        header.set_link_name(link.as_bytes()).unwrap();
    }
    header.set_cksum();
    header
}

fn archive(headers: &[Header]) -> Vec<u8> {
    let mut ar = Builder::new(Vec::new());
    for h in headers {
        ar.append(h, &[]).unwrap();
    }
    ar.into_inner().unwrap()
}

#[test]
fn absolute_symlink() {
    let bytes = archive(&[header(EntryType::Symlink, "foo", Some("/bar"))]);
    let mut td = Disk::new();
    td.unpack(&bytes, "/tar").unwrap();
    assert!(td.has_link("/tar/foo"));

    let mut ar = Archive::new(bytes);
    let mut entries = ar.entries().unwrap();
    let entry = entries.next().unwrap().unwrap();
    assert_eq!(entry.link_name_bytes().unwrap(), b"/bar".to_vec());
}

#[test]
fn absolute_hardlink() {
    let bytes = archive(&[
        header(EntryType::Regular, "foo", None),
        // This absolute path under the target is there by the time that it is linked to.
        header(EntryType::Link, "bar", Some("/tar/foo")),
    ]);
    let mut td = Disk::new();
    td.unpack(&bytes, "/tar").unwrap();
    assert!(td.opens("/tar/foo"));
    assert!(td.opens("/tar/bar"));
}

#[test]
fn relative_hardlink() {
    let bytes = archive(&[
        header(EntryType::Regular, "foo", None),
        header(EntryType::Link, "bar", Some("foo")),
    ]);
    let mut td = Disk::new();
    td.unpack(&bytes, "/tar").unwrap();
    assert!(td.opens("/tar/foo"));
    assert!(td.opens("/tar/bar"));
}

#[test]
fn absolute_link_deref_error() {
    let bytes = archive(&[
        header(EntryType::Symlink, "foo", Some("/")),
        header(EntryType::Regular, "foo/bar", None),
    ]);
    let mut td = Disk::new();
    assert!(td.unpack(&bytes, "/tar").is_err());
    assert!(td.has_link("/tar/foo"));
    assert!(!td.opens("/tar/foo/bar"));
}

#[test]
fn chase_absolute_link_error() {
    let bytes = archive(&[
        header(EntryType::Symlink, "symlink", Some("/outside/unreachable")),
        header(EntryType::Regular, "symlink", None),
    ]);
    let mut td = Disk::new();
    assert!(td.unpack(&bytes, "/tar").is_err());
    assert!(td.has_link("/tar/symlink"));
    assert!(!td.opens("/outside/unreachable"));
}

#[test]
fn chase_relative_link_error() {
    let bytes = archive(&[
        header(EntryType::Symlink, "symlink", Some("../../outside/unreachable")),
        header(EntryType::Regular, "symlink", None),
    ]);
    let mut td = Disk::new();
    td.unpack(&bytes, "/tar_chase_relative").unwrap_err();
    assert!(td.has_link("/tar_chase_relative/symlink"));
    assert!(!td.opens("/outside/unreachable"));
}

#[test]
fn relative_link_deref_error() {
    let bytes = archive(&[
        header(EntryType::Symlink, "foo", Some("../../../../")),
        header(EntryType::Regular, "foo/bar", None),
    ]);
    let mut td = Disk::new();
    assert!(td.unpack(&bytes, "/tar").is_err());
    assert!(td.has_link("/tar/foo"));
    assert!(!td.opens("/tar/foo/bar"));
}

#[test]
fn modify_link_just_created() {
    let bytes = archive(&[
        header(EntryType::Symlink, "foo", Some("bar")),
        header(EntryType::Regular, "bar/foo", None),
        header(EntryType::Regular, "foo/bar", None),
    ]);
    let mut td = Disk::new();
    td.unpack(&bytes, "/tar").unwrap();
    assert!(td.opens("/tar/bar/foo"));
    assert!(td.opens("/tar/bar/bar"));
    assert!(td.opens("/tar/foo/foo"));
    assert!(td.opens("/tar/foo/bar"));
}

#[test]
fn parent_paths_error() {
    let bytes = archive(&[
        header(EntryType::Symlink, "foo", Some("..")),
        header(EntryType::Regular, "foo/bar", None),
    ]);
    let mut td = Disk::new();
    assert!(td.unpack(&bytes, "/tar").is_err());
    assert!(td.has_link("/tar/foo"));
    assert!(!td.opens("/tar/foo/bar"));
}

#[test]
fn good_parent_paths_ok() {
    let bytes = archive(&[
        header(EntryType::Symlink, "foo/bar", Some("../bar")),
        header(EntryType::Regular, "bar", None),
    ]);
    let mut td = Disk::new();
    td.unpack(&bytes, "/tar").unwrap();
    assert!(td.has_link("/tar/foo/bar"));
    assert!(td.opens("/tar/foo/bar"));
}

#[test]
fn a_hard_link_outside_is_refused() {
    let bytes = archive(&[header(EntryType::Link, "bar", Some("/etc/passwd"))]);
    let mut td = Disk::new();
    assert_eq!(td.unpack(&bytes, "/tar"), Err(TarError::OutsideDestination));
}

#[test]
fn a_hard_link_that_climbs_out_is_refused() {
    for link in ["../x", "a/../../x", "/tar/../x", "/tar/a/../.."] {
        let bytes = archive(&[header(EntryType::Link, "bar", Some(link))]);
        assert_eq!(Disk::new().unpack(&bytes, "/tar"), Err(TarError::OutsideDestination));
    }
    let bytes = archive(&[
        header(EntryType::Regular, "foo", None),
        header(EntryType::Link, "bar", Some("a/../foo")),
    ]);
    let mut td = Disk::new();
    td.unpack(&bytes, "/tar").unwrap();
    assert!(td.opens("/tar/bar"));
    assert!(check_link(b"/tar", b"a/.."));
    assert!(!check_link(b"/tar", b".."));
    assert!(!check_link(b"", b".."));
}

#[test]
fn a_hard_link_through_a_link_is_refused() {
    let bytes = archive(&[
        header(EntryType::Symlink, "out", Some("../etc")),
        header(EntryType::Link, "bar", Some("out/passwd")),
    ]);
    assert_eq!(Disk::new().unpack(&bytes, "/tar"), Err(TarError::OutsideDestination));
}

#[test]
fn links_need_names() {
    for kind in [EntryType::Symlink, EntryType::Link] {
        for link in [".", "./", "./."] {
            let bytes = archive(&[header(kind, "bar", Some(link))]);
            assert_eq!(Disk::new().unpack(&bytes, "/tar"), Err(TarError::LinkNameEmpty));
        }
        let bytes = archive(&[header(kind, "bar", None)]);
        assert_eq!(Disk::new().unpack(&bytes, "/tar"), Err(TarError::LinkNameMissing));
    }
}

#[test]
fn steps_are_checked() {
    let at = |p: &str| Placement::At(p.as_bytes().to_vec());
    let links = vec![(b"/d/out".to_vec(), b"/e".to_vec()), (b"/d/in".to_vec(), b"/d/x".to_vec())];
    let dir = |p: &str| UnpackStep { place: at(p), action: UnpackAction::Directory };
    assert_eq!(check_step(&dir("/d/a"), b"/d", &links), Ok(()));
    assert_eq!(check_step(&dir("/d/in/a"), b"/d", &links), Ok(()));
    assert_eq!(check_step(&dir("/d/out/a"), b"/d", &links), Err(TarError::OutsideDestination));
    assert_eq!(check_step(&dir("d/a"), b"d", &links), Err(TarError::RelativePath));
    let nowhere = UnpackStep { place: Placement::Skipped, action: UnpackAction::Nothing };
    assert_eq!(check_step(&nowhere, b"/d", &links), Ok(()));
    let link = |s: &str| UnpackStep {
        place: at("/d/l"),
        action: UnpackAction::HardLink(s.as_bytes().to_vec()),
    };
    assert_eq!(check_step(&link("/d/in"), b"/d", &links), Ok(()));
    assert_eq!(check_step(&link("/d/out/f"), b"/d", &links), Err(TarError::OutsideDestination));
    assert_eq!(link("/s").guarded_paths(), vec![b"/d/l".to_vec(), b"/s".to_vec()]);
    let plan = UnpackPlan::HardLink(b"/s".to_vec());
    assert_eq!(plan.guarded_paths(&at("/p")), vec![b"/p".to_vec(), b"/s".to_vec()]);
    assert_eq!(UnpackPlan::Directory.guarded_paths(&at("/p")), vec![b"/p".to_vec()]);
}

#[test]
fn links_point_without_roots_and_dots() {
    for (link, target) in [
        ("/bar", "bar"),
        ("a/./b", "a/b"),
        ("./a//b/", "a/b"),
        ("/tar/../x", "tar/../x"),
        ("../../x", "../../x"),
        ("/", "/"),
        ("//.", "/"),
    ] {
        let bytes = archive(&[header(EntryType::Symlink, "l", Some(link))]);
        let mut td = Disk::new();
        td.unpack(&bytes, "/tar").unwrap();
        assert_eq!(td.target("/tar/l"), Some(target.as_bytes().to_vec()));
    }
    let bytes = archive(&[header(EntryType::Link, "l", Some("/"))]);
    assert_eq!(Disk::new().unpack(&bytes, "/tar"), Err(TarError::LinkNameEmpty));
}

#[test]
fn links_without_a_root() {
    let at = |kind: EntryType, dst: &str, link: &str| {
        let mut ar = Archive::new(archive(&[header(kind, "l", Some(link))]));
        let mut e = ar.entries().unwrap().next().unwrap().unwrap();
        match e.unpack(dst.as_bytes()) {
            Ok(UnpackAction::Symlink(t)) => Ok((true, String::from_utf8(t).unwrap())),
            Ok(UnpackAction::HardLink(t)) => Ok((false, String::from_utf8(t).unwrap())),
            Ok(_) => panic!("a link"),
            Err(e) => Err(e),
        }
    };
    for kind in [EntryType::Symlink, EntryType::Link] {
        let soft = kind == EntryType::Symlink;
        assert_eq!(at(kind, "l", "/a/./b"), Ok((soft, "a/b".to_string())));
        assert_eq!(at(kind, "d/l", "../b"), Ok((soft, "../b".to_string())));
        assert_eq!(at(kind, "/d/l", "a/../../b"), Ok((soft, "a/../../b".to_string())));
        assert_eq!(at(kind, "l", "../b"), Err(TarError::OutsideDestination));
        assert_eq!(at(kind, "/d/l", "../../b"), Err(TarError::OutsideDestination));
        assert_eq!(at(kind, "/", ".."), Err(TarError::OutsideDestination));
        assert_eq!(at(kind, "l", "/"), Err(TarError::LinkNameEmpty));
        assert_eq!(at(kind, "l", "."), Err(TarError::LinkNameEmpty));
    }
}

#[test]
fn hard_links_are_spelled_plainly() {
    for (link, source) in [("./a/./b", "/tar/a/b"), ("/tar/./a", "/tar/a"), ("a/../b", "/tar/a/../b")] {
        let run = Archive::new(archive(&[header(EntryType::Link, "l", Some(link))])).unpack(b"/tar");
        match &run.steps[0].action {
            UnpackAction::HardLink(s) => assert_eq!(s, source.as_bytes()),
            _ => panic!("a link"),
        }
    }
}
