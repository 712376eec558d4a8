//! Reading and writing of archives.

use tar::builder::{prepare_header, DirStep};
use tar::stream_append::{prepare_header_link, prepare_header_path};
use tar::unpack::{Placement, UnpackAction, UnpackStep};
use tar::unpack_all::UnpackRun;
use tar::{Archive, Builder, Entry, EntryType, Header, HeaderMode, Metadata, TarError};

fn file_meta(len: u64) -> Metadata {
    Metadata { mode: 0o100644, uid: 1000, gid: 1000, mtime: 1000000000, len, rdev: 0 }
}

fn dir_meta() -> Metadata {
    Metadata { mode: 0o040755, uid: 1000, gid: 1000, mtime: 1000000000, len: 4096, rdev: 0 }
}

fn put(field: &mut [u8], bytes: &[u8]) {
    for (slot, val) in field.iter_mut().zip(bytes) {
        *slot = *val;
    }
}

fn read_to_string(e: &mut Entry<'_>) -> String {
    String::from_utf8(e.read_all().unwrap()).unwrap()
}

/// What a run leaves behind: the directories and the files below the target.
struct Tree {
    dirs: Vec<Vec<u8>>,
    files: Vec<(Vec<u8>, Vec<u8>)>,
}

impl Tree {
    fn add_dir(&mut self, p: &[u8]) {
        let mut i = 1;
        while i <= p.len() {
            if i == p.len() || p[i] == b'/' {
                if !self.dirs.iter().any(|d| d == &p[..i]) {
                    self.dirs.push(p[..i].to_vec());
                }
            }
            i += 1;
        }
    }

    fn add(&mut self, step: &UnpackStep) {
        if let Placement::At(p) = &step.place {
            let cut = p.iter().rposition(|b| *b == b'/').unwrap();
            match &step.action {
                UnpackAction::Directory => self.add_dir(p),
                UnpackAction::File(_, bytes) => {
                    self.add_dir(&p[..cut]);
                    self.files.push((p.clone(), bytes.clone()));
                }
                _ => {}
            }
        }
    }

    fn of(run: &UnpackRun) -> Tree {
        let mut tree = Tree { dirs: Vec::new(), files: Vec::new() };
        for step in &run.steps {
            tree.add(step);
        }
        tree
    }

    fn is_dir(&self, p: &str) -> bool {
        self.dirs.iter().any(|d| d == p.as_bytes())
    }

    fn is_file(&self, p: &str) -> bool {
        self.files.iter().any(|(f, _)| f == p.as_bytes())
    }

    fn holds(&self, p: &str) -> bool {
        self.is_dir(p) || self.is_file(p)
    }
}

#[test]
fn writing_files() {
    let mut ar = Builder::new(Vec::new());
    ar.append_file(b"test2", &file_meta(4), b"test").unwrap();

    let data = ar.into_inner().unwrap();
    let mut ar = Archive::new(data);
    let mut entries = ar.entries().unwrap();
    let mut f = entries.next().unwrap().unwrap();

    assert_eq!(f.header().path_bytes(), b"test2".to_vec());
    assert_eq!(f.header().size().unwrap(), 4);
    assert_eq!(read_to_string(&mut f), "test");

    assert!(entries.next().is_none());
}

#[test]
fn large_filename() {
    let mut ar = Builder::new(Vec::new());

    let filename = "abcd/".repeat(50);
    let mut header = Header::new_ustar();
    header.set_path(filename.as_bytes()).unwrap();
    header.set_metadata(&file_meta(4));
    header.set_cksum();
    ar.append(&header, b"test").unwrap();
    let too_long = "abcd".repeat(200);
    ar.append_file(too_long.as_bytes(), &file_meta(4), b"test").unwrap();

    let mut ar = Archive::new(ar.into_inner().unwrap());
    let mut entries = ar.entries().unwrap();

    let mut f = entries.next().unwrap().unwrap();
    assert_eq!(f.header().path_bytes(), filename.as_bytes().to_vec());
    assert_eq!(f.header().size().unwrap(), 4);
    assert_eq!(read_to_string(&mut f), "test");

    let mut f = entries.next().unwrap().unwrap();
    assert_eq!(f.path_bytes(), too_long.as_bytes().to_vec());
    assert_eq!(f.header().size().unwrap(), 4);
    assert_eq!(read_to_string(&mut f), "test");

    assert!(entries.next().is_none());
}

fn check_dirtree(tree: &Tree) {
    assert!(tree.is_dir("/td/a"));
    assert!(tree.is_dir("/td/a/b"));
    assert!(tree.is_file("/td/a/c"));
}

#[test]
fn writing_and_extracting_directories() {
    let mut ar = Builder::new(Vec::new());
    ar.append_dir(b"a", &dir_meta()).unwrap();
    ar.append_dir(b"a/b", &dir_meta()).unwrap();
    ar.append_file(b"a/c", &file_meta(1), b"c").unwrap();
    ar.finish().unwrap();

    let mut ar = Archive::new(ar.into_inner().unwrap());
    let run = ar.unpack(b"/td");
    assert!(run.end.is_ok());
    check_dirtree(&Tree::of(&run));
}

#[test]
fn handling_incorrect_file_size() {
    let mut ar = Builder::new(Vec::new());
    let mut header = Header::new_old();
    header.set_path(b"somepath").unwrap();
    header.set_metadata(&file_meta(0));
    header.set_size(2048); // past the end of file null blocks
    header.set_cksum();
    ar.append(&header, b"").unwrap();

    // Extracting
    let mut ar = Archive::new(ar.into_inner().unwrap());
    assert!(ar.unpack(b"/td").end.is_err());

    // Iterating
    let mut ar = Archive::new(ar.into_inner());
    let mut entries = ar.entries().unwrap();
    let mut failed = false;
    while let Some(entry) = entries.next() {
        failed = failed || entry.is_err();
    }
    assert!(failed);
}

#[test]
fn extracting_malicious_tarball() {
    let mut a = Builder::new(Vec::new());
    let mut append = |path: &str| {
        let mut header = Header::new_gnu();
        assert!(header.set_path(path.as_bytes()).is_err(), "was ok: {:?}", path);
        put(header.as_gnu_mut().unwrap().name, path.as_bytes());
        header.set_size(1);
        header.set_cksum();
        a.append(&header, &[1]).unwrap();
    };
    append("/tmp/abs_evil.txt");
    append("//tmp/abs_evil2.txt");
    append("///tmp/abs_evil3.txt");
    append("/./tmp/abs_evil4.txt");
    append("//./tmp/abs_evil5.txt");
    append("///./tmp/abs_evil6.txt");
    append("/../tmp/rel_evil.txt");
    append("../rel_evil2.txt");
    append("./../rel_evil3.txt");
    append("some/../../rel_evil4.txt");
    append("");
    append("././//./");
    append(".");

    let mut ar = Archive::new(a.into_inner().unwrap());
    let run = ar.unpack(b"/td");
    assert!(run.end.is_ok());
    let tree = Tree::of(&run);

    assert!(!tree.holds("/tmp/abs_evil.txt"));
    assert!(!tree.holds("/tmp/abs_evil.txt2"));
    assert!(!tree.holds("/tmp/abs_evil.txt3"));
    assert!(!tree.holds("/tmp/abs_evil.txt4"));
    assert!(!tree.holds("/tmp/abs_evil.txt5"));
    assert!(!tree.holds("/tmp/abs_evil.txt6"));
    assert!(!tree.holds("/tmp/rel_evil.txt"));
    assert!(!tree.holds("/td/../tmp/rel_evil.txt"));
    assert!(!tree.holds("/td/../rel_evil2.txt"));
    assert!(!tree.holds("/td/../rel_evil3.txt"));
    assert!(!tree.holds("/td/../rel_evil4.txt"));
    assert!(!tree.holds("/rel_evil2.txt"));

    // The `some` subdirectory should not be created because the only
    // filename that references this has '..'.
    assert!(!tree.holds("/td/some"));

    // The `tmp` subdirectory should be created and within this
    // subdirectory, there should be files named `abs_evil.txt` through
    // `abs_evil6.txt`.
    assert!(tree.is_dir("/td/tmp"));
    assert!(tree.is_file("/td/tmp/abs_evil.txt"));
    assert!(tree.is_file("/td/tmp/abs_evil2.txt"));
    assert!(tree.is_file("/td/tmp/abs_evil3.txt"));
    assert!(tree.is_file("/td/tmp/abs_evil4.txt"));
    assert!(tree.is_file("/td/tmp/abs_evil5.txt"));
    assert!(tree.is_file("/td/tmp/abs_evil6.txt"));
}

#[test]
fn extracting_malformed_tar_null_blocks() {
    let mut ar = Builder::new(Vec::new());
    ar.append_file(b"tmpfile1", &file_meta(0), b"").unwrap();
    let mut data = ar.into_inner().unwrap();
    let amt = data.len();
    data.truncate(amt - 512);
    let mut ar = Builder::new(data);
    ar.append_file(b"tmpfile2", &file_meta(0), b"").unwrap();
    ar.finish().unwrap();

    let data = ar.into_inner().unwrap();
    let mut ar = Archive::new(data);
    assert!(ar.unpack(b"/td").end.is_err());
}

#[test]
fn nul_bytes_in_path() {
    let mut ar = Builder::new(Vec::new());
    let err = ar.append_dir(b"foo\0", &dir_meta()).unwrap_err();
    assert!(err.message().contains("contains a nul byte"));
}

#[test]
fn long_name_trailing_nul() {
    let mut b = Builder::new(Vec::<u8>::new());

    let mut h = Header::new_gnu();
    h.set_path(b"././@LongLink").unwrap();
    h.set_size(4);
    h.set_entry_type(EntryType::new(b'L'));
    h.set_cksum();
    b.append(&h, "foo\0".as_bytes()).unwrap();
    let mut h = Header::new_gnu();

    h.set_path(b"bar").unwrap();
    h.set_size(6);
    h.set_entry_type(EntryType::file());
    h.set_cksum();
    b.append(&h, "foobar".as_bytes()).unwrap();

    let contents = b.into_inner().unwrap();
    let mut a = Archive::new(contents);

    let e = a.entries().unwrap().next().unwrap().unwrap();
    assert_eq!(e.path_bytes(), b"foo".to_vec());
}

#[test]
fn long_linkname_trailing_nul() {
    let mut b = Builder::new(Vec::<u8>::new());

    let mut h = Header::new_gnu();
    h.set_path(b"././@LongLink").unwrap();
    h.set_size(4);
    h.set_entry_type(EntryType::new(b'K'));
    h.set_cksum();
    b.append(&h, "foo\0".as_bytes()).unwrap();
    let mut h = Header::new_gnu();

    h.set_path(b"bar").unwrap();
    h.set_size(6);
    h.set_entry_type(EntryType::file());
    h.set_cksum();
    b.append(&h, "foobar".as_bytes()).unwrap();

    let contents = b.into_inner().unwrap();
    let mut a = Archive::new(contents);

    let e = a.entries().unwrap().next().unwrap().unwrap();
    assert_eq!(e.link_name_bytes().unwrap(), b"foo".to_vec());
}

#[test]
fn encoded_long_name_has_trailing_nul() {
    let mut b = Builder::new(Vec::<u8>::new());
    let long = "abcd".repeat(200);

    b.append_file(long.as_bytes(), &file_meta(4), b"test").unwrap();

    let contents = b.into_inner().unwrap();
    let mut a = Archive::new(contents);

    let mut e = a.entries().unwrap().raw(true).next().unwrap().unwrap();
    let name = e.read_all().unwrap();
    assert_eq!(name[name.len() - 1], 0);

    let header_name = e.header().as_gnu().unwrap().name;
    assert!(header_name.starts_with(b"././@LongLink\x00"));
}

/// An archive with two files, as `tar` writes it.
fn two_files() -> Vec<u8> {
    let mut ar = Builder::new(Vec::new());
    for name in ["a", "b"] {
        let mut h = Header::new_ustar();
        h.set_path(name.as_bytes()).unwrap();
        h.set_metadata(&file_meta(22));
        h.set_cksum();
        ar.append(&h, format!("{}\n", name).repeat(11).as_bytes()).unwrap();
    }
    ar.into_inner().unwrap()
}

#[test]
fn entries_in_order() {
    let mut ar = Archive::new(two_files());
    let mut entries = ar.entries().unwrap();

    let mut a = entries.next().unwrap().unwrap();
    assert_eq!(a.header().path_bytes(), b"a".to_vec());
    assert_eq!(read_to_string(&mut a), "a\n".repeat(11));
    assert_eq!(read_to_string(&mut a), "");

    let mut b = entries.next().unwrap().unwrap();
    assert_eq!(b.header().path_bytes(), b"b".to_vec());
    assert_eq!(read_to_string(&mut b), "b\n".repeat(11));

    assert!(entries.next().is_none());
    assert!(entries.next().is_none());
}

#[test]
fn seeking_gives_the_same_entries() {
    let mut ar = Archive::new(two_files());
    let mut entries = ar.entries_with_seek().unwrap();
    let a = entries.next().unwrap().unwrap();
    assert_eq!(a.path(), Ok(b"a".to_vec()));
    let b = entries.next().unwrap().unwrap();
    assert_eq!(b.path(), Ok(b"b".to_vec()));
    assert!(entries.next().is_none());
}

#[test]
fn small_buffers_read_all() {
    let mut ar = Archive::new(two_files());
    let mut entries = ar.entries().unwrap();
    let mut a = entries.next().unwrap().unwrap();
    let mut got = Vec::new();
    let mut buf = [0u8; 5];
    loop {
        let n = a.read(&mut buf).unwrap();
        if n == 0 {
            break;
        }
        got.extend_from_slice(&buf[..n]);
    }
    assert_eq!(got, "a\n".repeat(11).into_bytes());
}

#[test]
fn archives_are_read_once() {
    let mut ar = Archive::new(two_files());
    {
        let mut entries = ar.entries().unwrap();
        entries.next().unwrap().unwrap();
    }
    assert!(matches!(ar.entries(), Err(TarError::NotAtStart)));
    assert_eq!(ar.unpack(b"/td").end, Err(TarError::NotAtStart));
}

#[test]
fn archives_are_whole_blocks() {
    let data = two_files();
    assert_eq!(data.len(), 4 * 512 + 1024);
    assert!(data[4 * 512..].iter().all(|b| *b == 0));
}

#[test]
fn a_wrong_checksum_is_refused() {
    let mut data = two_files();
    data[0] = b'c';
    let mut ar = Archive::new(data);
    let mut entries = ar.entries().unwrap();
    assert!(entries.next().unwrap().is_err());
    assert!(entries.next().is_none());

    let mut data = two_files();
    data[0] = b'c';
    let mut ar = Archive::new(data);
    let mut entries = ar.entries().unwrap().raw(true);
    assert!(matches!(entries.next(), Some(Err(TarError::ChecksumMismatch))));
}

#[test]
fn cut_off_archives_are_refused() {
    let mut data = two_files();
    data.truncate(512 + 10);
    let mut ar = Archive::new(data);
    let mut entries = ar.entries().unwrap();
    assert!(entries.next().unwrap().is_ok());
    assert!(matches!(entries.next(), Some(Err(TarError::EofInSkip))));

    let mut data = two_files();
    data.truncate(100);
    let mut ar = Archive::new(data);
    let mut entries = ar.entries().unwrap();
    assert!(matches!(entries.next(), Some(Err(TarError::EofInBlock))));

    let mut data = two_files();
    data.truncate(512 + 10);
    assert_eq!(Archive::new(data).unpack(b"/td").end, Err(TarError::ShortWrite));
}

#[test]
fn an_archive_without_end_ends() {
    let mut data = two_files();
    data.truncate(4 * 512);
    let mut ar = Archive::new(data);
    let mut entries = ar.entries().unwrap();
    assert!(entries.next().unwrap().is_ok());
    assert!(entries.next().unwrap().is_ok());
    assert!(entries.next().is_none());
}

#[test]
fn lone_zero_block() {
    let mut data = two_files();
    let end = data.len() - 512;
    data.truncate(end);
    data.extend_from_slice(&two_files());
    let mut ar = Archive::new(data.clone());
    let mut entries = ar.entries().unwrap();
    assert!(entries.next().unwrap().is_ok());
    assert!(entries.next().unwrap().is_ok());
    assert!(matches!(entries.next(), Some(Err(TarError::LoneZeroBlock))));
}

#[test]
fn zeros_are_passed_over_if_asked() {
    let mut data = two_files();
    data.extend_from_slice(&two_files());
    let mut ar = Archive::new(data.clone());
    let mut entries = ar.entries().unwrap();
    assert!(entries.next().unwrap().is_ok());
    assert!(entries.next().unwrap().is_ok());
    assert!(entries.next().is_none());

    let mut ar = Archive::new(data);
    ar.set_ignore_zeros(true);
    let mut entries = ar.entries().unwrap();
    let mut n = 0;
    while let Some(entry) = entries.next() {
        assert!(entry.is_ok());
        n += 1;
    }
    assert_eq!(n, 4);
}

#[test]
fn pax_extensions_of_an_entry() {
    let mut ar = Builder::new(Vec::new());
    let list: Vec<(&str, &[u8])> =
        vec![("mtime", b"1453146164.953123768"), ("atime", b"1453251915.24892486")];
    ar.append_pax_extensions(&list).unwrap();
    ar.append_file(b"a", &file_meta(1), b"x").unwrap();
    let data = ar.into_inner().unwrap();
    assert_eq!(&data[512..512 + 9], b"30 mtime=");

    let mut ar = Archive::new(data.clone());
    let mut entries = ar.entries().unwrap();
    let mut first = entries.next().unwrap().unwrap();
    assert_eq!(first.path_bytes(), b"a".to_vec());
    let mut attributes = first.pax_extensions().unwrap().unwrap();
    let one = attributes.next().unwrap().unwrap();
    let two = attributes.next().unwrap().unwrap();
    assert!(attributes.next().is_none());
    assert_eq!(one.key(), Ok("mtime"));
    assert_eq!(one.value(), Ok("1453146164.953123768"));
    assert_eq!(two.key_bytes(), b"atime");
    assert_eq!(two.value_bytes(), b"1453251915.24892486");

    // A raw entry is the list itself.
    let mut ar = Archive::new(data);
    let mut entries = ar.entries().unwrap().raw(true);
    let mut first = entries.next().unwrap().unwrap();
    assert_eq!(first.header().entry_type(), EntryType::XHeader);
    let mut attributes = first.pax_extensions().unwrap().unwrap();
    assert_eq!(attributes.next().unwrap().unwrap().key(), Ok("mtime"));
    drop(attributes);
    let mut second = entries.next().unwrap().unwrap();
    assert!(second.pax_extensions().unwrap().is_none());
}

#[test]
fn a_long_path_in_pax_extensions() {
    let long = "d/".repeat(200) + "f";
    let mut ar = Builder::new(Vec::new());
    let list: Vec<(&str, &[u8])> = vec![("path", long.as_bytes())];
    ar.append_pax_extensions(&list).unwrap();
    ar.append_file(b"short", &file_meta(0), b"").unwrap();
    let mut ar = Archive::new(ar.into_inner().unwrap());
    let e = ar.entries().unwrap().next().unwrap().unwrap();
    assert_eq!(e.path_bytes(), long.into_bytes());
    assert_eq!(e.header().path_bytes(), b"short".to_vec());
}

#[test]
fn walked_directories() {
    let mut ar = Builder::new(Vec::new());
    let mut walk = ar.append_dir_all(b"/src");
    let root = walk.next().unwrap();
    assert!(root.is_dir);
    walk.found(&root, &vec![(b"f".to_vec(), false), (b"d".to_vec(), true)]);
    ar.append_walked(b"top", &root, &dir_meta(), b"").unwrap();
    let dir: DirStep = walk.next().unwrap();
    assert_eq!(dir.src, b"/src/d".to_vec());
    assert_eq!(dir.below, b"d".to_vec());
    walk.found(&dir, &vec![(b"g".to_vec(), false)]);
    ar.append_walked(b"top", &dir, &dir_meta(), b"").unwrap();
    let file = walk.next().unwrap();
    assert_eq!(file.src, b"/src/d/g".to_vec());
    ar.append_walked(b"top", &file, &file_meta(2), b"hi").unwrap();
    let file = walk.next().unwrap();
    assert_eq!(file.src, b"/src/f".to_vec());
    ar.append_walked(b"top", &file, &file_meta(0), b"").unwrap();
    assert!(walk.next().is_none());

    let mut ar = Archive::new(ar.into_inner().unwrap());
    let mut entries = ar.entries().unwrap();
    let mut names = Vec::new();
    while let Some(e) = entries.next() {
        names.push(String::from_utf8(e.unwrap().path_bytes()).unwrap());
    }
    assert_eq!(names, ["top/", "top/d", "top/d/g", "top/f"]);
}

#[test]
fn a_walk_into_nowhere_leaves_out_the_root() {
    let mut ar = Builder::new(Vec::new());
    let mut walk = ar.append_dir_all(b"/src");
    let root = walk.next().unwrap();
    ar.append_walked(b"", &root, &dir_meta(), b"").unwrap();
    assert_eq!(ar.into_inner().unwrap(), vec![0; 1024]);
}

#[test]
fn special_files_are_not_appended() {
    let mut ar = Builder::new(Vec::new());
    let fifo = Metadata { mode: 0o010644, uid: 0, gid: 0, mtime: 0, len: 0, rdev: 0 };
    assert_eq!(ar.append_path(b"p", &fifo, b""), Err(TarError::UnknownFileType));
    ar.append_path(b"d", &dir_meta(), b"ignored").unwrap();
    ar.append_path(b"f", &file_meta(1), b"x").unwrap();
    assert_eq!(ar.into_inner().unwrap().len(), 512 + 1024 + 1024);
}

#[test]
fn deterministic_headers() {
    let mut ar = Builder::new(Vec::new());
    ar.mode(HeaderMode::Deterministic);
    ar.append_file(b"f", &file_meta(0), b"").unwrap();
    let mut ar = Archive::new(ar.into_inner().unwrap());
    let e = ar.entries().unwrap().next().unwrap().unwrap();
    assert_eq!(e.header().uid(), Ok(0));
    assert_eq!(e.header().mtime(), Ok(0));
    assert_eq!(e.header().mode(), Ok(0o644));
}

#[test]
fn finishing_twice_writes_one_end() {
    let mut ar = Builder::new(Vec::new());
    ar.finish().unwrap();
    ar.finish().unwrap();
    assert_eq!(ar.into_inner().unwrap().len(), 1024);
}

#[test]
fn data_with_a_path() {
    let mut ar = Builder::new(Vec::new());
    let mut h = Header::new_gnu();
    h.set_size(3);
    ar.append_data(&mut h, b"x/y", b"abc").unwrap();
    assert_eq!(ar.append_data(&mut h, b"/abs", b"abc"), Err(TarError::PathNotRelative));
    let mut ar = Archive::new(ar.into_inner().unwrap());
    let mut entries = ar.entries().unwrap();
    let mut e = entries.next().unwrap().unwrap();
    assert_eq!(e.path_bytes(), b"x/y".to_vec());
    assert_eq!(read_to_string(&mut e), "abc");
    assert!(entries.next().is_none());
}

/// An archive with a sparse file of 2048 bytes, of which a block in the middle is stored.
fn sparse_archive() -> Vec<u8> {
    let mut h = Header::new_gnu();
    h.set_path(b"sparse").unwrap();
    h.set_entry_type(EntryType::new(b'S'));
    h.set_size(512);
    {
        let gnu = h.as_gnu_mut().unwrap();
        put(gnu.realsize, b"00000004000\0");
    }
    let bytes = h.as_mut_bytes();
    bytes[386..398].copy_from_slice(b"00000001000\0");
    bytes[398..410].copy_from_slice(b"00000001000\0");
    bytes[410..422].copy_from_slice(b"00000004000\0");
    bytes[422..434].copy_from_slice(b"00000000000\0");
    h.set_cksum();
    let mut ar = Builder::new(Vec::new());
    ar.append(&h, &[7; 512]).unwrap();
    ar.into_inner().unwrap()
}

#[test]
fn sparse_files_have_holes() {
    let mut ar = Archive::new(sparse_archive());
    let mut entries = ar.entries().unwrap();
    let mut e = entries.next().unwrap().unwrap();
    assert_eq!(e.header().size(), Ok(2048));
    assert_eq!(e.header().entry_size(), Ok(512));
    let all = e.read_all().unwrap();
    assert_eq!(all.len(), 2048);
    assert!(all[..512].iter().all(|b| *b == 0));
    assert!(all[512..1024].iter().all(|b| *b == 7));
    assert!(all[1024..].iter().all(|b| *b == 0));
    assert!(entries.next().is_none());
}

/// A long path of 1536 bytes, and a header of pax extensions that states `size` bytes.
fn two_records(size: u64) -> Vec<u8> {
    let mut name = Header::new_gnu();
    name.set_entry_type(EntryType::GNULongName);
    name.set_size(1536);
    name.set_cksum();
    let mut pax = Header::new_gnu();
    pax.set_entry_type(EntryType::XHeader);
    put(&mut pax.as_mut_bytes()[124..136], &[0x80, 0, 0, 0]);
    put(&mut pax.as_mut_bytes()[128..136], &size.to_be_bytes());
    pax.set_cksum();
    let mut bytes = name.as_bytes().to_vec();
    bytes.resize(512 + 1536, b'a');
    bytes.extend_from_slice(pax.as_bytes());
    bytes
}

fn first_error(bytes: Vec<u8>) -> TarError {
    let mut ar = Archive::new(bytes);
    let r = ar.entries().unwrap().next().unwrap().err().unwrap();
    r
}

#[test]
fn sizes_of_records_must_add_up() {
    assert_eq!(first_error(two_records(u64::MAX - 1023)), TarError::SizeOverflow);
    assert_eq!(first_error(two_records(u64::MAX)), TarError::SizeOverflow);
    assert!(matches!(first_error(two_records(1 << 30)), TarError::Parse(_)));
    assert!(matches!(first_error(two_records(u64::MAX - 2047)), TarError::Parse(_)));
}

#[test]
fn pax_extensions_take_the_place_of_fields() {
    let mut header = Header::new_gnu();
    header.set_path(b"short").unwrap();
    header.set_link_name(b"there").unwrap();
    header.set_entry_type(EntryType::Regular);
    header.set_size(7);
    header.set_uid(1);
    header.set_gid(2);
    header.set_cksum();
    let mut ar = Builder::new(Vec::new());
    let list: Vec<(&str, &[u8])> = vec![
        ("uid", b"11"),
        ("uid", b"12"),
        ("gid", b"+13"),
        ("size", b"3"),
        ("path", b"first"),
        ("path", b"last"),
        ("linkpath", b"elsewhere"),
        ("SCHILY.xattr.user.a", b"b=c"),
    ];
    ar.append_pax_extensions(&list).unwrap();
    ar.append(&header, b"abc").unwrap();
    ar.append_file(b"next", &file_meta(1), b"x").unwrap();

    let mut ar = Archive::new(ar.into_inner().unwrap());
    let mut entries = ar.entries().unwrap();
    let mut e = entries.next().unwrap().unwrap();
    assert_eq!(e.path_bytes(), b"last".to_vec());
    assert_eq!(e.link_name_bytes(), Some(b"elsewhere".to_vec()));
    assert_eq!(e.header().uid(), Ok(12));
    assert_eq!(e.header().gid(), Ok(13));
    assert_eq!(read_to_string(&mut e), "abc");
    let mut extensions = e.pax_extensions().unwrap().unwrap();
    for (key, value) in &list {
        let one = extensions.next().unwrap().unwrap();
        assert_eq!(one.key(), Ok(*key));
        assert_eq!(one.value_bytes(), *value);
    }
    assert!(extensions.next().is_none());
    drop(extensions);
    let next = entries.next().unwrap().unwrap();
    assert_eq!(next.path_bytes(), b"next".to_vec());
    assert!(entries.next().is_none());

    let mut ar = Builder::new(Vec::new());
    let list: Vec<(&str, &[u8])> = vec![("uid", b"nobody")];
    ar.append_pax_extensions(&list).unwrap();
    ar.append_file(b"a", &file_meta(1), b"x").unwrap();
    assert!(matches!(first_error(ar.into_inner().unwrap()), TarError::Parse(_)));
}

#[test]
fn a_long_path_of_a_whole_block() {
    let long = "a".repeat(512);
    let mut dst = Vec::new();
    let mut header = Header::new_gnu();
    prepare_header(&mut dst, &mut header, long.as_bytes()).unwrap();
    assert_eq!(dst.len(), 1536);
    assert_eq!(&dst[..14], b"././@LongLink\0");
    assert_eq!(dst[156], b'L');
    assert_eq!(&dst[124..136], b"00000001001\0");
    assert_eq!(&dst[512..1024], long.as_bytes());
    assert_eq!(&dst[1024..], &[0; 512]);
    assert_eq!(header.path_bytes(), "a".repeat(100).into_bytes());

    let mut ar = Builder::new(Vec::new());
    ar.append_file(long.as_bytes(), &file_meta(3), b"abc").unwrap();
    ar.append_file(b"next", &file_meta(1), b"x").unwrap();
    let mut ar = Archive::new(ar.into_inner().unwrap());
    let mut entries = ar.entries().unwrap();
    let mut e = entries.next().unwrap().unwrap();
    assert_eq!(e.path_bytes(), long.into_bytes());
    assert_eq!(read_to_string(&mut e), "abc");
    assert_eq!(entries.next().unwrap().unwrap().path_bytes(), b"next".to_vec());
    assert!(entries.next().is_none());
}

#[test]
fn records_of_all_kinds_in_front_of_an_entry() {
    let name = "n".repeat(130);
    let link = "l".repeat(140);
    let mut h = Header::new_gnu();
    h.set_entry_type(EntryType::Symlink);
    h.set_size(0);
    let mut bytes = Vec::new();
    let k = prepare_header_link(&mut h, link.as_bytes()).unwrap().unwrap();
    let l = prepare_header_path(&mut h, name.as_bytes()).unwrap().unwrap();
    h.set_cksum();
    let mut ar = Builder::new(Vec::new());
    let list: Vec<(&str, &[u8])> = vec![("comment", b"c")];
    ar.append_pax_extensions(&list).unwrap();
    bytes.extend_from_slice(&k);
    bytes.extend_from_slice(&ar.into_inner().unwrap()[..1024]);
    bytes.extend_from_slice(&l);
    bytes.extend_from_slice(h.as_bytes());
    let mut ar = Archive::new(bytes);
    let mut entries = ar.entries().unwrap();
    let mut e = entries.next().unwrap().unwrap();
    assert_eq!(e.path_bytes(), name.into_bytes());
    assert_eq!(e.link_name_bytes(), Some(link.into_bytes()));
    let mut extensions = e.pax_extensions().unwrap().unwrap();
    assert_eq!(extensions.next().unwrap().unwrap().key(), Ok("comment"));
    assert!(entries.next().is_none());
}

#[test]
fn asking_for_extensions_reads_no_file() {
    let mut ar = Builder::new(Vec::new());
    ar.append_file(b"a", &file_meta(3), b"abc").unwrap();
    let mut ar = Archive::new(ar.into_inner().unwrap());
    let mut e = ar.entries().unwrap().next().unwrap().unwrap();
    assert!(e.pax_extensions().unwrap().is_none());
    assert_eq!(read_to_string(&mut e), "abc");

    let mut ar = Builder::new(Vec::new());
    let list: Vec<(&str, &[u8])> = vec![("k", b"v")];
    ar.append_pax_extensions(&list).unwrap();
    let mut ar = Archive::new(ar.into_inner().unwrap());
    let mut e = ar.entries().unwrap().raw(true).next().unwrap().unwrap();
    for _ in 0..2 {
        let mut extensions = e.pax_extensions().unwrap().unwrap();
        assert_eq!(extensions.next().unwrap().unwrap().value(), Ok("v"));
        assert!(extensions.next().is_none());
    }
    assert_eq!(read_to_string(&mut e), "");
}

#[test]
fn raw_entries_follow_one_another() {
    let mut ar = Builder::new(Vec::new());
    ar.append_file("p/".repeat(100).as_bytes(), &file_meta(700), &[1; 700]).unwrap();
    let mut ar = Archive::new(ar.into_inner().unwrap());
    let mut entries = ar.entries().unwrap().raw(true);
    let mut first = entries.next().unwrap().unwrap();
    first.read(&mut [0; 7]).unwrap();
    let second = entries.next().unwrap().unwrap();
    assert_eq!(first.fields.header_pos, 0);
    assert_eq!(first.fields.file_pos, 512);
    assert_eq!(second.fields.header_pos, 1024);
    assert_eq!(second.fields.file_pos, 1536);
    assert!(entries.next().is_none());
}
