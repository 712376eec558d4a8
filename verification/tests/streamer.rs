//! Streamed archives.

use tar::stream_append::{prepare_header_link, prepare_header_path};
use tar::{
    Archive, Builder, EntryType, FileBody, Fill, Header, HeaderMode, Metadata, StreamData, Streamer,
    TarError,
};

fn file_meta(len: u64) -> Metadata {
    Metadata { mode: 0o100644, uid: 1, gid: 2, mtime: 3, len, rdev: 0 }
}

fn data_header(path: &str, len: u64) -> Header {
    let mut h = Header::new_gnu();
    h.set_path(path.as_bytes()).unwrap();
    h.set_metadata(&file_meta(len));
    h.set_cksum();
    h
}

fn body(path: &str, is_link: bool, data: &[u8]) -> FileBody {
    FileBody { path: path.as_bytes().to_vec(), is_link, data: data.to_vec() }
}

fn drain(s: &mut Streamer, size: usize, files: &Vec<FileBody>) -> Vec<u8> {
    let mut all = Vec::new();
    let mut buf = vec![0xee; size];
    loop {
        let n = s.read(&mut buf, files).unwrap();
        all.extend_from_slice(&buf[..n]);
        if n < size {
            return all;
        }
    }
}

#[test]
fn an_empty_stream_is_an_end() {
    let mut s = Streamer::new();
    assert_eq!(drain(&mut s, 100, &vec![]), vec![0; 1024]);
    assert_eq!(s.read(&mut [1; 4], &vec![]), Ok(0));
}

#[test]
fn streams_are_what_builders_write() {
    let mut b = Builder::new(Vec::new());
    b.append(&data_header("a", 5), b"hello").unwrap();
    b.append(&data_header("b", 512), &[9; 512]).unwrap();
    b.append(&data_header("c", 0), b"").unwrap();
    let built = b.into_inner().unwrap();
    for size in [1, 7, 511, 512, 513, 4096, 10000] {
        let mut s = Streamer::new();
        s.append(&data_header("a", 5), b"hello".to_vec());
        s.append_stream_data(StreamData::new(&data_header("b", 512), vec![9; 512]));
        s.append(&data_header("c", 0), Vec::new());
        assert_eq!(drain(&mut s, size, &vec![]), built);
    }
}

#[test]
fn files_are_read_when_they_are_streamed() {
    let files = vec![body("/f", false, &[5; 700]), body("/l", true, b"target")];
    for size in [3, 512, 5000] {
        let mut s = Streamer::new();
        s.append_path_with_name(b"/f", b"f", &file_meta(700), b"").unwrap();
        s.append_path_with_name(b"/l", b"l", &file_meta(6), b"").unwrap();
        s.append_path_with_name(b"/none", b"none", &file_meta(0), b"").unwrap();
        let data = drain(&mut s, size, &files);
        assert_eq!(data.len(), 512 + 1024 + 512 + 512 + 512 + 1024);
        let mut ar = Archive::new(data);
        let mut entries = ar.entries().unwrap();
        let mut f = entries.next().unwrap().unwrap();
        assert_eq!(f.path_bytes(), b"f".to_vec());
        assert_eq!(f.read_all().unwrap(), vec![5; 700]);
        let mut l = entries.next().unwrap().unwrap();
        assert_eq!(l.read_all().unwrap(), b"target".to_vec());
        assert_eq!(entries.next().unwrap().unwrap().path_bytes(), b"none".to_vec());
        assert!(entries.next().is_none());
    }
}

#[test]
fn links_are_streamed_as_links_if_not_followed() {
    let link = Metadata { mode: 0o120777, uid: 1, gid: 2, mtime: 3, len: 0, rdev: 0 };
    let mut s = Streamer::new();
    s.follow_symlinks(false);
    s.mode(HeaderMode::Deterministic);
    s.append_path_with_name(b"/l", b"l", &link, b"where/to").unwrap();
    let data = drain(&mut s, 512, &vec![body("/l", true, b"target")]);
    assert_eq!(data.len(), 512 + 1024);
    let mut ar = Archive::new(data);
    let e = ar.entries().unwrap().next().unwrap().unwrap();
    assert_eq!(e.header().entry_type(), EntryType::Symlink);
    assert_eq!(e.link_name_bytes(), Some(b"where/to".to_vec()));
    assert_eq!(e.header().uid(), Ok(0));
}

#[test]
fn files_are_asked_for() {
    let mut s = Streamer::new();
    s.append_path_with_name(b"/f", b"f", &file_meta(2), b"").unwrap();
    let mut buf = [0xee; 1100];
    match s.fill(&mut buf, 0) {
        Fill::Fetch { path, follow, offset, at } => {
            assert_eq!(path, b"/f".to_vec());
            assert!(follow);
            assert_eq!(offset, 0);
            assert_eq!(at, 512);
        }
        Fill::Filled(_) => panic!("a file must be read"),
    }
    buf[512] = b'h';
    s.fetched(1);
    match s.fill(&mut buf, 513) {
        Fill::Fetch { offset, at, .. } => {
            assert_eq!(offset, 1);
            assert_eq!(at, 513);
        }
        Fill::Filled(_) => panic!("a file must be read"),
    }
    buf[513] = b'i';
    s.fetched(1);
    assert!(matches!(s.fill(&mut buf, 514), Fill::Fetch { offset: 2, at: 514, .. }));
    s.fetched(0);
    assert!(matches!(s.fill(&mut buf, 514), Fill::Filled(1100)));
    assert_eq!(&buf[512..515], b"hi\0");
    assert_eq!(&buf[1024..], &[0; 76]);
    assert!(matches!(s.fill(&mut buf, 0), Fill::Filled(948)));
}

#[test]
fn what_is_no_file_has_no_bytes() {
    let mut s = Streamer::new();
    s.append_dir(b"d", b"/d", &Metadata { mode: 0o040755, uid: 0, gid: 0, mtime: 0, len: 1, rdev: 0 }, b"")
        .unwrap();
    let mut buf = [0xee; 2000];
    assert!(matches!(s.fill(&mut buf, 0), Fill::Fetch { at: 512, .. }));
    s.not_a_file();
    assert!(matches!(s.fill(&mut buf, 512), Fill::Filled(1536)));
}

#[test]
fn long_paths_have_records() {
    let mut s = Streamer::new();
    let long = "x".repeat(150);
    let mut h = Header::new_gnu();
    s.append_data(&mut h, long.as_bytes(), b"data".to_vec()).unwrap();
    let data = drain(&mut s, 4096, &vec![]);
    assert_eq!(data[156], b'L');
    assert_eq!(&data[124..136], b"00000000227\0");
    assert_eq!(&data[512..662], long.as_bytes());
    assert_eq!(&data[662..1024], &[0; 362]);
    assert_eq!(&data[1024..1124], "x".repeat(100).as_bytes());
    assert_eq!(h.path_bytes(), "x".repeat(100).into_bytes());
}

#[test]
fn the_start_of_a_long_path_is_text() {
    let mut s = Streamer::new();
    let long = "y".repeat(99) + &"\u{e4}".repeat(30);
    let mut h = Header::new_gnu();
    s.append_data(&mut h, long.as_bytes(), Vec::new()).unwrap();
    assert_eq!(h.path_bytes(), "y".repeat(99).into_bytes());
}

#[test]
fn linked_paths() {
    let mut s = Streamer::new();
    let mut h = Header::new_gnu();
    h.set_entry_type(EntryType::Symlink);
    s.append_link(&mut h, b"l", b"t").unwrap();
    assert_eq!(s.append_link(&mut h, b"", b"t"), Err(TarError::PathEmpty));
    assert_eq!(s.append_link(&mut h, b"l", b"a\0"), Err(TarError::ValueHasNul));
    let long = "z".repeat(120);
    s.append_link(&mut h, b"l", long.as_bytes()).unwrap();
    let data = drain(&mut s, 100, &vec![]);
    assert_eq!(data.len(), 512 + 512 + 512 + 512 + 1024);
    assert_eq!(data[512 + 156], b'K');
    assert_eq!(&data[157..158], b"t");
}

#[test]
fn devices_have_numbers() {
    let mut s = Streamer::new();
    let tty = Metadata { mode: 0o020620, uid: 0, gid: 5, mtime: 0, len: 0, rdev: 0x0501 };
    s.append_special(b"tty", &tty).unwrap();
    let disk = Metadata { mode: 0o060660, rdev: 0x0000_1000_0010_0812, ..tty };
    s.append_special(b"disk", &disk).unwrap();
    let pipe = Metadata { mode: 0o010600, rdev: 0, ..tty };
    s.append_special(b"pipe", &pipe).unwrap();
    let socket = Metadata { mode: 0o140600, ..tty };
    assert_eq!(s.append_special(b"socket", &socket), Err(TarError::Socket));
    assert_eq!(s.append_special(b"file", &file_meta(0)), Err(TarError::UnknownFileType));

    let mut ar = Archive::new(drain(&mut s, 512, &vec![]));
    let mut entries = ar.entries().unwrap();
    let e = entries.next().unwrap().unwrap();
    assert_eq!(e.header().entry_type(), EntryType::Char);
    assert_eq!(e.header().device_major(), Ok(Some(5)));
    assert_eq!(e.header().device_minor(), Ok(Some(1)));
    let e = entries.next().unwrap().unwrap();
    assert_eq!(e.header().entry_type(), EntryType::Block);
    assert_eq!(e.header().device_major(), Ok(Some(0x1008)));
    assert_eq!(e.header().device_minor(), Ok(Some(0x112)));
    let e = entries.next().unwrap().unwrap();
    assert_eq!(e.header().entry_type(), EntryType::Fifo);
    assert!(entries.next().is_none());
}

#[test]
fn streamed_directories() {
    let dir = Metadata { mode: 0o040755, uid: 0, gid: 0, mtime: 0, len: 0, rdev: 0 };
    let mut s = Streamer::new();
    let mut walk = s.append_dir_all(b"src");
    let root = walk.next().unwrap();
    assert!(s.descends(&root, false));
    walk.found(
        &root,
        &vec![
            (b"f".to_vec(), false, false),
            (b"l".to_vec(), false, true),
            (b"p".to_vec(), false, false),
        ],
    );
    s.append_walked(b"dst", &root, true, false, &dir, b"").unwrap();
    let pipe = walk.next().unwrap();
    assert!(!s.descends(&pipe, true));
    let fifo = Metadata { mode: 0o010600, ..dir };
    s.append_walked(b"dst", &pipe, false, false, &fifo, b"").unwrap();
    let link = walk.next().unwrap();
    assert!(s.descends(&link, true));
    assert!(!s.descends(&link, false));
    let file = walk.next().unwrap();
    s.append_walked(b"dst", &file, false, true, &file_meta(2), b"").unwrap();
    assert!(walk.next().is_none());
    s.follow_symlinks(false);
    assert!(!s.descends(&link, true));

    let mut ar = Archive::new(drain(&mut s, 999, &vec![body("dst/f", false, b"hi")]));
    let mut entries = ar.entries().unwrap();
    let mut names = Vec::new();
    while let Some(e) = entries.next() {
        names.push(String::from_utf8(e.unwrap().path_bytes()).unwrap());
    }
    assert_eq!(names, ["src", "dst/p", "src/f"]);
}

#[test]
fn headers_stand_at_whole_blocks() {
    let mut s = Streamer::new();
    let mut h = Header::new_gnu();
    h.set_size(1);
    s.append_data(&mut h, "a".repeat(150).as_bytes(), b"x".to_vec()).unwrap();
    let data = drain(&mut s, 4096, &vec![]);
    assert_eq!(data.len(), 3072);
    assert_eq!(data[156], b'L');
    assert_eq!(&data[512..662], "a".repeat(150).as_bytes());
    assert_eq!(&data[662..1024], &[0; 362]);
    assert_eq!(&data[1024..1536], &h.as_bytes()[..]);
    assert_eq!(data[1536], b'x');
}

#[test]
fn records_for_long_paths_and_links() {
    let long = "a".repeat(150);
    let mut h = Header::new_gnu();
    let v = prepare_header_path(&mut h, long.as_bytes()).unwrap().unwrap();
    assert_eq!(v.len(), 1024);
    assert_eq!(&v[..14], b"././@LongLink\0");
    assert_eq!(&v[124..136], b"00000000227\0");
    assert!(EntryType::new(v[156]).is_gnu_longname());
    assert_eq!(&v[512..662], long.as_bytes());
    assert_eq!(v[662], 0);
    assert_eq!(h.path_bytes(), "a".repeat(100).into_bytes());
    assert_eq!(prepare_header_path(&mut h, b"short"), Ok(None));

    let v = prepare_header_link(&mut h, long.as_bytes()).unwrap().unwrap();
    assert!(EntryType::new(v[156]).is_gnu_longlink());
    assert_eq!(&v[512..662], long.as_bytes());
    assert_eq!(prepare_header_link(&mut h, b"short"), Ok(None));
}

#[test]
fn streamed_entries_are_read_back() {
    let name = "n".repeat(511);
    let link = "l".repeat(120);
    let mut s = Streamer::new();
    let mut h = Header::new_gnu();
    h.set_entry_type(EntryType::Symlink);
    h.set_size(0);
    s.append_link(&mut h, name.as_bytes(), link.as_bytes()).unwrap();
    let mut h = Header::new_gnu();
    h.set_size(3);
    s.append_data(&mut h, link.as_bytes(), b"abc".to_vec()).unwrap();
    let mut ar = Archive::new(drain(&mut s, 1000, &vec![]));
    let mut entries = ar.entries().unwrap();
    let e = entries.next().unwrap().unwrap();
    assert_eq!(e.path_bytes(), name.into_bytes());
    assert_eq!(e.link_name_bytes(), Some(link.clone().into_bytes()));
    let mut e = entries.next().unwrap().unwrap();
    assert_eq!(e.path_bytes(), link.into_bytes());
    assert_eq!(e.link_name_bytes(), None);
    assert_eq!(e.read_all().unwrap(), b"abc".to_vec());
    assert!(entries.next().is_none());
}

#[test]
fn data_is_asked_for_by_keys() {
    let mut s = Streamer::new();
    s.append_keyed(data_header("a", 3).as_bytes().to_vec(), b"key".to_vec());
    let data = drain(&mut s, 100, &vec![body("key", false, b"abc")]);
    let mut ar = Archive::new(data);
    let mut e = ar.entries().unwrap().next().unwrap().unwrap();
    assert_eq!(e.read_all().unwrap(), b"abc".to_vec());
}
