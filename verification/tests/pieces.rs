//! The smaller parts of the library.

use tar::block_writer::{pad_archive, pad_block, HeaderBlockWriter, HeaderWriter, NeededHeaders, Pad};
use tar::gnu::GnuEntries;
use tar::machine::{build_sparse_io, fill_progress, skip_chunk, skip_progress, Progress};
use tar::number::{octal_from, octal_into, parse_numeral, trim};
use tar::path;
use tar::pax::{pax_extensions_value, push_record, PaxExtensions};
use tar::revdep;
use tar::revdep::{CloneAction, RevdepError};
use tar::tempdir::{leaf_name, TempDir, TempDirNames};
use tar::unpack::{check_copied, check_inside, set_perms, set_xattrs, target_in, Placement, UnpackPlan};
use tar::windows;
use tar::windows::WindowsMetadata;
use tar::{
    Action, Archive, Builder, EntriesFields, EntryIo, EntryType, Header, HeaderMode, Metadata,
    Options, Reader, TarError,
};

#[test]
fn sparse_readers_fill_holes() {
    let chunks = vec![(2, 3), (10, 0), (12, 2)];
    let mut r = Reader::new(EntryType::GNUSparse, b"abcdef", chunks, 16);
    let mut all = Vec::new();
    let mut buf = [0xee; 5];
    loop {
        let n = r.read(&mut buf).unwrap();
        all.extend_from_slice(&buf[..n]);
        if n == 0 {
            break;
        }
    }
    assert_eq!(all, b"\0\0abc\0\0\0\0\0\0\0de\0\0".to_vec());
}

#[test]
fn sparse_readers_stop_where_data_is_missing() {
    let mut r = Reader::new(EntryType::GNUSparse, b"ab", vec![(1, 3)], 8);
    let mut buf = [0xee; 8];
    assert_eq!(r.read(&mut buf), Ok(3));
    assert_eq!(&buf, b"\0ab\xee\xee\xee\xee\xee");
    assert_eq!(r.read(&mut buf), Ok(0));
}

#[test]
fn sparse_blocks_may_overlap() {
    let mut r = Reader::new(EntryType::GNUSparse, b"abcdef", vec![(1, 3), (2, 4), (6, 0)], 8);
    let mut buf = [0xee; 9];
    assert_eq!(r.read(&mut buf), Ok(8));
    assert_eq!(&buf, b"\0abcde\0\0\xee");
}

#[test]
fn plain_readers_are_limited() {
    let mut r = Reader::new(EntryType::Regular, b"abcdef", Vec::new(), 4);
    let mut buf = [0xee; 3];
    assert_eq!(r.read(&mut buf), Ok(3));
    assert_eq!(&buf, b"abc");
    assert_eq!(r.read(&mut buf), Ok(1));
    assert_eq!(&buf, b"dbc");
    assert_eq!(r.read(&mut buf), Ok(0));
}

fn longname_archive(followed: bool) -> Vec<u8> {
    let mut b = Builder::new(Vec::new());
    let mut h = Header::new_gnu();
    h.set_path(b"././@LongLink").unwrap();
    h.set_size(4);
    h.set_entry_type(EntryType::new(b'L'));
    h.set_cksum();
    b.append(&h, b"long").unwrap();
    if followed {
        for name in ["one", "two"] {
            let mut h = Header::new_gnu();
            h.set_path(name.as_bytes()).unwrap();
            h.set_size(3);
            h.set_entry_type(EntryType::file());
            h.set_cksum();
            b.append(&h, name.as_bytes()).unwrap();
        }
    }
    b.into_inner().unwrap()
}

#[test]
fn gnu_entries_have_long_names() {
    let mut ar = Archive::new(longname_archive(true));
    let mut entries = GnuEntries::new(ar.entries().unwrap().raw(true));
    let mut one = entries.next().unwrap().unwrap();
    assert_eq!(one.path_bytes(), b"long".to_vec());
    assert_eq!(one.header().path_bytes(), b"one".to_vec());
    let mut buf = [0; 8];
    assert_eq!(one.read(&mut buf), Ok(3));
    assert_eq!(&buf[..3], b"one");
    let mut two = entries.next().unwrap().unwrap();
    assert_eq!(two.path(), Ok(b"two".to_vec()));
    assert!(two.unpack(b"two").is_ok());
    assert!(entries.next().is_none());
}

#[test]
fn a_long_name_must_be_followed() {
    let mut ar = Archive::new(longname_archive(false));
    let mut entries = GnuEntries::new(ar.entries().unwrap().raw(true));
    assert!(matches!(entries.next(), Some(Err(TarError::LongnameNotFollowed))));
}

#[test]
fn headers_are_written_piece_by_piece() {
    let mut h = Header::new_gnu();
    h.set_size(7);
    let needed = NeededHeaders::new(h, b"short").unwrap();
    let mut w = HeaderWriter::new(needed);
    let mut out = Vec::new();
    loop {
        let n = w.pending().len().min(100);
        out.extend_from_slice(&w.pending()[..n]);
        if w.poll(n) {
            break;
        }
    }
    assert_eq!(out.len(), 512);
    assert_eq!(&out[..6], b"short\0");
    assert!(w.pending().is_empty());

    let long = [b'p'; 130];
    let needed = NeededHeaders::new(Header::new_gnu(), &long).unwrap();
    let mut w = HeaderWriter::new(needed);
    let mut out = Vec::new();
    loop {
        let n = w.pending().len().min(300);
        out.extend_from_slice(&w.pending()[..n]);
        if w.poll(n) {
            break;
        }
    }
    assert_eq!(out.len(), 1024);
    assert_eq!(&out[..13], b"././@LongLink");
    assert_eq!(out[156], b'L');
    assert_eq!(&out[124..136], b"00000000203\0");
    assert_eq!(&out[512..612], &[b'p'; 100]);

    assert!(matches!(
        NeededHeaders::new(Header::new_gnu(), b"a/../b"),
        Err(TarError::PathHasParent)
    ));

    let mut block = HeaderBlockWriter::new(Header::new_gnu());
    assert_eq!(block.pending(), Header::new_gnu().as_bytes());
    assert!(!block.poll(500));
    assert!(block.poll(12));
}

#[test]
fn padding_is_counted() {
    let mut p = pad_block(700);
    assert_eq!(p.remaining, 324);
    assert!(!p.poll(300));
    assert!(p.poll(24));
    assert_eq!(pad_block(1024).remaining, 512);
    assert_eq!(pad_archive().remaining, 512);
    assert_eq!(Pad::new(3).remaining, 3);
}

#[test]
fn temporary_names() {
    assert_eq!(leaf_name(b"pre", b"abc"), b"pre.abc".to_vec());
    assert_eq!(leaf_name(b"", b"abc"), b"abc".to_vec());
    let mut names = TempDirNames::new_in(b"/tmp", b"x");
    assert_eq!(names.next_with(b"abc"), Ok(b"/tmp/x.abc".to_vec()));
    let a = names.next().unwrap();
    assert!(a.starts_with(b"/tmp/x."));
    assert_eq!(a.len(), 7 + 12);
    assert!(a[7..].iter().all(|b| b.is_ascii_alphanumeric()));
    let b = names.next().unwrap();
    assert_ne!(a, b);
    names.left = 0;
    assert_eq!(names.next(), Err(TarError::TooManyTempDirs));
    assert_eq!(names.next_with(b"abc"), Err(TarError::TooManyTempDirs));

    let dir = TempDir { path: Some(b"/tmp/x.abc".to_vec()) };
    assert_eq!(dir.path(), b"/tmp/x.abc");
    assert_eq!(dir.cleanup_dir(), Some(&b"/tmp/x.abc"[..]));
    assert_eq!(TempDir { path: None }.cleanup_dir(), None);
}

#[test]
fn windows_headers() {
    let meta = WindowsMetadata {
        is_dir: false,
        is_file: true,
        is_symlink: false,
        last_write_time: (11644473600 + 1000) * 10_000_000 + 5,
        file_attributes: 1,
        len: 9,
    };
    let mut h = Header::new_gnu();
    h.set_windows_metadata(&meta, HeaderMode::Complete);
    assert_eq!(h.mtime(), Ok(1000));
    assert_eq!(h.mode(), Ok(0o444));
    assert_eq!(h.size(), Ok(9));
    assert_eq!(h.entry_type(), EntryType::Regular);
    h.set_windows_metadata(&meta, HeaderMode::Deterministic);
    assert_eq!(h.mtime(), Ok(0));
    assert_eq!(h.mode(), Ok(0o644));
    let dir = WindowsMetadata { is_dir: true, is_file: false, file_attributes: 0, ..meta };
    h.set_windows_metadata(&dir, HeaderMode::Complete);
    assert_eq!(h.mode(), Ok(0o755));
    assert_eq!(h.size(), Ok(0));
    assert_eq!(h.entry_type(), EntryType::Directory);

    assert_eq!(windows::path2bytes(Some("a\\b/c")), Ok(b"a/b/c".to_vec()));
    assert_eq!(windows::path2bytes(None), Err(TarError::PathNotUnicode));
    assert_eq!(windows::bytes2path(b"a/b"), Ok("a/b"));
    assert_eq!(windows::bytes2path(b"\xff"), Err(TarError::OnlyUnicodePaths));
    assert!(windows::ends_with_separator(&[97, 92]));
    assert!(windows::ends_with_separator(&[47]));
    assert!(!windows::ends_with_separator(&[97]));
    assert!(windows::is_unpacked_readonly(0o444));
    assert!(!windows::is_unpacked_readonly(0o644));
}

#[test]
fn projects_are_found_by_name() {
    assert_eq!(revdep::revdeps().len(), 3);
    assert_eq!(revdep::resolve_targets(&vec![]).unwrap().len(), 3);
    let one = revdep::resolve_targets(&vec!["crates-io".to_string()]).unwrap();
    assert_eq!(one.len(), 1);
    assert_eq!(one[0].repo, "https://github.com/rust-lang/crates.io.git");
    assert_eq!(one[0].toolchain, Some("stable"));
    let wrong = vec!["cargo".to_string(), "nothing".to_string()];
    assert_eq!(revdep::resolve_targets(&wrong).unwrap_err(), RevdepError::Unknown(1));
    assert_eq!(revdep::patch_config_flag("/x"), "patch.crates-io.tar.path=\"/x\"");
}

#[test]
fn projects_are_brought_to_a_revision() {
    assert_eq!(revdep::clone_action(false, "", ""), CloneAction::Clone);
    assert_eq!(revdep::clone_action(true, "abc\n", " abc"), CloneAction::Keep);
    assert_eq!(revdep::clone_action(true, "abc", "abd"), CloneAction::Fetch);
    assert_eq!(revdep::clone_action(true, "", ""), CloneAction::Fetch);
}

#[test]
fn projects_are_tested_by_commands() {
    let cargo = revdep::test_commands("cargo").unwrap();
    assert_eq!(cargo.len(), 3);
    assert_eq!(cargo[0], ["update", "-p", "tar"]);
    assert_eq!(cargo[1], ["check", "--workspace"]);
    assert_eq!(cargo[2].len(), 15);
    let filterer = revdep::test_commands("cargo-vendor-filterer").unwrap();
    assert_eq!(filterer[1], ["test", "--", "--skip", "tar_zstd"]);
    assert_eq!(revdep::test_commands("crates-io").unwrap()[1], ["test", "-p", "crates_io_tarball"]);
    assert!(revdep::test_commands("other").is_none());
    assert_eq!(revdep::failed_names(&vec![("a", true), ("b", false)]), ["b"]);
}

#[test]
fn breaking_a_text() {
    assert_eq!(revdep::replace(b"aXbXXc", b"X", b"--"), b"a--b----c".to_vec());
    assert_eq!(revdep::replace(b"aaa", b"aa", b"b"), b"ba".to_vec());
    assert_eq!(revdep::inject(b"abc", b"b", b"x"), Ok(b"axc".to_vec()));
    assert_eq!(revdep::inject(b"abc", b"z", b"x"), Err(RevdepError::NotInjected));
    assert_eq!(revdep::self_test_verdict(true), Err(RevdepError::NotNoticed));
    assert_eq!(revdep::self_test_verdict(false), Ok(()));
}

#[test]
fn paths_have_components() {
    assert_eq!(path::components(b"/a//b/./../c").len(), 5);
    assert_eq!(path::parent(b"a/b"), Some(&b"a"[..]));
    assert_eq!(path::parent(b"a"), Some(&b""[..]));
    assert_eq!(path::parent(b"/"), None);
    assert_eq!(path::join(b"a", b"b"), b"a/b".to_vec());
    assert_eq!(path::join(b"a/", b"b"), b"a/b".to_vec());
    assert_eq!(path::join(b"a", b"/b"), b"/b".to_vec());
    assert!(path::starts_with(b"/a/b/c", b"/a/b/"));
    assert!(!path::starts_with(b"/a/bc", b"/a/b"));
    assert!(path::has_root(b"/"));
    assert!(path::ends_with_slash(b"a/"));
    let mut p = b"/a/b".to_vec();
    assert!(path::pop(&mut p));
    assert_eq!(p, b"/a".to_vec());
}

#[test]
fn numbers_in_text() {
    assert_eq!(octal_from(b" 17 \0"), Ok(15));
    assert_eq!(octal_from(b"8\0"), Err(TarError::NumericInvalid));
    assert_eq!(octal_from(b"\xff"), Err(TarError::NumericNotUtf8));
    let mut field = [0; 8];
    octal_into(&mut field, 0o755);
    assert_eq!(&field, b"0000755\0");
    assert_eq!(octal_from(&field), Ok(0o755));
    assert_eq!(parse_numeral(b"18446744073709551615", 10), Some(u64::MAX));
    assert_eq!(parse_numeral(b"18446744073709551616", 10), None);
    assert_eq!(trim(" \u{3000}a b\n"), "a b");
}

#[test]
fn pax_records() {
    let mut data = Vec::new();
    push_record(&mut data, "k", b"v");
    push_record(&mut data, "size", b"12345");
    assert_eq!(data, b"6 k=v\n14 size=12345\n".to_vec());
    let mut list = PaxExtensions::new(&data);
    let one = list.next().unwrap().unwrap();
    assert_eq!(one.key(), Ok("k"));
    assert_eq!(one.value(), Ok("v"));
    assert_eq!(list.next().unwrap().unwrap().value_bytes(), b"12345");
    assert!(list.next().is_none());
    assert_eq!(pax_extensions_value(&data, "size"), Some(12345));
    assert_eq!(pax_extensions_value(&data, "k"), None);
    let mut list = PaxExtensions::new(b"7 k=v\n");
    assert!(matches!(list.next(), Some(Err(TarError::PaxMalformed))));
    let mut list = PaxExtensions::new(b"no\n");
    assert!(matches!(list.next(), Some(Err(TarError::PaxMalformed))));
    let mut list = PaxExtensions::new(b"7 \xff=\xff\n");
    match list.next() {
        Some(Ok(e)) => {
            assert_eq!(e.key(), Err(TarError::TextNotUtf8));
            assert_eq!(e.value(), Err(TarError::TextNotUtf8));
        }
        _ => {}
    }
}

#[test]
fn record_lengths_count_themselves() {
    for n in [90usize, 91, 92, 93, 94, 95, 96, 990, 991, 992, 993] {
        let value = vec![b'v'; n];
        let mut data = Vec::new();
        push_record(&mut data, "k", &value);
        let digits = data.iter().position(|b| *b == b' ').unwrap();
        let text = String::from_utf8(data[..digits].to_vec()).unwrap();
        assert_eq!(text, data.len().to_string());
    }
}

#[test]
fn sparse_maps() {
    let map = vec![(512, 512), (2048, 0)];
    assert_eq!(
        build_sparse_io(&map, 2048, 512),
        Ok(vec![EntryIo::Pad(512), EntryIo::Data(512), EntryIo::Pad(1024), EntryIo::Data(0)])
    );
    assert_eq!(build_sparse_io(&vec![(512, 512), (100, 0)], 2048, 512), Err(TarError::SparseOverlap));
    assert_eq!(build_sparse_io(&vec![(0, 10), (512, 10)], 522, 20), Err(TarError::SparseUnaligned));
    assert_eq!(build_sparse_io(&vec![(u64::MAX, 1)], 0, 1), Err(TarError::SparseTooLong));
    assert_eq!(build_sparse_io(&vec![(0, 512)], 512, 100), Err(TarError::SparseOverrun));
    assert_eq!(build_sparse_io(&vec![(0, 512)], 1024, 512), Err(TarError::SparseSizeMismatch));
    assert_eq!(build_sparse_io(&vec![(0, 512)], 512, 1024), Err(TarError::SparseDataMismatch));
}

#[test]
fn reading_and_skipping_in_steps() {
    assert_eq!(skip_chunk(10), 10);
    assert_eq!(skip_chunk(100000), 32768);
    assert_eq!(skip_progress(10, 4), Ok(6));
    assert_eq!(skip_progress(10, 0), Err(TarError::EofInSkip));
    assert!(matches!(fill_progress(0, 512, 0), Ok(Progress::Ended)));
    assert!(matches!(fill_progress(0, 512, 100), Ok(Progress::Partial(100))));
    assert!(matches!(fill_progress(100, 512, 412), Ok(Progress::Full)));
    assert!(matches!(fill_progress(100, 512, 0), Err(TarError::EofInBlock)));
}

fn options() -> Options {
    Options {
        mask: 0,
        unpack_xattrs: false,
        preserve_permissions: false,
        preserve_ownerships: false,
        preserve_mtime: true,
        overwrite: true,
        ignore_zeros: false,
    }
}

#[test]
fn a_walk_asks_for_bytes() {
    let mut h = Header::new_gnu();
    h.set_path(b"f").unwrap();
    h.set_size(3);
    h.set_cksum();
    let mut walk = EntriesFields::new(options(), false);
    assert!(matches!(walk.begin(0), Action::Skip(0)));
    assert!(matches!(walk.skipped(), Action::Fill(512)));
    match walk.filled(h.as_bytes()) {
        Action::Entry(e) => {
            assert_eq!(e.path_bytes(), b"f".to_vec());
            assert_eq!(e.size, 3);
            assert_eq!(e.file_pos, 512);
        }
        _ => panic!("an entry was read"),
    }
    assert!(matches!(walk.begin(512), Action::Skip(512)));
    assert!(matches!(walk.skipped(), Action::Fill(512)));
    assert!(matches!(walk.ended(), Action::End));

    let mut walk = EntriesFields::new(options(), false);
    assert!(matches!(walk.begin(5), Action::Error(TarError::PositionOverflow)));
}

#[test]
fn places_of_entries() {
    assert!(matches!(target_in(b"/d", b"a/../b"), Placement::Skipped));
    assert!(matches!(target_in(b"/d", b"./"), Placement::Root));
    match target_in(b"/d", b"/a/./b") {
        Placement::At(p) => assert_eq!(p, b"/d/a/b".to_vec()),
        _ => panic!("inside"),
    }
    assert_eq!(check_inside(b"/d", b"/d/a"), Ok(()));
    assert_eq!(check_inside(b"/d", b"/da"), Err(TarError::OutsideDestination));
    assert_eq!(check_copied(5, 5), Ok(()));
    assert_eq!(check_copied(5, 4), Err(TarError::ShortWrite));
}

#[test]
fn modes_of_unpacked_files() {
    assert_eq!(set_perms(0o104755, &options()), 0o755);
    let all = Options { preserve_permissions: true, ..options() };
    assert_eq!(set_perms(0o4755, &all), 0o4755);
    let masked = Options { mask: 0o022, ..options() };
    assert_eq!(set_perms(0o666, &masked), 0o644);
}

#[test]
fn attributes_of_unpacked_files() {
    let mut data = Vec::new();
    push_record(&mut data, "SCHILY.xattr.user.x", b"1");
    push_record(&mut data, "mtime", b"5");
    assert_eq!(set_xattrs(&data), vec![(b"user.x".to_vec(), b"1".to_vec())]);
}

fn first_plan(h: &Header, data: &[u8], setup: fn(&mut Archive)) -> Result<UnpackPlan, TarError> {
    let mut b = Builder::new(Vec::new());
    b.append(h, data).unwrap();
    let mut ar = Archive::new(b.into_inner().unwrap());
    setup(&mut ar);
    let e = ar.entries().unwrap().next().unwrap().unwrap();
    e.fields.plan(b"/d/f", Some(b"/d"))
}

#[test]
fn plans_follow_the_options() {
    let meta = Metadata { mode: 0o100664, uid: 7, gid: 8, mtime: 9, len: 1, rdev: 0 };
    let mut h = Header::new_gnu();
    h.set_path(b"f").unwrap();
    h.set_metadata(&meta);
    h.set_cksum();
    match first_plan(&h, b"x", |_| {}) {
        Ok(UnpackPlan::File(p)) => {
            assert_eq!(p.mtime, Some(9));
            assert_eq!(p.mode, Some(0o664));
            assert_eq!(p.owner, None);
            assert!(p.overwrite);
        }
        _ => panic!("a file"),
    }
    let setup = |ar: &mut Archive| {
        ar.set_mask(0o060);
        ar.set_preserve_mtime(false);
        ar.set_preserve_ownerships(true);
        ar.set_overwrite(false);
    };
    match first_plan(&h, b"x", setup) {
        Ok(UnpackPlan::File(p)) => {
            assert_eq!(p.mtime, None);
            assert_eq!(p.mode, Some(0o604));
            assert_eq!(p.owner, Some((7, 8)));
            assert!(!p.overwrite);
        }
        _ => panic!("a file"),
    }
    h.set_entry_type(EntryType::Symlink);
    h.set_size(0);
    h.set_cksum();
    assert!(matches!(first_plan(&h, b"", |_| {}), Err(TarError::LinkNameMissing)));
    h.set_link_name(b"../x").unwrap();
    h.set_cksum();
    match first_plan(&h, b"", |_| {}) {
        Ok(UnpackPlan::Symlink(t)) => assert_eq!(t, b"../x".to_vec()),
        _ => panic!("a link"),
    }
}

#[test]
fn errors_have_messages() {
    assert_eq!(TarError::PathHasParent.message(), "paths in archives must not have `..`");
    assert_eq!(TarError::Parse("why".to_string()).message(), "why");
}
