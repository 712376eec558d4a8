//! Headers and their fields.

use tar::{EntryType, GnuExtSparseHeader, Header, HeaderMode, Metadata, TarError};

fn text(bytes: Vec<u8>) -> String {
    String::from_utf8(bytes).unwrap()
}

fn header_path(h: &Header) -> String {
    text(h.path().unwrap())
}

fn header_link(h: &Header) -> String {
    text(h.link_name().unwrap().unwrap())
}

fn put(field: &mut [u8], bytes: &[u8]) {
    for (slot, val) in field.iter_mut().zip(bytes) {
        *slot = *val;
    }
}

#[test]
fn default_gnu() {
    let mut h = Header::new_gnu();
    assert!(h.as_gnu().is_some());
    assert!(h.as_gnu_mut().is_some());
    assert!(h.as_ustar().is_none());
    assert!(h.as_ustar_mut().is_none());
}

#[test]
fn goto_old() {
    let mut h = Header::new_old();
    assert!(h.as_gnu().is_none());
    assert!(h.as_gnu_mut().is_none());
    assert!(h.as_ustar().is_none());
    assert!(h.as_ustar_mut().is_none());
}

#[test]
fn goto_ustar() {
    let mut h = Header::new_ustar();
    assert!(h.as_gnu().is_none());
    assert!(h.as_gnu_mut().is_none());
    assert!(h.as_ustar().is_some());
    assert!(h.as_ustar_mut().is_some());
}

#[test]
fn link_name() {
    let mut h = Header::new_gnu();
    h.set_link_name(b"foo").unwrap();
    assert_eq!(header_link(&h), "foo");
    h.set_link_name(b"foo/bar").unwrap();
    assert_eq!(header_link(&h), "foo/bar");
    h.set_link_name(b"foo\\ba").unwrap();
    assert_eq!(header_link(&h), "foo/ba");

    put(h.as_old_mut().linkname, b"foo\\bar\0");
    assert_eq!(header_link(&h), "foo/bar");

    assert!(h.set_link_name(b"\0").is_err());
}

#[test]
fn user_and_group_name() {
    let mut h = Header::new_gnu();
    h.set_username("foo").unwrap();
    h.set_groupname("bar").unwrap();
    assert_eq!(h.username().unwrap(), Some("foo"));
    assert_eq!(h.groupname().unwrap(), Some("bar"));

    h = Header::new_ustar();
    h.set_username("foo").unwrap();
    h.set_groupname("bar").unwrap();
    assert_eq!(h.username().unwrap(), Some("foo"));
    assert_eq!(h.groupname().unwrap(), Some("bar"));

    h = Header::new_old();
    assert_eq!(h.username().unwrap(), None);
    assert_eq!(h.groupname().unwrap(), None);
    assert!(h.set_username("foo").is_err());
    assert!(h.set_groupname("foo").is_err());
}

#[test]
fn dev_major_minor() {
    let mut h = Header::new_gnu();
    h.set_device_major(1).unwrap();
    h.set_device_minor(2).unwrap();
    assert_eq!(h.device_major().unwrap(), Some(1));
    assert_eq!(h.device_minor().unwrap(), Some(2));

    h = Header::new_ustar();
    h.set_device_major(1).unwrap();
    h.set_device_minor(2).unwrap();
    assert_eq!(h.device_major().unwrap(), Some(1));
    assert_eq!(h.device_minor().unwrap(), Some(2));

    h.as_ustar_mut().unwrap().dev_minor[0] = 0xff;
    h.as_ustar_mut().unwrap().dev_major[0] = 0xff;
    assert!(h.device_major().is_err());
    assert!(h.device_minor().is_err());

    h.as_ustar_mut().unwrap().dev_minor[0] = b'g';
    h.as_ustar_mut().unwrap().dev_major[0] = b'h';
    assert!(h.device_major().is_err());
    assert!(h.device_minor().is_err());

    h = Header::new_old();
    assert_eq!(h.device_major().unwrap(), None);
    assert_eq!(h.device_minor().unwrap(), None);
    assert!(h.set_device_major(1).is_err());
    assert!(h.set_device_minor(1).is_err());
}

#[test]
fn set_path() {
    let mut h = Header::new_gnu();
    h.set_path(b"foo").unwrap();
    assert_eq!(header_path(&h), "foo");
    h.set_path(b"foo/bar").unwrap();
    assert_eq!(header_path(&h), "foo/bar");
    h.set_path(b"foo\\bar").unwrap();
    assert_eq!(header_path(&h), "foo/bar");
    put(h.as_old_mut().name, b"foo\\bar\0");
    assert_eq!(header_path(&h), "foo/bar");

    let long_name = "foo".repeat(100);
    let medium1 = "foo".repeat(52);
    let medium2 = "fo/".repeat(52);

    assert!(h.set_path(long_name.as_bytes()).is_err());
    assert!(h.set_path(medium1.as_bytes()).is_err());
    assert!(h.set_path(medium2.as_bytes()).is_err());
    assert!(h.set_path(b"\0").is_err());

    h = Header::new_ustar();
    h.set_path(b"foo").unwrap();
    assert_eq!(header_path(&h), "foo");

    assert!(h.set_path(long_name.as_bytes()).is_err());
    assert!(h.set_path(medium1.as_bytes()).is_err());
    h.set_path(medium2.as_bytes()).unwrap();
    assert_eq!(header_path(&h), medium2);
}

#[test]
fn path_errors() {
    let mut h = Header::new_gnu();
    assert_eq!(h.set_path(b"/foo"), Err(TarError::PathNotRelative));
    assert_eq!(h.set_path(b"foo/../bar"), Err(TarError::PathHasParent));
    assert_eq!(h.set_path(b""), Err(TarError::PathEmpty));
    assert_eq!(h.set_path(b"./"), Err(TarError::PathEmpty));
    assert_eq!(h.set_path(b"a\0b"), Err(TarError::ValueHasNul));
    assert_eq!(h.set_path(&[b'a'; 101]), Err(TarError::ValueTooLong));
    assert_eq!(h.set_path(&[b'a'; 100]), Ok(()));
    assert_eq!(h.path_bytes(), vec![b'a'; 100]);

    let mut h = Header::new_ustar();
    assert_eq!(h.set_path(&[b'a'; 101]), Err(TarError::PathEmpty));
    assert_eq!(h.set_path(&[b'/'; 101]), Err(TarError::PathNotSplittable));
}

#[test]
fn paths_are_cleaned() {
    let mut h = Header::new_gnu();
    h.set_path(b"./a//b/./c/").unwrap();
    assert_eq!(header_path(&h), "a/b/c/");
}

#[test]
fn links_may_be_absolute() {
    let mut h = Header::new_gnu();
    h.set_link_name(b"/bar").unwrap();
    assert_eq!(header_link(&h), "/bar");
    h.set_link_name(b"../bar").unwrap();
    assert_eq!(header_link(&h), "../bar");
}

#[test]
fn ustar_paths_are_split() {
    let mut h = Header::new_ustar();
    let first = "a".repeat(90);
    let second = "b".repeat(90);
    let whole = format!("{}/{}", first, second);
    h.set_path(whole.as_bytes()).unwrap();
    assert_eq!(header_path(&h), whole);
    let fields = h.as_ustar().unwrap();
    assert_eq!(&fields.prefix[..90], first.as_bytes());
    assert_eq!(&fields.name[..90], second.as_bytes());
    assert_eq!(fields.path_bytes(), whole.into_bytes());
}

#[test]
fn numbers_are_octal() {
    let mut h = Header::new_gnu();
    h.set_mode(0o644);
    assert_eq!(h.as_old().mode, b"0000644\0");
    assert_eq!(h.mode(), Ok(0o644));
    h.set_size(4);
    assert_eq!(h.as_old().size, b"00000000004\0");
    assert_eq!(h.entry_size(), Ok(4));
    assert_eq!(h.size(), Ok(4));
    h.set_mtime(1000000000);
    assert_eq!(h.mtime(), Ok(1000000000));
    h.set_uid(1000);
    h.set_gid(100);
    assert_eq!(h.uid(), Ok(1000));
    assert_eq!(h.gid(), Ok(100));
}

#[test]
fn numbers_may_have_spaces() {
    let mut h = Header::new_old();
    put(h.as_old_mut().mode, b"   777 \0");
    assert_eq!(h.mode(), Ok(0o777));
    put(h.as_old_mut().mode, b"+12\0\0\0\0\0");
    assert_eq!(h.mode(), Ok(0o12));
    put(h.as_old_mut().mode, b"12x\0\0\0\0\0");
    assert_eq!(h.mode(), Err(TarError::NumericInvalid));
    put(h.as_old_mut().mode, b"\0\0\0\0\0\0\0\0");
    assert_eq!(h.mode(), Err(TarError::NumericInvalid));
    put(h.as_old_mut().mode, b"\xff\0\0\0\0\0\0\0");
    assert_eq!(h.mode(), Err(TarError::NumericNotUtf8));
}

#[test]
fn long_numbers_lose_digits() {
    let mut h = Header::new_gnu();
    h.set_mode(0o777777777);
    assert_eq!(h.mode(), Ok(0o7777777));
}

#[test]
fn checksum_is_the_sum_of_the_bytes() {
    let mut h = Header::new_old();
    h.set_cksum();
    assert_eq!(h.cksum(), Ok(256));
    h.set_path(b"a").unwrap();
    h.set_cksum();
    assert_eq!(h.cksum(), Ok(256 + 97));
    assert_eq!(h.as_old().cksum, b"0000541 ");
}

#[test]
fn fields_are_independent() {
    let mut h = Header::new_ustar();
    h.set_path(b"name").unwrap();
    h.set_username("user").unwrap();
    h.set_size(7);
    h.set_entry_type(EntryType::Directory);
    assert_eq!(header_path(&h), "name");
    assert_eq!(h.username(), Ok(Some("user")));
    assert_eq!(h.size(), Ok(7));
    assert_eq!(h.entry_type(), EntryType::Directory);
    h.set_groupname("group").unwrap();
    assert_eq!(h.username(), Ok(Some("user")));
    assert_eq!(h.groupname_bytes(), Some(&b"group"[..]));
}

#[test]
fn name_errors() {
    let mut h = Header::new_gnu();
    assert_eq!(h.set_username(&"u".repeat(33)), Err(TarError::ValueTooLong));
    assert_eq!(h.set_groupname("a\0"), Err(TarError::ValueHasNul));
    put(h.as_gnu_mut().unwrap().uname, b"\xff\0");
    assert_eq!(h.username(), Err(TarError::TextNotUtf8));
    let mut h = Header::new_old();
    assert_eq!(h.set_username("foo"), Err(TarError::NoUsername));
    assert_eq!(h.set_groupname("foo"), Err(TarError::NoGroupname));
    assert_eq!(h.set_device_major(1), Err(TarError::NoDevMajor));
    assert_eq!(h.set_device_minor(1), Err(TarError::NoDevMinor));
}

#[test]
fn metadata_is_taken_over() {
    let meta = Metadata { mode: 0o100755, uid: 1, gid: 2, mtime: 3, len: 4, rdev: 0 };
    let mut h = Header::new_gnu();
    h.set_metadata(&meta);
    assert_eq!(h.mode(), Ok(0o100755));
    assert_eq!(h.uid(), Ok(1));
    assert_eq!(h.gid(), Ok(2));
    assert_eq!(h.mtime(), Ok(3));
    assert_eq!(h.size(), Ok(4));
    assert_eq!(h.entry_type(), EntryType::Regular);
    assert_eq!(h.device_major(), Ok(Some(0)));

    h.set_metadata_in_mode(&meta, HeaderMode::Deterministic);
    assert_eq!(h.mode(), Ok(0o755));
    assert_eq!(h.uid(), Ok(0));
    assert_eq!(h.mtime(), Ok(0));

    let dir = Metadata { mode: 0o040700, uid: 1, gid: 2, mtime: 3, len: 4096, rdev: 0 };
    h.set_metadata_in_mode(&dir, HeaderMode::Deterministic);
    assert_eq!(h.mode(), Ok(0o755));
    assert_eq!(h.size(), Ok(0));
    assert_eq!(h.entry_type(), EntryType::Directory);

    let odd = Metadata { mode: 0o150644, uid: 1, gid: 2, mtime: 3, len: 4, rdev: 0 };
    h.set_metadata_in_mode(&odd, HeaderMode::Deterministic);
    assert_eq!(h.mode(), Ok(0o644));
    assert_eq!(h.entry_type(), EntryType::new(b' '));
}

#[test]
fn types_have_bytes() {
    for b in 0..=255u8 {
        assert_eq!(EntryType::new(b).as_byte(), b);
    }
    assert!(EntryType::file().is_file());
    assert!(EntryType::new(b'L').is_gnu_longname());
    assert!(EntryType::new(b'K').is_gnu_longlink());
    assert!(EntryType::new(b'S').is_gnu_sparse());
    assert!(EntryType::new(b'x').is_pax_local_extensions());
    assert!(EntryType::new(b'g').is_pax_global_extensions());
    assert!(!EntryType::new(b'5').is_file());
    assert!(EntryType::dir().is_dir());
    assert!(EntryType::hard_link().is_hard_link());
    assert!(EntryType::symlink().is_symlink());
    assert!(EntryType::character_special().is_character_special());
    assert!(EntryType::block_special().is_block_special());
    assert!(EntryType::fifo().is_fifo());
    assert!(EntryType::contiguous().is_contiguous());
}

#[test]
fn gnu_fields() {
    let mut h = Header::new_gnu();
    {
        let mut gnu = h.as_gnu_mut().unwrap();
        gnu.set_atime(10);
        gnu.set_ctime(20);
        gnu.set_username("me").unwrap();
        gnu.set_device_major(5);
    }
    let gnu = h.as_gnu().unwrap();
    assert_eq!(gnu.atime(), Ok(10));
    assert_eq!(gnu.ctime(), Ok(20));
    assert_eq!(gnu.username_bytes(), b"me");
    assert_eq!(gnu.device_major(), Ok(5));
    assert!(!gnu.is_extended());
    let sparse = gnu.sparse();
    assert_eq!(sparse.len(), 4);
    assert!(sparse[0].is_empty());

    let ext = GnuExtSparseHeader::new();
    assert_eq!(ext.as_bytes(), &[0; 512]);
    assert_eq!(ext.sparse().len(), 21);
    assert!(!ext.is_extended());
}

#[test]
fn a_short_path_takes_the_place_of_a_long_one() {
    let mut h = Header::new_ustar();
    h.set_path("fo/".repeat(52).as_bytes()).unwrap();
    assert!(h.as_ustar_mut().unwrap().set_path(b"foo").is_ok());
    assert_eq!(h.path_bytes(), b"foo".to_vec());
    h.set_path("fo/".repeat(52).as_bytes()).unwrap();
    assert!(h.set_path(b"").is_err());
    h.set_path(b"bar").unwrap();
    assert_eq!(h.path_bytes(), b"bar".to_vec());
}

#[test]
fn deterministic_headers_depend_on_little() {
    let one = Metadata { mode: 0o100744, uid: 1, gid: 2, mtime: 3, len: 9, rdev: 0 };
    let two = Metadata { mode: 0o104511, uid: 4, gid: 5, mtime: 6, len: 9, rdev: 7 };
    let mut a = Header::new_gnu();
    let mut b = Header::new_gnu();
    a.set_metadata_in_mode(&one, HeaderMode::Deterministic);
    b.set_metadata_in_mode(&two, HeaderMode::Deterministic);
    assert_eq!(a.as_bytes(), b.as_bytes());
}
