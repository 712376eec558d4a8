//! Adding files, bytes, links and devices to streamed archives.

use crate::builder::{append, appended, long_header, long_link_header};
use crate::bytes::with_field;
use crate::entry_type::EntryType;
use crate::error::TarError;
use crate::header::{
    blank_gnu, gnu_magic, header_link_stored, header_path_stored, is_gnu, type_of_mode,
    ustar_magic, with_attributes, with_cksum, with_metadata, with_octal, Header, HeaderMode,
    Metadata, S_IFBLK, S_IFCHR, S_IFDIR, S_IFIFO, S_IFLNK, S_IFMT, S_IFSOCK,
};
use crate::header_laws::law_field_kept;
use crate::number::{octal_field, utf8_text};
use crate::path::extend;
use crate::stream_item::{
    Body, Item, StreamData, StreamFile, StreamItem, StreamLink, StreamSpecialFile,
};
use crate::stored_path::{lemma_path_stored_len, path_stored};
use crate::streamer::{Streamer, Streaming};
use vstd::prelude::*;
use vstd::slice::{slice_subrange, slice_to_vec};
use vstd::utf8::valid_utf8;

verus! {

/// A header after a path or link name was set, and the record in front of the entry.
#[verifier::ext_equal]
pub struct Extended {
    /// The header.
    pub header: Seq<u8>,
    /// The record, if one is needed.
    pub record: Seq<u8>,
    /// The outcome.
    pub result: Result<(), TarError>,
}

/// The length of the longest start of some bytes, of at most `n` bytes, that is text.
pub open spec fn text_length(b: Seq<u8>, n: int) -> int
    decreases n,
{
    if n <= 0 {
        0
    } else if valid_utf8(b.take(n)) {
        n
    } else {
        text_length(b, n - 1)
    }
}

/// A record that holds a long path or link name, and a nul behind it, filled up to whole blocks.
pub open spec fn long_record(text: Seq<u8>, kind: u8) -> Seq<u8> {
    appended(Seq::empty(), long_header(text.len() + 1int, kind), text.push(0u8))
}

/// A header after a path was set.
///
/// A path that the header cannot hold goes to a record, unless it is short: it is then refused
/// for another reason. The header holds the start of a long path, as far as that is text.
pub open spec fn path_extended(h: Seq<u8>, path: Seq<u8>) -> Extended {
    let (header, result) = header_path_stored(h, path);
    if result is Ok || path.len() < 100 {
        Extended { header, record: Seq::empty(), result }
    } else if path.len() + 1 > u64::MAX {
        Extended { header, record: Seq::empty(), result: Err(TarError::ValueTooLong) }
    } else {
        let (header, result) = header_path_stored(header, path.take(text_length(path, 100)));
        Extended {
            header,
            record: if result is Ok {
                long_record(path, 76)
            } else {
                Seq::empty()
            },
            result,
        }
    }
}

/// A header after a link name was set.
///
/// A link name that the header cannot hold goes to a record, unless it is short: it is then
/// refused for another reason.
pub open spec fn link_extended(h: Seq<u8>, link: Seq<u8>) -> Extended {
    let (header, result) = header_link_stored(h, link);
    if result is Ok || link.len() < 100 {
        Extended { header, record: Seq::empty(), result }
    } else if link.len() + 1 > u64::MAX {
        Extended { header, record: Seq::empty(), result: Err(TarError::ValueTooLong) }
    } else {
        Extended { header, record: long_record(link, 75), result: Ok(()) }
    }
}

/// Makes a record that holds a long path or link name, and a nul behind it, filled up to whole
/// blocks.
fn make_record(text: &[u8], kind: u8) -> (r: Option<Vec<u8>>)
    ensures
        match r {
            Some(record) => text@.len() + 1 <= u64::MAX && record@ == long_record(text@, kind),
            None => text@.len() + 1 > u64::MAX,
        },
{
    let size: u64 = match (text.len() as u64).checked_add(1) {
        Some(size) => size,
        None => {
            return None;
        },
    };
    let header: Header = long_link_header(size, kind);
    let mut name: Vec<u8> = slice_to_vec(text);
    name.push(0);
    let mut record: Vec<u8> = Vec::new();
    assert(record@ =~= Seq::empty());
    append(&mut record, &header, name.as_slice());
    Some(record)
}

/// Finds the length of the longest start of some bytes, of at most `n` bytes, that is text.
fn find_text(b: &[u8], n: usize) -> (r: usize)
    requires
        n <= b@.len(),
    ensures
        r == text_length(b@, n as int),
        r <= n,
{
    let mut i: usize = n;
    while i > 0
        invariant
            i <= n <= b@.len(),
            text_length(b@, n as int) == text_length(b@, i as int),
        decreases i,
    {
        let start: &[u8] = slice_subrange(b, 0, i);
        assert(start@ =~= b@.take(i as int));
        if utf8_text(start).is_some() {
            return i;
        }
        i = i - 1;
    }
    0
}

/// Sets the path of a header, and returns the record that is needed in front of the entry.
pub fn prepare_header_path(header: &mut Header, path: &[u8]) -> (r: Result<Option<Vec<u8>>, TarError>)
    ensures
        is_extended(r, final(header)@, path_extended(old(header)@, path@)),
{
    match header.set_path(path) {
        Ok(()) => Ok(None),
        Err(e) => {
            if path.len() < 100 {
                return Err(e);
            }
            let record: Vec<u8> = match make_record(path, 76) {
                Some(record) => record,
                None => {
                    return Err(TarError::ValueTooLong);
                },
            };
            let n: usize = find_text(path, 100);
            let start: &[u8] = slice_subrange(path, 0, n);
            assert(start@ =~= path@.take(n as int));
            match header.set_path(start) {
                Ok(()) => Ok(Some(record)),
                Err(e) => Err(e),
            }
        },
    }
}

/// Sets the link name of a header, and returns the record that is needed in front of the entry.
pub fn prepare_header_link(header: &mut Header, link_name: &[u8]) -> (r: Result<
    Option<Vec<u8>>,
    TarError,
>)
    ensures
        is_extended(r, final(header)@, link_extended(old(header)@, link_name@)),
{
    match header.set_link_name(link_name) {
        Ok(()) => Ok(None),
        Err(e) => {
            if link_name.len() < 100 {
                return Err(e);
            }
            match make_record(link_name, 75) {
                Some(record) => Ok(Some(record)),
                None => Err(TarError::ValueTooLong),
            }
        },
    }
}

/// Whether a header and a record are the ones that are expected. There is a record exactly where
/// one is needed.
pub open spec fn is_extended(
    r: Result<Option<Vec<u8>>, TarError>,
    header: Seq<u8>,
    x: Extended,
) -> bool {
    &&& header == x.header
    &&& match r {
        Ok(Some(record)) => x.result is Ok && x.record.len() > 0 && record@ == x.record,
        Ok(None) => x.result is Ok && x.record.len() == 0,
        Err(e) => x.result == Err::<(), TarError>(e),
    }
}

/// Appends a record, if there is one.
fn add_record(to: &mut Vec<u8>, record: Option<Vec<u8>>)
    ensures
        final(to)@ == old(to)@ + (match record {
            Some(bytes) => bytes@,
            None => Seq::empty(),
        }),
{
    let ghost before = to@;
    match record {
        Some(bytes) => {
            extend(to, bytes.as_slice());
        },
        None => {
            assert(before + Seq::<u8>::empty() =~= before);
        },
    }
}

/// The headers of a file of the file system: under its name in the archive, by its metadata,
/// and with its link name if it is a link.
pub open spec fn file_headers(
    name: Seq<u8>,
    meta: Metadata,
    link_name: Seq<u8>,
    mode: HeaderMode,
) -> Result<Seq<u8>, TarError> {
    let p = path_extended(blank_gnu(), name);
    let h = with_metadata(p.header, meta, mode);
    let l = link_extended(h, link_name);
    match p.result {
        Err(e) => Err(e),
        Ok(()) => if meta.file_type() == S_IFLNK {
            match l.result {
                Err(e) => Err(e),
                Ok(()) => Ok(p.record + l.record + with_cksum(l.header)),
            }
        } else {
            Ok(p.record + with_cksum(h))
        },
    }
}

/// The type of a device or a pipe.
pub open spec fn special_type(meta: Metadata) -> Result<EntryType, TarError> {
    let kind = meta.file_type();
    if kind == S_IFSOCK {
        Err(TarError::Socket)
    } else if kind == S_IFIFO {
        Ok(EntryType::Fifo)
    } else if kind == S_IFCHR {
        Ok(EntryType::Char)
    } else if kind == S_IFBLK {
        Ok(EntryType::Block)
    } else {
        Err(TarError::UnknownFileType)
    }
}

/// The major number of a device.
pub open spec fn device_major(rdev: u64) -> u32 {
    (((rdev >> 32) & 0xffff_f000) | ((rdev >> 8) & 0x0000_0fff)) as u32
}

/// The minor number of a device.
pub open spec fn device_minor(rdev: u64) -> u32 {
    (((rdev >> 12) & 0xffff_ff00) | (rdev & 0x0000_00ff)) as u32
}

/// A header with the type and the numbers of a device or a pipe.
pub open spec fn as_special(h: Seq<u8>, kind: EntryType, rdev: u64) -> Seq<u8> {
    let h = with_field(h, 156, seq![kind.byte()]);
    let h = with_octal(h, 329, 337, device_major(rdev) as int);
    with_octal(h, 337, 345, device_minor(rdev) as int)
}

/// The headers of a device or a pipe.
pub open spec fn special_headers(path: Seq<u8>, meta: Metadata, mode: HeaderMode) -> Result<
    Seq<u8>,
    TarError,
> {
    match special_type(meta) {
        Err(e) => Err(e),
        Ok(kind) => {
            let p = path_extended(with_metadata(blank_gnu(), meta, mode), path);
            match p.result {
                Err(e) => Err(e),
                Ok(()) => Ok(p.record + with_cksum(as_special(p.header, kind, meta.rdev))),
            }
        },
    }
}

/// An archive with one more part, or as it was if the part has no headers; and the outcome.
pub open spec fn with_headers(s: Streaming, headers: Result<Seq<u8>, TarError>, body: Body) -> (
    Streaming,
    Result<(), TarError>,
) {
    match headers {
        Ok(header) => (s.with_item(Item::fresh(header, body)), Ok(())),
        Err(e) => (s, Err(e)),
    }
}

/// Sets the type and the device numbers of a header.
fn fill_special(header: &mut Header, kind: EntryType, rdev: u64)
    requires
        is_gnu(old(header)@),
    ensures
        final(header)@ == as_special(old(header)@, kind, rdev),
{
    let ghost named = header@;
    header.set_entry_type(kind);
    proof {
        law_field_kept(named, 156, seq![kind.byte()], 257, 265);
    }
    let major: u64 = ((rdev >> 32) & 0xffff_f000) | ((rdev >> 8) & 0x0000_0fff);
    let minor: u64 = ((rdev >> 12) & 0xffff_ff00) | (rdev & 0x0000_00ff);
    let ghost typed = header@;
    let first: Result<(), TarError> = header.set_device_major(major as u32);
    proof {
        lemma_octal_gnu(typed, 329, 337, device_major(rdev) as int);
    }
    let second: Result<(), TarError> = header.set_device_minor(minor as u32);
    assert(first is Ok && second is Ok);
}

/// Makes the headers of a device or a pipe.
fn make_special(path: &[u8], meta: &Metadata, mode: HeaderMode, kind: EntryType) -> (r: Result<
    Vec<u8>,
    TarError,
>)
    requires
        special_type(*meta) == Ok::<EntryType, TarError>(kind),
    ensures
        match special_headers(path@, *meta, mode) {
            Ok(h) => r matches Ok(v) && v@ == h,
            Err(e) => r == Err::<Vec<u8>, TarError>(e),
        },
{
    let mut encoded_header: Vec<u8> = Vec::new();
    let mut header: Header = Header::new_gnu();
    header.set_metadata_in_mode(meta, mode);
    let ghost filled = header@;
    let record: Option<Vec<u8>> = match prepare_header_path(&mut header, path) {
        Ok(record) => record,
        Err(e) => {
            return Err(e);
        },
    };
    proof {
        lemma_blank_gnu();
        lemma_metadata_gnu(blank_gnu(), *meta, mode);
        lemma_path_gnu(filled, path@);
    }
    add_record(&mut encoded_header, record);
    fill_special(&mut header, kind, meta.rdev);
    header.set_cksum();
    extend(&mut encoded_header, header.bytes.as_slice());
    proof {
        let headers = special_headers(path@, *meta, mode);
        assert(encoded_header@ =~= headers->Ok_0);
    }
    Ok(encoded_header)
}

proof fn lemma_blank_gnu()
    ensures
        blank_gnu().len() == 512,
        is_gnu(blank_gnu()),
{
    assert(blank_gnu().subrange(257, 265) =~= gnu_magic());
}

impl Streamer {
    /// Adds a link at `path` to `target`.
    ///
    /// Both are set in the header, and its checksum is filled in. What the header cannot hold
    /// goes to records in front of it.
    pub fn append_link(&mut self, header: &mut Header, path: &[u8], target: &[u8]) -> (r: Result<
        (),
        TarError,
    >)
        requires
            old(self).wf(),
        ensures
            final(self).wf(),
            ({
                let p = path_extended(old(header)@, path@);
                let l = link_extended(p.header, target@);
                if p.result is Err {
                    r == p.result && final(header)@ == p.header && final(self)@ == old(self)@
                } else if l.result is Err {
                    r == l.result && final(header)@ == l.header && final(self)@ == old(self)@
                } else {
                    &&& r is Ok
                    &&& final(header)@ == with_cksum(l.header)
                    &&& final(self)@ == old(self)@.with_item(
                        Item::fresh(p.record + l.record + with_cksum(l.header), Body::Nothing),
                    )
                }
            }),
    {
        let mut encoded_header: Vec<u8> = Vec::new();
        let record: Option<Vec<u8>> = match prepare_header_path(header, path) {
            Ok(record) => record,
            Err(e) => {
                return Err(e);
            },
        };
        add_record(&mut encoded_header, record);
        let record: Option<Vec<u8>> = match prepare_header_link(header, target) {
            Ok(record) => record,
            Err(e) => {
                return Err(e);
            },
        };
        add_record(&mut encoded_header, record);
        header.set_cksum();
        extend(&mut encoded_header, header.bytes.as_slice());
        proof {
            let p = path_extended(old(header)@, path@);
            let l = link_extended(p.header, target@);
            assert(encoded_header@ =~= p.record + l.record + with_cksum(l.header));
        }
        self.push_item(StreamItem::Link(StreamLink::new_with_encoded_header(encoded_header)));
        Ok(())
    }

    /// Adds an entry: its header as it is, and its data.
    pub fn append(&mut self, header: &Header, data: Vec<u8>)
        requires
            old(self).wf(),
        ensures
            final(self).wf(),
            final(self)@ == old(self)@.with_item(Item::fresh(header@, Body::Stored(data@))),
    {
        self.append_stream_data(StreamData::new(header, data));
    }

    /// Adds an entry with the given path and data.
    ///
    /// The path is set in the header, and its checksum is filled in. A path that the header
    /// cannot hold goes to a record in front of it.
    pub fn append_data(&mut self, header: &mut Header, path: &[u8], data: Vec<u8>) -> (r: Result<
        (),
        TarError,
    >)
        requires
            old(self).wf(),
        ensures
            final(self).wf(),
            ({
                let p = path_extended(old(header)@, path@);
                if p.result is Err {
                    r == p.result && final(header)@ == p.header && final(self)@ == old(self)@
                } else {
                    &&& r is Ok
                    &&& final(header)@ == with_cksum(p.header)
                    &&& final(self)@ == old(self)@.with_item(
                        Item::fresh(p.record + with_cksum(p.header), Body::Stored(data@)),
                    )
                }
            }),
    {
        let mut encoded_header: Vec<u8> = Vec::new();
        let record: Option<Vec<u8>> = match prepare_header_path(header, path) {
            Ok(record) => record,
            Err(e) => {
                return Err(e);
            },
        };
        add_record(&mut encoded_header, record);
        header.set_cksum();
        extend(&mut encoded_header, header.bytes.as_slice());
        proof {
            let p = path_extended(old(header)@, path@);
            assert(encoded_header@ =~= p.record + with_cksum(p.header));
        }
        self.append_stream_data(StreamData::new_with_encoded_header(encoded_header, data));
        Ok(())
    }

    /// Adds an entry whose headers are made, and whose data is asked for by a key, as that of a file
    /// is by its path.
    pub fn append_keyed(&mut self, encoded_header: Vec<u8>, key: Vec<u8>)
        requires
            old(self).wf(),
        ensures
            final(self).wf(),
            final(self)@ == old(self)@.with_item(
                Item::fresh(encoded_header@, Body::OnDisk(key@, old(self)@.follow)),
            ),
    {
        let follow: bool = self.follows();
        self.push_item(
            StreamItem::File(StreamFile::new_with_encoded_header(key, encoded_header, follow)),
        );
    }

    /// Adds bytes that are to be streamed.
    pub fn append_stream_data(&mut self, stream_data: StreamData)
        requires
            old(self).wf(),
            StreamItem::Data(stream_data).wf(),
        ensures
            final(self).wf(),
            final(self)@ == old(self)@.with_item(StreamItem::Data(stream_data)@),
    {
        self.push_item(StreamItem::Data(stream_data));
    }

    /// Adds a file of the file system under its own path.
    ///
    /// `meta` is what the file system says of the path, and `link_name` where it leads if it is
    /// a link.
    pub fn append_path(&mut self, path: &[u8], meta: &Metadata, link_name: &[u8]) -> (r: Result<
        (),
        TarError,
    >)
        requires
            old(self).wf(),
        ensures
            final(self).wf(),
            (final(self)@, r) == with_headers(
                old(self)@,
                file_headers(path@, *meta, link_name@, old(self)@.mode),
                Body::OnDisk(path@, old(self)@.follow),
            ),
    {
        self.append_stream_file(path, path, meta, link_name)
    }

    /// Adds a file of the file system under the given name.
    ///
    /// `meta` is what the file system says of the path, and `link_name` where it leads if it is
    /// a link.
    pub fn append_path_with_name(
        &mut self,
        path: &[u8],
        name: &[u8],
        meta: &Metadata,
        link_name: &[u8],
    ) -> (r: Result<(), TarError>)
        requires
            old(self).wf(),
        ensures
            final(self).wf(),
            (final(self)@, r) == with_headers(
                old(self)@,
                file_headers(name@, *meta, link_name@, old(self)@.mode),
                Body::OnDisk(path@, old(self)@.follow),
            ),
    {
        self.append_stream_file(path, name, meta, link_name)
    }

    /// Adds the directory at `src_path` under the given path.
    ///
    /// `meta` is what the file system says of the directory, and `link_name` where it leads if
    /// it is a link.
    pub fn append_dir(&mut self, path: &[u8], src_path: &[u8], meta: &Metadata, link_name: &[u8]) -> (r:
        Result<(), TarError>)
        requires
            old(self).wf(),
        ensures
            final(self).wf(),
            (final(self)@, r) == with_headers(
                old(self)@,
                file_headers(path@, *meta, link_name@, old(self)@.mode),
                Body::OnDisk(src_path@, old(self)@.follow),
            ),
    {
        self.append_stream_file(src_path, path, meta, link_name)
    }

    /// Adds a device or a pipe of the file system under its own path.
    ///
    /// `meta` is what the file system says of the path. A socket cannot be archived.
    pub fn append_special(&mut self, path: &[u8], meta: &Metadata) -> (r: Result<(), TarError>)
        requires
            old(self).wf(),
        ensures
            final(self).wf(),
            (final(self)@, r) == with_headers(
                old(self)@,
                special_headers(path@, *meta, old(self)@.mode),
                Body::Nothing,
            ),
    {
        let bits: u32 = meta.mode & S_IFMT;
        let kind: EntryType = if bits == S_IFSOCK {
            return Err(TarError::Socket);
        } else if bits == S_IFIFO {
            EntryType::Fifo
        } else if bits == S_IFCHR {
            EntryType::Char
        } else if bits == S_IFBLK {
            EntryType::Block
        } else {
            return Err(TarError::UnknownFileType);
        };
        match make_special(path, meta, self.header_mode(), kind) {
            Ok(encoded_header) => {
                self.push_item(
                    StreamItem::Special(StreamSpecialFile::new_with_encoded_header(encoded_header)),
                );
                Ok(())
            },
            Err(e) => Err(e),
        }
    }

    fn append_stream_file(
        &mut self,
        path: &[u8],
        name: &[u8],
        meta: &Metadata,
        link_name: &[u8],
    ) -> (r: Result<(), TarError>)
        requires
            old(self).wf(),
        ensures
            final(self).wf(),
            (final(self)@, r) == with_headers(
                old(self)@,
                file_headers(name@, *meta, link_name@, old(self)@.mode),
                Body::OnDisk(path@, old(self)@.follow),
            ),
    {
        let mut encoded_header: Vec<u8> = Vec::new();
        let mut header: Header = Header::new_gnu();
        let record: Option<Vec<u8>> = match prepare_header_path(&mut header, name) {
            Ok(record) => record,
            Err(e) => {
                return Err(e);
            },
        };
        add_record(&mut encoded_header, record);
        header.set_metadata_in_mode(meta, self.header_mode());
        if meta.mode & S_IFMT == S_IFLNK {
            let record: Option<Vec<u8>> = match prepare_header_link(&mut header, link_name) {
                Ok(record) => record,
                Err(e) => {
                    return Err(e);
                },
            };
            add_record(&mut encoded_header, record);
        }
        header.set_cksum();
        extend(&mut encoded_header, header.bytes.as_slice());
        proof {
            let headers = file_headers(name@, *meta, link_name@, self@.mode);
            assert(encoded_header@ =~= headers->Ok_0);
        }
        let file: StreamFile = StreamFile::new_with_encoded_header(
            slice_to_vec(path),
            encoded_header,
            self.follows(),
        );
        self.push_item(StreamItem::File(file));
        Ok(())
    }
}

proof fn lemma_octal_gnu(h: Seq<u8>, lo: int, hi: int, value: int)
    requires
        h.len() == 512,
        is_gnu(h),
        0 <= lo <= hi <= 512,
        hi <= 257 || 265 <= lo,
    ensures
        is_gnu(with_octal(h, lo, hi, value)),
        with_octal(h, lo, hi, value).len() == 512,
{
    law_field_kept(h, lo, octal_field(h.subrange(lo, hi), value), 257, 265);
}

proof fn lemma_metadata_gnu(h: Seq<u8>, meta: Metadata, mode: HeaderMode)
    requires
        h.len() == 512,
        is_gnu(h),
    ensures
        is_gnu(with_metadata(h, meta, mode)),
        with_metadata(h, meta, mode).len() == 512,
{
    let kind = type_of_mode(meta.mode);
    let (mtime, uid, gid, bits) = match mode {
        HeaderMode::Complete => (meta.mtime as u64, meta.uid, meta.gid, meta.mode),
        HeaderMode::Deterministic => (
            0u64,
            0u32,
            0u32,
            if meta.file_type() == S_IFDIR || meta.mode & 0o100 == 0o100 {
                0o755u32
            } else {
                0o644u32
            },
        ),
    };
    lemma_octal_gnu(h, 136, 148, mtime as int);
    let h1 = with_octal(h, 136, 148, mtime as int);
    lemma_octal_gnu(h1, 108, 116, uid as int);
    let h2 = with_octal(h1, 108, 116, uid as int);
    lemma_octal_gnu(h2, 116, 124, gid as int);
    let h3 = with_octal(h2, 116, 124, gid as int);
    lemma_octal_gnu(h3, 100, 108, bits as int);
    let h4 = with_octal(h3, 100, 108, bits as int);
    law_field_kept(h4, 156, seq![kind.byte()], 257, 265);
    let h5 = with_field(h4, 156, seq![kind.byte()]);
    assert(h5.len() == 512);
    assert(h5 == with_attributes(h, mtime, uid, gid, bits, kind));
    let size = if meta.file_type() == S_IFDIR {
        0u64
    } else {
        meta.len
    };
    lemma_octal_gnu(h5, 124, 136, size as int);
    let h6 = with_octal(h5, 124, 136, size as int);
    lemma_octal_gnu(h6, 329, 337, 0);
    lemma_octal_gnu(with_octal(h6, 329, 337, 0), 337, 345, 0);
}

proof fn lemma_path_gnu(h: Seq<u8>, path: Seq<u8>)
    requires
        h.len() == 512,
        is_gnu(h),
    ensures
        is_gnu(path_extended(h, path).header),
        path_extended(h, path).header.len() == 512,
{
    lemma_stored_gnu(h, path);
    let header = header_path_stored(h, path).0;
    lemma_stored_gnu(header, path.take(text_length(path, 100)));
}

proof fn lemma_stored_gnu(h: Seq<u8>, path: Seq<u8>)
    requires
        h.len() == 512,
        is_gnu(h),
    ensures
        is_gnu(header_path_stored(h, path).0),
        header_path_stored(h, path).0.len() == 512,
{
    assert(gnu_magic()[5] != ustar_magic()[5]);
    let field = path_stored(h.subrange(0, 100), path, false).0;
    lemma_path_stored_len(h.subrange(0, 100), path, false);
    law_field_kept(h, 0, field, 257, 265);
}

} // verus!
