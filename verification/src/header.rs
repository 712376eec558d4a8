//! Headers: the block of metadata in front of every entry.

use crate::bytes::{
    copy_into, extend_slashed, field_mut, slashed, store_error, stored_at, truncate, truncated,
    with_field,
};
use crate::entry_type::{type_of, EntryType};
use crate::error::TarError;
use crate::number::{octal, octal_field, octal_from, octal_into, utf8_text};
use crate::path::{parent, parent_of};
use crate::stored_path::{copy_path_into, lemma_path_stored_len, path_stored};
use vstd::prelude::*;
use vstd::slice::slice_subrange;
use vstd::utf8::{encode_utf8, valid_utf8};

verus! {

/// The bits of a file mode that hold the type of the file.
pub const S_IFMT: u32 = 0o170000;

/// The type bits of a socket.
pub const S_IFSOCK: u32 = 0o140000;

/// The type bits of a symbolic link.
pub const S_IFLNK: u32 = 0o120000;

/// The type bits of a regular file.
pub const S_IFREG: u32 = 0o100000;

/// The type bits of a block device.
pub const S_IFBLK: u32 = 0o060000;

/// The type bits of a directory.
pub const S_IFDIR: u32 = 0o040000;

/// The type bits of a character device.
pub const S_IFCHR: u32 = 0o020000;

/// The type bits of a FIFO.
pub const S_IFIFO: u32 = 0o010000;

/// The header of an entry in an archive.
pub struct Header {
    /// The header as it stands in the archive.
    pub bytes: [u8; 512],
}

impl View for Header {
    type V = Seq<u8>;

    open spec fn view(&self) -> Seq<u8> {
        self.bytes@
    }
}

/// Declares the information that is taken from a file when a header is filled.
#[derive(Clone, Copy, PartialEq, Eq, Debug, Structural)]
#[non_exhaustive]
pub enum HeaderMode {
    /// All supported metadata, modification time and ownership among it.
    Complete,
    /// Only what bears on the identity of the file: no time and no ownership.
    Deterministic,
}

/// What a file system says of a file.
#[derive(Clone, Copy, PartialEq, Eq, Debug, Structural)]
pub struct Metadata {
    /// The type and permission bits.
    pub mode: u32,
    /// The owner.
    pub uid: u32,
    /// The group.
    pub gid: u32,
    /// The modification time, in seconds since 1970.
    pub mtime: i64,
    /// The number of bytes in the file.
    pub len: u64,
    /// The device that a special file stands for.
    pub rdev: u64,
}

impl Metadata {
    /// The type bits of the mode.
    pub open spec fn file_type(self) -> u32 {
        self.mode & S_IFMT
    }

    /// Returns whether the file is a directory.
    pub fn is_dir(&self) -> (r: bool)
        ensures
            r == (self.file_type() == S_IFDIR),
    {
        self.mode & S_IFMT == S_IFDIR
    }
}

/// The magic and version fields of a GNU header.
pub open spec fn gnu_magic() -> Seq<u8> {
    seq![117u8, 115u8, 116u8, 97u8, 114u8, 32u8, 32u8, 0u8]
}

/// The magic and version fields of a UStar header.
pub open spec fn ustar_magic() -> Seq<u8> {
    seq![117u8, 115u8, 116u8, 97u8, 114u8, 0u8, 48u8, 48u8]
}

/// Whether a header has the GNU format.
pub open spec fn is_gnu(h: Seq<u8>) -> bool {
    h.subrange(257, 265) == gnu_magic()
}

/// Whether a header has the UStar format.
pub open spec fn is_ustar(h: Seq<u8>) -> bool {
    h.subrange(257, 265) == ustar_magic()
}

/// A header of nothing but nul bytes.
pub open spec fn blank() -> Seq<u8> {
    Seq::new(512, |k: int| 0u8)
}

/// A blank header with the marks of the GNU format.
pub open spec fn blank_gnu() -> Seq<u8> {
    with_field(blank(), 257, gnu_magic())
}

/// A blank header with the marks of the UStar format.
pub open spec fn blank_ustar() -> Seq<u8> {
    with_field(blank(), 257, ustar_magic())
}

/// The number in a field, cut to 32 bits.
pub open spec fn octal_u32(field: Seq<u8>) -> Result<u32, TarError> {
    match octal(field) {
        Ok(v) => Ok(v as u32),
        Err(e) => Err(e),
    }
}

/// A header with a number in the field between `lo` and `hi`.
pub open spec fn with_octal(h: Seq<u8>, lo: int, hi: int, value: int) -> Seq<u8> {
    with_field(h, lo, octal_field(h.subrange(lo, hi), value))
}

/// The sum of some bytes.
pub open spec fn byte_sum(s: Seq<u8>) -> int
    decreases s.len(),
{
    if s.len() == 0 {
        0
    } else {
        byte_sum(s.drop_last()) + s.last()
    }
}

/// A header whose checksum field is blank.
pub open spec fn without_cksum(h: Seq<u8>) -> Seq<u8> {
    with_field(h, 148, Seq::new(8, |k: int| 32u8))
}

/// The checksum of a header: the sum of its bytes, with blanks for the checksum field.
pub open spec fn checksum(h: Seq<u8>) -> int {
    byte_sum(without_cksum(h))
}

/// A header with its checksum filled in.
pub open spec fn with_cksum(h: Seq<u8>) -> Seq<u8> {
    with_octal(without_cksum(h), 148, 156, checksum(h))
}

/// The path in a header: the name, behind the prefix and a slash if a UStar header has
/// a prefix. Backslashes are read as slashes.
pub open spec fn header_path(h: Seq<u8>) -> Seq<u8> {
    let name = slashed(truncated(h.subrange(0, 100)));
    let prefix = slashed(truncated(h.subrange(345, 500)));
    if is_ustar(h) && prefix.len() > 0 {
        prefix.push(47u8) + name
    } else {
        name
    }
}

/// The link name in a header, if there is one. Backslashes are read as slashes.
pub open spec fn header_link(h: Seq<u8>) -> Option<Seq<u8>> {
    if h[157] == 0 {
        None
    } else {
        Some(slashed(truncated(h.subrange(157, 257))))
    }
}

/// Where a path that is longer than the name field is split: the longest of its proper
/// parents that has room in the prefix field.
pub open spec fn split_parent(p: Seq<u8>) -> Option<Seq<u8>>
    decreases p.len(),
{
    match parent_of(p) {
        None => None,
        Some(q) => if q.len() <= 155 {
            Some(q)
        } else if q.len() < p.len() {
            split_parent(q)
        } else {
            None
        },
    }
}

/// The name and prefix fields of a UStar header after a path was set, and the outcome.
///
/// The prefix is emptied if the name field holds the whole path.
pub open spec fn ustar_path_stored(name: Seq<u8>, prefix: Seq<u8>, p: Seq<u8>) -> (
    (Seq<u8>, Seq<u8>),
    Result<(), TarError>,
) {
    if p.len() <= 100 {
        let (field, r) = path_stored(name, p, false);
        (
            (
                field,
                if r is Ok {
                    stored_at(prefix, 0, Seq::empty())
                } else {
                    prefix
                },
            ),
            r,
        )
    } else {
        match split_parent(p) {
            None => ((name, prefix), Err(TarError::PathNotSplittable)),
            Some(q) => {
                let (first, r) = path_stored(prefix, q, false);
                if r is Err {
                    ((name, first), r)
                } else {
                    let (second, s) = path_stored(name, p.skip((q.len() + 1) as int), false);
                    ((second, first), s)
                }
            },
        }
    }
}

/// A header after a path was set, and the outcome.
pub open spec fn header_path_stored(h: Seq<u8>, p: Seq<u8>) -> (Seq<u8>, Result<(), TarError>) {
    let name = h.subrange(0, 100);
    if is_ustar(h) {
        let ((first, second), r) = ustar_path_stored(name, h.subrange(345, 500), p);
        (with_field(with_field(h, 0, first), 345, second), r)
    } else {
        let (field, r) = path_stored(name, p, false);
        (with_field(h, 0, field), r)
    }
}

/// A header after a link name was set, and the outcome.
pub open spec fn header_link_stored(h: Seq<u8>, p: Seq<u8>) -> (Seq<u8>, Result<(), TarError>) {
    let (field, r) = path_stored(h.subrange(157, 257), p, true);
    (with_field(h, 157, field), r)
}

/// The type that the type bits of a mode stand for.
pub open spec fn type_of_mode(mode: u32) -> EntryType {
    let bits = mode & S_IFMT;
    if bits == S_IFREG {
        EntryType::Regular
    } else if bits == S_IFLNK {
        EntryType::Symlink
    } else if bits == S_IFCHR {
        EntryType::Char
    } else if bits == S_IFBLK {
        EntryType::Block
    } else if bits == S_IFDIR {
        EntryType::Directory
    } else if bits == S_IFIFO {
        EntryType::Fifo
    } else {
        EntryType::Other(32)
    }
}

/// A header with the given owner, group, time, mode and type.
pub open spec fn with_attributes(
    h: Seq<u8>,
    mtime: u64,
    uid: u32,
    gid: u32,
    mode: u32,
    entry_type: EntryType,
) -> Seq<u8> {
    let h = with_octal(h, 136, 148, mtime as int);
    let h = with_octal(h, 108, 116, uid as int);
    let h = with_octal(h, 116, 124, gid as int);
    let h = with_octal(h, 100, 108, mode as int);
    with_field(h, 156, seq![entry_type.byte()])
}

/// A header with the size and no device numbers, where its format has such fields.
pub open spec fn with_size_no_device(h: Seq<u8>, size: u64) -> Seq<u8> {
    let h = with_octal(h, 124, 136, size as int);
    if is_ustar(h) || is_gnu(h) {
        with_octal(with_octal(h, 329, 337, 0), 337, 345, 0)
    } else {
        h
    }
}

/// A header filled from the metadata of a file.
pub open spec fn with_metadata(h: Seq<u8>, meta: Metadata, mode: HeaderMode) -> Seq<u8> {
    let is_dir = meta.file_type() == S_IFDIR;
    let kind = type_of_mode(meta.mode);
    let h = match mode {
        HeaderMode::Complete => with_attributes(
            h,
            meta.mtime as u64,
            meta.uid,
            meta.gid,
            meta.mode,
            kind,
        ),
        HeaderMode::Deterministic => with_attributes(
            h,
            0,
            0,
            0,
            if is_dir || meta.mode & 0o100 == 0o100 {
                0o755
            } else {
                0o644
            },
            kind,
        ),
    };
    with_size_no_device(
        h,
        if is_dir {
            0
        } else {
            meta.len
        },
    )
}

/// Adds up some bytes.
fn sum_bytes(s: &[u8]) -> (r: u32)
    requires
        s@.len() <= 512,
    ensures
        r == byte_sum(s@),
{
    let mut sum: u32 = 0;
    let mut i: usize = 0;
    while i < s.len()
        invariant
            i <= s@.len() <= 512,
            sum == byte_sum(s@.take(i as int)),
            sum <= 255 * i,
        decreases s@.len() - i,
    {
        assert(s@.take(i + 1).drop_last() =~= s@.take(i as int));
        sum = sum + s[i] as u32;
        i = i + 1;
    }
    assert(s@.take(i as int) =~= s@);
    sum
}

/// Reads the path from the name and prefix fields of a UStar header.
pub(crate) fn ustar_path(name: &[u8], prefix: &[u8]) -> (r: Vec<u8>)
    ensures
        r@ == {
            let n = slashed(truncated(name@));
            let p = slashed(truncated(prefix@));
            if p.len() > 0 {
                p.push(47u8) + n
            } else {
                n
            }
        },
{
    let mut r: Vec<u8> = Vec::new();
    let first: &[u8] = truncate(prefix);
    if first.len() > 0 {
        extend_slashed(&mut r, first);
        assert(r@ =~= slashed(first@));
        r.push(47);
    }
    extend_slashed(&mut r, truncate(name));
    assert(first@.len() == 0 ==> r@ =~= slashed(truncated(name@)));
    r
}

/// Finds the longest proper parent of a path that has room in the prefix field.
fn split_front(path: &[u8]) -> (r: Option<&[u8]>)
    ensures
        match r {
            Some(q) => split_parent(path@) == Some(q@) && q@.len() < path@.len(),
            None => split_parent(path@) is None,
        },
{
    let mut front: &[u8] = path;
    loop
        invariant
            split_parent(front@) == split_parent(path@),
            front@.len() <= path@.len(),
        decreases front@.len(),
    {
        match parent(front) {
            Some(up) => {
                if up.len() <= 155 {
                    return Some(up);
                }
                front = up;
            },
            None => {
                return None;
            },
        }
    }
}

/// Stores a path in the name and prefix fields of a UStar header.
///
/// A path that has room in `name` goes there, and `prefix` is emptied. Any other is split between two of its
/// components: enough of them are peeled off its end for the rest to have room in
/// `prefix`, and what was peeled off goes to `name`.
pub(crate) fn ustar_set_path(name: &mut [u8], prefix: &mut [u8], path: &[u8]) -> (r: Result<
    (),
    TarError,
>)
    ensures
        ((final(name)@, final(prefix)@), r) == ustar_path_stored(
            old(name)@,
            old(prefix)@,
            path@,
        ),
{
    if path.len() <= 100 {
        match copy_path_into(name, path, false) {
            Ok(()) => {},
            Err(e) => {
                return Err(e);
            },
        }
        let none: &[u8] = slice_subrange(path, 0, 0);
        assert(none@ =~= Seq::empty());
        return match copy_into(prefix, 0, none) {
            Ok(()) => Ok(()),
            Err(e) => Err(e),
        };
    }
    let front: &[u8] = match split_front(path) {
        Some(front) => front,
        None => {
            return Err(TarError::PathNotSplittable);
        },
    };
    match copy_path_into(prefix, front, false) {
        Ok(()) => {},
        Err(e) => {
            return Err(e);
        },
    }
    let rest: &[u8] = slice_subrange(path, front.len() + 1, path.len());
    assert(rest@ =~= path@.skip((front@.len() + 1) as int));
    copy_path_into(name, rest, false)
}

impl Clone for Header {
    fn clone(&self) -> (r: Header)
        ensures
            r@ == self@,
    {
        Header { bytes: self.bytes }
    }
}

impl Header {
    /// Creates a new blank GNU header.
    ///
    /// The GNU format is the default of this library. It allows various extensions, such
    /// as long path names, long link names and access times.
    pub fn new_gnu() -> (r: Header)
        ensures
            r@ == blank_gnu(),
    {
        let mut h: Header = Header::new_old();
        h.set_magic([117, 115, 116, 97, 114, 32, 32, 0]);
        assert(h@ =~= blank_gnu());
        h
    }

    /// Creates a new blank UStar header.
    ///
    /// The UStar format adds some metadata to the old one, and room for a longer path name.
    pub fn new_ustar() -> (r: Header)
        ensures
            r@ == blank_ustar(),
    {
        let mut h: Header = Header::new_old();
        h.set_magic([117, 115, 116, 97, 114, 0, 48, 48]);
        assert(h@ =~= blank_ustar());
        h
    }

    /// Creates a new blank header in the oldest format, of which all others are extensions.
    pub fn new_old() -> (r: Header)
        ensures
            r@ == blank(),
    {
        let r: Header = Header { bytes: [0;512] };
        assert(r@ =~= blank());
        r
    }

    /// Makes a header of a block of an archive.
    pub(crate) fn from_block(block: &[u8]) -> (r: Header)
        requires
            block@.len() == 512,
        ensures
            r@ == block@,
    {
        let mut r: Header = Header::new_old();
        let mut i: usize = 0;
        while i < 512
            invariant
                i <= 512,
                block@.len() == 512,
                forall|k: int| 0 <= k < i ==> #[trigger] r.bytes@[k] == block@[k],
            decreases 512 - i,
        {
            r.bytes[i] = block[i];
            i = i + 1;
        }
        assert(r@ =~= block@);
        r
    }

    fn set_magic(&mut self, magic: [u8; 8])
        ensures
            final(self)@ == with_field(old(self)@, 257, magic@),
    {
        let ghost before = self@;
        let mut i: usize = 0;
        while i < 8
            invariant
                i <= 8,
                forall|k: int|
                    0 <= k < 512 ==> #[trigger] self.bytes@[k] == if 257 <= k < 257 + i {
                        magic@[k - 257]
                    } else {
                        before[k]
                    },
                before.len() == 512,
            decreases 8 - i,
        {
            self.bytes[257 + i] = magic[i];
            i = i + 1;
        }
        assert(self@ =~= with_field(before, 257, magic@));
    }

    pub(crate) fn is_ustar(&self) -> (r: bool)
        ensures
            r == is_ustar(self@),
    {
        let b: &[u8; 512] = &self.bytes;
        let r: bool = b[257] == 117 && b[258] == 115 && b[259] == 116 && b[260] == 97 && b[261]
            == 114 && b[262] == 0 && b[263] == 48 && b[264] == 48;
        proof {
            let s = self@.subrange(257, 265);
            if r {
                assert(s =~= ustar_magic());
            } else if s == ustar_magic() {
                assert(s[0] == 117 && s[1] == 115 && s[2] == 116 && s[3] == 97 && s[4] == 114
                    && s[5] == 0 && s[6] == 48 && s[7] == 48);
            }
        }
        r
    }

    pub(crate) fn is_gnu(&self) -> (r: bool)
        ensures
            r == is_gnu(self@),
    {
        let b: &[u8; 512] = &self.bytes;
        let r: bool = b[257] == 117 && b[258] == 115 && b[259] == 116 && b[260] == 97 && b[261]
            == 114 && b[262] == 32 && b[263] == 32 && b[264] == 0;
        proof {
            let s = self@.subrange(257, 265);
            if r {
                assert(s =~= gnu_magic());
            } else if s == gnu_magic() {
                assert(s[0] == 117 && s[1] == 115 && s[2] == 116 && s[3] == 97 && s[4] == 114
                    && s[5] == 32 && s[6] == 32 && s[7] == 0);
            }
        }
        r
    }

    /// Returns the header as it stands in the archive.
    pub fn as_bytes(&self) -> (r: &[u8; 512])
        ensures
            r@ == self@,
    {
        &self.bytes
    }

    /// Returns the header as it stands in the archive, for writing.
    pub fn as_mut_bytes(&mut self) -> (r: &mut [u8; 512])
        ensures
            r@ == old(self)@,
            final(self)@ == final(r)@,
    {
        &mut self.bytes
    }

    /// Borrows one field.
    pub(crate) fn field(&self, lo: usize, hi: usize) -> (r: &[u8])
        requires
            lo <= hi <= 512,
        ensures
            r@ == self@.subrange(lo as int, hi as int),
    {
        slice_subrange(self.bytes.as_slice(), lo, hi)
    }

    /// Writes a number to the field between `lo` and `hi`.
    pub(crate) fn set_octal(&mut self, lo: usize, hi: usize, value: u64)
        requires
            lo <= hi <= 512,
        ensures
            final(self)@ == with_octal(old(self)@, lo as int, hi as int, value as int),
    {
        let field: &mut [u8] = field_mut(&mut self.bytes, lo, hi - lo);
        octal_into(field, value);
    }

    /// Reads the number in the field between `lo` and `hi`, cut to 32 bits.
    fn octal_u32(&self, lo: usize, hi: usize) -> (r: Result<u32, TarError>)
        requires
            lo <= hi <= 512,
        ensures
            r == octal_u32(self@.subrange(lo as int, hi as int)),
    {
        match octal_from(self.field(lo, hi)) {
            Ok(v) => Ok(v as u32),
            Err(e) => Err(e),
        }
    }

    /// Fills in the metadata of a file.
    ///
    /// All supported metadata is taken: see `HeaderMode::Complete`.
    pub fn set_metadata(&mut self, meta: &Metadata)
        ensures
            final(self)@ == with_metadata(old(self)@, *meta, HeaderMode::Complete),
    {
        self.fill_from(meta, HeaderMode::Complete);
    }

    /// Fills in the metadata of a file, as far as the mode asks for it.
    pub fn set_metadata_in_mode(&mut self, meta: &Metadata, mode: HeaderMode)
        ensures
            final(self)@ == with_metadata(old(self)@, *meta, mode),
    {
        self.fill_from(meta, mode);
    }

    /// Returns the number of bytes that the archive holds for this entry.
    ///
    /// A sparse file has fewer bytes in the archive than the file itself: see `size`.
    pub fn entry_size(&self) -> (r: Result<u64, TarError>)
        ensures
            r == octal(self@.subrange(124, 136)),
    {
        octal_from(self.field(124, 136))
    }

    /// Returns the size of the file that this header describes.
    pub fn size(&self) -> (r: Result<u64, TarError>)
        ensures
            r == if self@[156] == 83 {
                if is_gnu(self@) {
                    octal(self@.subrange(483, 495))
                } else {
                    Err(TarError::SparseNotGnu)
                }
            } else {
                octal(self@.subrange(124, 136))
            },
    {
        if self.entry_type().is_gnu_sparse() {
            if self.is_gnu() {
                octal_from(self.field(483, 495))
            } else {
                Err(TarError::SparseNotGnu)
            }
        } else {
            self.entry_size()
        }
    }

    /// Sets the number of bytes that the archive holds for this entry.
    pub fn set_size(&mut self, size: u64)
        ensures
            final(self)@ == with_octal(old(self)@, 124, 136, size as int),
    {
        self.set_octal(124, 136, size);
    }

    /// Returns the path stored in this header.
    ///
    /// Backslashes are converted to slashes.
    pub fn path(&self) -> (r: Result<Vec<u8>, TarError>)
        ensures
            r matches Ok(p) && p@ == header_path(self@),
    {
        Ok(self.path_bytes())
    }

    /// Returns the path stored in this header.
    ///
    /// Backslashes are converted to slashes.
    pub fn path_bytes(&self) -> (r: Vec<u8>)
        ensures
            r@ == header_path(self@),
    {
        if self.is_ustar() {
            ustar_path(self.field(0, 100), self.field(345, 500))
        } else {
            let mut r: Vec<u8> = Vec::new();
            extend_slashed(&mut r, truncate(self.field(0, 100)));
            assert(r@ =~= slashed(truncated(self@.subrange(0, 100))));
            r
        }
    }

    /// Sets the path of this header, in the encoding that its format has for it.
    ///
    /// Fails if the path is too long, holds a nul, starts at the root, holds `..` or has no
    /// component. A part of it may then have been written.
    pub fn set_path(&mut self, path: &[u8]) -> (r: Result<(), TarError>)
        ensures
            (final(self)@, r) == header_path_stored(old(self)@, path@),
    {
        let ghost h = self@;
        if self.is_ustar() {
            let all: &mut [u8] = &mut self.bytes;
            let (front, back) = all.split_at_mut(345);
            let (name, _) = front.split_at_mut(100);
            let (prefix, _) = back.split_at_mut(155);
            let r: Result<(), TarError> = ustar_set_path(name, prefix, path);
            assert(h.take(345).take(100) =~= h.subrange(0, 100));
            assert(h.skip(345).take(155) =~= h.subrange(345, 500));
            proof {
                lemma_ustar_path_stored(h.subrange(0, 100), h.subrange(345, 500), path@);
            }
            assert(self@ =~= header_path_stored(h, path@).0);
            r
        } else {
            let field: &mut [u8] = field_mut(&mut self.bytes, 0, 100);
            copy_path_into(field, path, false)
        }
    }

    /// Returns the link name stored in this header, if there is one.
    ///
    /// Backslashes are converted to slashes.
    pub fn link_name(&self) -> (r: Result<Option<Vec<u8>>, TarError>)
        ensures
            match header_link(self@) {
                Some(link) => r matches Ok(Some(p)) && p@ == link,
                None => r == Ok::<Option<Vec<u8>>, TarError>(None),
            },
    {
        Ok(self.link_name_bytes())
    }

    /// Returns the link name stored in this header, if there is one.
    ///
    /// Backslashes are converted to slashes.
    pub fn link_name_bytes(&self) -> (r: Option<Vec<u8>>)
        ensures
            match header_link(self@) {
                Some(link) => r matches Some(p) && p@ == link,
                None => r is None,
            },
    {
        if self.bytes[157] != 0 {
            let mut r: Vec<u8> = Vec::new();
            extend_slashed(&mut r, truncate(self.field(157, 257)));
            assert(r@ =~= slashed(truncated(self@.subrange(157, 257))));
            Some(r)
        } else {
            None
        }
    }

    /// Sets the link name of this header.
    ///
    /// Fails if the name is too long, holds a nul or has no component. A part of it may
    /// then have been written.
    pub fn set_link_name(&mut self, path: &[u8]) -> (r: Result<(), TarError>)
        ensures
            (final(self)@, r) == header_link_stored(old(self)@, path@),
    {
        let field: &mut [u8] = field_mut(&mut self.bytes, 157, 100);
        copy_path_into(field, path, true)
    }

    /// Returns the mode bits of the file.
    pub fn mode(&self) -> (r: Result<u32, TarError>)
        ensures
            r == octal_u32(self@.subrange(100, 108)),
    {
        self.octal_u32(100, 108)
    }

    /// Sets the mode bits of the file.
    pub fn set_mode(&mut self, mode: u32)
        ensures
            final(self)@ == with_octal(old(self)@, 100, 108, mode as int),
    {
        self.set_octal(100, 108, mode as u64);
    }

    /// Returns the ID of the owner.
    pub fn uid(&self) -> (r: Result<u32, TarError>)
        ensures
            r == octal_u32(self@.subrange(108, 116)),
    {
        self.octal_u32(108, 116)
    }

    /// Sets the ID of the owner.
    pub fn set_uid(&mut self, uid: u32)
        ensures
            final(self)@ == with_octal(old(self)@, 108, 116, uid as int),
    {
        self.set_octal(108, 116, uid as u64);
    }

    /// Returns the ID of the group.
    pub fn gid(&self) -> (r: Result<u32, TarError>)
        ensures
            r == octal_u32(self@.subrange(116, 124)),
    {
        self.octal_u32(116, 124)
    }

    /// Sets the ID of the group.
    pub fn set_gid(&mut self, gid: u32)
        ensures
            final(self)@ == with_octal(old(self)@, 116, 124, gid as int),
    {
        self.set_octal(116, 124, gid as u64);
    }

    /// Returns the modification time, in seconds since 1970.
    pub fn mtime(&self) -> (r: Result<u64, TarError>)
        ensures
            r == octal(self@.subrange(136, 148)),
    {
        octal_from(self.field(136, 148))
    }

    /// Sets the modification time, in seconds since 1970.
    pub fn set_mtime(&mut self, mtime: u64)
        ensures
            final(self)@ == with_octal(old(self)@, 136, 148, mtime as int),
    {
        self.set_octal(136, 148, mtime);
    }

    /// Returns the name of the owner.
    ///
    /// `None` means that the format of this header has no such field.
    pub fn username(&self) -> (r: Result<Option<&str>, TarError>)
        ensures
            if is_ustar(self@) || is_gnu(self@) {
                let text = truncated(self@.subrange(265, 297));
                if valid_utf8(text) {
                    r matches Ok(Some(s)) && encode_utf8(s@) == text
                } else {
                    r == Err::<Option<&str>, TarError>(TarError::TextNotUtf8)
                }
            } else {
                r == Ok::<Option<&str>, TarError>(None)
            },
    {
        match self.username_bytes() {
            Some(bytes) => match utf8_text(bytes) {
                Some(s) => Ok(Some(s)),
                None => Err(TarError::TextNotUtf8),
            },
            None => Ok(None),
        }
    }

    /// Returns the name of the owner.
    ///
    /// `None` means that the format of this header has no such field.
    pub fn username_bytes(&self) -> (r: Option<&[u8]>)
        ensures
            if is_ustar(self@) || is_gnu(self@) {
                r matches Some(s) && s@ == truncated(self@.subrange(265, 297))
            } else {
                r is None
            },
    {
        if self.is_ustar() || self.is_gnu() {
            Some(truncate(self.field(265, 297)))
        } else {
            None
        }
    }

    /// Sets the name of the owner.
    ///
    /// Fails, and changes nothing, if the format of this header has no such field, or if
    /// the name is too long or holds a nul.
    pub fn set_username(&mut self, name: &str) -> (r: Result<(), TarError>)
        ensures
            if is_ustar(old(self)@) || is_gnu(old(self)@) {
                match store_error(32, encode_utf8(name@)) {
                    Some(e) => r == Err::<(), TarError>(e) && final(self)@ == old(self)@,
                    None => r is Ok && final(self)@ == with_field(
                        old(self)@,
                        265,
                        stored_at(old(self)@.subrange(265, 297), 0, encode_utf8(name@)),
                    ),
                }
            } else {
                r == Err::<(), TarError>(TarError::NoUsername) && final(self)@ == old(self)@
            },
    {
        if self.is_ustar() || self.is_gnu() {
            let ghost h = self@;
            let field: &mut [u8] = field_mut(&mut self.bytes, 265, 32);
            let r: Result<(), TarError> = copy_into(field, 0, name.as_bytes());
            assert(r is Err ==> self@ =~= h);
            r
        } else {
            Err(TarError::NoUsername)
        }
    }

    /// Returns the name of the group.
    ///
    /// `None` means that the format of this header has no such field.
    pub fn groupname(&self) -> (r: Result<Option<&str>, TarError>)
        ensures
            if is_ustar(self@) || is_gnu(self@) {
                let text = truncated(self@.subrange(297, 329));
                if valid_utf8(text) {
                    r matches Ok(Some(s)) && encode_utf8(s@) == text
                } else {
                    r == Err::<Option<&str>, TarError>(TarError::TextNotUtf8)
                }
            } else {
                r == Ok::<Option<&str>, TarError>(None)
            },
    {
        match self.groupname_bytes() {
            Some(bytes) => match utf8_text(bytes) {
                Some(s) => Ok(Some(s)),
                None => Err(TarError::TextNotUtf8),
            },
            None => Ok(None),
        }
    }

    /// Returns the name of the group.
    ///
    /// `None` means that the format of this header has no such field.
    pub fn groupname_bytes(&self) -> (r: Option<&[u8]>)
        ensures
            if is_ustar(self@) || is_gnu(self@) {
                r matches Some(s) && s@ == truncated(self@.subrange(297, 329))
            } else {
                r is None
            },
    {
        if self.is_ustar() || self.is_gnu() {
            Some(truncate(self.field(297, 329)))
        } else {
            None
        }
    }

    /// Sets the name of the group.
    ///
    /// Fails, and changes nothing, if the format of this header has no such field, or if
    /// the name is too long or holds a nul.
    pub fn set_groupname(&mut self, name: &str) -> (r: Result<(), TarError>)
        ensures
            if is_ustar(old(self)@) || is_gnu(old(self)@) {
                match store_error(32, encode_utf8(name@)) {
                    Some(e) => r == Err::<(), TarError>(e) && final(self)@ == old(self)@,
                    None => r is Ok && final(self)@ == with_field(
                        old(self)@,
                        297,
                        stored_at(old(self)@.subrange(297, 329), 0, encode_utf8(name@)),
                    ),
                }
            } else {
                r == Err::<(), TarError>(TarError::NoGroupname) && final(self)@ == old(self)@
            },
    {
        if self.is_ustar() || self.is_gnu() {
            let ghost h = self@;
            let field: &mut [u8] = field_mut(&mut self.bytes, 297, 32);
            let r: Result<(), TarError> = copy_into(field, 0, name.as_bytes());
            assert(r is Err ==> self@ =~= h);
            r
        } else {
            Err(TarError::NoGroupname)
        }
    }

    /// Returns the major device number.
    ///
    /// `None` means that the format of this header has no such field.
    pub fn device_major(&self) -> (r: Result<Option<u32>, TarError>)
        ensures
            r == if is_ustar(self@) || is_gnu(self@) {
                match octal_u32(self@.subrange(329, 337)) {
                    Ok(v) => Ok(Some(v)),
                    Err(e) => Err(e),
                }
            } else {
                Ok(None)
            },
    {
        if self.is_ustar() || self.is_gnu() {
            match self.octal_u32(329, 337) {
                Ok(v) => Ok(Some(v)),
                Err(e) => Err(e),
            }
        } else {
            Ok(None)
        }
    }

    /// Sets the major device number.
    ///
    /// Fails, and changes nothing, if the format of this header has no such field.
    pub fn set_device_major(&mut self, major: u32) -> (r: Result<(), TarError>)
        ensures
            if is_ustar(old(self)@) || is_gnu(old(self)@) {
                r is Ok && final(self)@ == with_octal(old(self)@, 329, 337, major as int)
            } else {
                r == Err::<(), TarError>(TarError::NoDevMajor) && final(self)@ == old(self)@
            },
    {
        if self.is_ustar() || self.is_gnu() {
            self.set_octal(329, 337, major as u64);
            Ok(())
        } else {
            Err(TarError::NoDevMajor)
        }
    }

    /// Returns the minor device number.
    ///
    /// `None` means that the format of this header has no such field.
    pub fn device_minor(&self) -> (r: Result<Option<u32>, TarError>)
        ensures
            r == if is_ustar(self@) || is_gnu(self@) {
                match octal_u32(self@.subrange(337, 345)) {
                    Ok(v) => Ok(Some(v)),
                    Err(e) => Err(e),
                }
            } else {
                Ok(None)
            },
    {
        if self.is_ustar() || self.is_gnu() {
            match self.octal_u32(337, 345) {
                Ok(v) => Ok(Some(v)),
                Err(e) => Err(e),
            }
        } else {
            Ok(None)
        }
    }

    /// Sets the minor device number.
    ///
    /// Fails, and changes nothing, if the format of this header has no such field.
    pub fn set_device_minor(&mut self, minor: u32) -> (r: Result<(), TarError>)
        ensures
            if is_ustar(old(self)@) || is_gnu(old(self)@) {
                r is Ok && final(self)@ == with_octal(old(self)@, 337, 345, minor as int)
            } else {
                r == Err::<(), TarError>(TarError::NoDevMinor) && final(self)@ == old(self)@
            },
    {
        if self.is_ustar() || self.is_gnu() {
            self.set_octal(337, 345, minor as u64);
            Ok(())
        } else {
            Err(TarError::NoDevMinor)
        }
    }

    /// Returns the type of file that this header describes.
    pub fn entry_type(&self) -> (r: EntryType)
        ensures
            r == type_of(self@[156]),
            r.byte() == self@[156],
    {
        EntryType::new(self.bytes[156])
    }

    /// Sets the type of file that this header describes.
    pub fn set_entry_type(&mut self, entry_type: EntryType)
        ensures
            final(self)@ == with_field(old(self)@, 156, seq![entry_type.byte()]),
    {
        let ghost h = self@;
        self.bytes[156] = entry_type.as_byte();
        assert(self@ =~= with_field(h, 156, seq![entry_type.byte()]));
    }

    /// Returns the checksum that is stored in this header.
    pub fn cksum(&self) -> (r: Result<u32, TarError>)
        ensures
            r == octal_u32(self@.subrange(148, 156)),
    {
        self.octal_u32(148, 156)
    }

    /// Computes the checksum of this header as it stands.
    pub(crate) fn compute_cksum(&self) -> (r: u32)
        ensures
            r == checksum(self@),
    {
        let mut copy: Header = self.clone();
        copy.blank_cksum();
        sum_bytes(copy.bytes.as_slice())
    }

    fn blank_cksum(&mut self)
        ensures
            final(self)@ == without_cksum(old(self)@),
    {
        let ghost h = self@;
        let mut i: usize = 148;
        while i < 156
            invariant
                148 <= i <= 156,
                h.len() == 512,
                forall|k: int|
                    0 <= k < 512 ==> #[trigger] self.bytes@[k] == if 148 <= k < i {
                        32
                    } else {
                        h[k]
                    },
            decreases 156 - i,
        {
            self.bytes[i] = 32;
            i = i + 1;
        }
        assert(self@ =~= without_cksum(h));
    }

    /// Fills in the checksum of this header as it stands.
    pub fn set_cksum(&mut self)
        ensures
            final(self)@ == with_cksum(old(self)@),
    {
        self.blank_cksum();
        let cksum: u32 = sum_bytes(self.bytes.as_slice());
        self.set_octal(148, 156, cksum as u64);
    }

    fn fill_from(&mut self, meta: &Metadata, mode: HeaderMode)
        ensures
            final(self)@ == with_metadata(old(self)@, *meta, mode),
    {
        self.fill_platform_from(meta, mode);
        let size: u64 = if meta.is_dir() {
            0
        } else {
            meta.len
        };
        self.fill_size_no_device(size);
    }

    /// Sets the size, and the device numbers to zero where the format has them.
    pub(crate) fn fill_size_no_device(&mut self, size: u64)
        ensures
            final(self)@ == with_size_no_device(old(self)@, size),
    {
        self.set_size(size);
        if self.is_ustar() || self.is_gnu() {
            self.set_octal(329, 337, 0);
            self.set_octal(337, 345, 0);
        }
    }

    fn fill_platform_from(&mut self, meta: &Metadata, mode: HeaderMode)
        ensures
            final(self)@ == match mode {
                HeaderMode::Complete => with_attributes(
                    old(self)@,
                    meta.mtime as u64,
                    meta.uid,
                    meta.gid,
                    meta.mode,
                    type_of_mode(meta.mode),
                ),
                HeaderMode::Deterministic => with_attributes(
                    old(self)@,
                    0,
                    0,
                    0,
                    if meta.file_type() == S_IFDIR || meta.mode & 0o100 == 0o100 {
                        0o755
                    } else {
                        0o644
                    },
                    type_of_mode(meta.mode),
                ),
            },
    {
        match mode {
            HeaderMode::Complete => {
                self.set_mtime(meta.mtime as u64);
                self.set_uid(meta.uid);
                self.set_gid(meta.gid);
                self.set_mode(meta.mode);
            },
            HeaderMode::Deterministic => {
                self.set_mtime(0);
                self.set_uid(0);
                self.set_gid(0);
                // A default mask, but the execute bit of the owner is kept.
                let fs_mode: u32 = if meta.is_dir() || meta.mode & 0o100 == 0o100 {
                    0o755
                } else {
                    0o644
                };
                self.set_mode(fs_mode);
            },
        }
        // The access times are left alone: other programs do not expect them.
        let bits: u32 = meta.mode & S_IFMT;
        let kind: EntryType = if bits == S_IFREG {
            EntryType::file()
        } else if bits == S_IFLNK {
            EntryType::symlink()
        } else if bits == S_IFCHR {
            EntryType::character_special()
        } else if bits == S_IFBLK {
            EntryType::block_special()
        } else if bits == S_IFDIR {
            EntryType::dir()
        } else if bits == S_IFIFO {
            EntryType::fifo()
        } else {
            EntryType::new(32)
        };
        self.set_entry_type(kind);
    }
}

/// Setting a path keeps the widths of the fields.
pub(crate) proof fn lemma_ustar_path_stored(name: Seq<u8>, prefix: Seq<u8>, p: Seq<u8>)
    ensures
        ustar_path_stored(name, prefix, p).0.0.len() == name.len(),
        ustar_path_stored(name, prefix, p).0.1.len() == prefix.len(),
{
    lemma_path_stored_len(name, p, false);
    match split_parent(p) {
        Some(q) => {
            lemma_path_stored_len(prefix, q, false);
            lemma_path_stored_len(name, p.skip((q.len() + 1) as int), false);
        },
        None => {},
    }
}

} // verus!
