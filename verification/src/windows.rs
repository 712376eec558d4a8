//! What is different on Windows.

use crate::bytes::{extend_slashed, slashed, with_field};
use crate::entry_type::EntryType;
use crate::error::TarError;
use crate::header::{with_octal, with_size_no_device, Header, HeaderMode};
use crate::number::utf8_text;
use vstd::prelude::*;
use vstd::utf8::{encode_utf8, valid_utf8};

verus! {

/// What the file system says of a file on Windows.
#[derive(Clone, Copy, PartialEq, Eq, Debug, Structural)]
pub struct WindowsMetadata {
    /// Whether the file is a directory.
    pub is_dir: bool,
    /// Whether the file is a plain one.
    pub is_file: bool,
    /// Whether the file is a link.
    pub is_symlink: bool,
    /// The modification time, in tenths of microseconds since 1601.
    pub last_write_time: u64,
    /// The attributes.
    pub file_attributes: u32,
    /// The number of bytes in the file.
    pub len: u64,
}

/// The attribute of files that cannot be written to.
pub const FILE_ATTRIBUTE_READONLY: u32 = 1;

impl WindowsMetadata {
    /// The modification time, in seconds since 1970.
    pub open spec fn mtime(self) -> int {
        self.last_write_time as int / 10_000_000 - 11644473600
    }

    /// Whether the file cannot be written to.
    pub open spec fn is_readonly(self) -> bool {
        self.file_attributes & FILE_ATTRIBUTE_READONLY != 0
    }

    /// The mode bits that come closest.
    pub open spec fn mode(self, mode: HeaderMode) -> u32 {
        let writable = mode == HeaderMode::Deterministic || !self.is_readonly();
        if self.is_dir {
            if writable {
                0o755
            } else {
                0o555
            }
        } else {
            if writable {
                0o644
            } else {
                0o444
            }
        }
    }

    /// The type of the file.
    pub open spec fn entry_type(self) -> EntryType {
        if self.is_dir {
            EntryType::Directory
        } else if self.is_file {
            EntryType::Regular
        } else if self.is_symlink {
            EntryType::Symlink
        } else {
            EntryType::Other(32)
        }
    }
}

/// A header filled from the metadata of a file on Windows.
pub open spec fn with_windows_metadata(h: Seq<u8>, meta: WindowsMetadata, mode: HeaderMode) -> Seq<
    u8,
> {
    let mtime = if mode == HeaderMode::Complete {
        meta.mtime()
    } else {
        0
    };
    let h = with_octal(h, 108, 116, 0);
    let h = with_octal(h, 116, 124, 0);
    let h = with_octal(h, 136, 148, mtime);
    let h = with_octal(h, 100, 108, meta.mode(mode) as int);
    with_size_no_device(
        with_field(h, 156, seq![meta.entry_type().byte()]),
        if meta.is_dir {
            0
        } else {
            meta.len
        },
    )
}

impl Header {
    /// Fills this header from the metadata of a file on Windows.
    ///
    /// There are no owners and no mode bits on Windows; the modes that come closest are taken.
    /// A file that is older than 1970 has no time in an archive.
    pub fn set_windows_metadata(&mut self, meta: &WindowsMetadata, mode: HeaderMode)
        requires
            mode == HeaderMode::Complete ==> meta.mtime() >= 0,
        ensures
            final(self)@ == with_windows_metadata(old(self)@, *meta, mode),
    {
        self.set_uid(0);
        self.set_gid(0);
        match mode {
            HeaderMode::Complete => {
                let mtime: u64 = meta.last_write_time / 10_000_000 - 11644473600;
                self.set_mtime(mtime);
                let readonly: bool = meta.file_attributes & FILE_ATTRIBUTE_READONLY != 0;
                let bits: u32 = match (meta.is_dir, readonly) {
                    (true, false) => 0o755,
                    (true, true) => 0o555,
                    (false, false) => 0o644,
                    (false, true) => 0o444,
                };
                self.set_mode(bits);
            },
            HeaderMode::Deterministic => {
                self.set_mtime(0);
                let bits: u32 = if meta.is_dir {
                    0o755
                } else {
                    0o644
                };
                self.set_mode(bits);
            },
        }
        let kind: EntryType = if meta.is_dir {
            EntryType::dir()
        } else if meta.is_file {
            EntryType::file()
        } else if meta.is_symlink {
            EntryType::symlink()
        } else {
            EntryType::new(32)
        };
        self.set_entry_type(kind);
        let size: u64 = if meta.is_dir {
            0
        } else {
            meta.len
        };
        self.fill_size_no_device(size);
    }
}

/// Returns whether a path ends in a separator.
pub fn ends_with_separator(wide: &[u16]) -> (r: bool)
    ensures
        r == (wide@.len() > 0 && (wide@.last() == 47 || wide@.last() == 92)),
{
    wide.len() > 0 && (wide[wide.len() - 1] == 47 || wide[wide.len() - 1] == 92)
}

/// Returns the bytes of a path as they stand in archives, with slashes for backslashes.
///
/// `text` is the path as text. A path that is not text cannot be archived.
pub fn path2bytes(text: Option<&str>) -> (r: Result<Vec<u8>, TarError>)
    ensures
        match text {
            Some(s) => r matches Ok(b) && b@ == slashed(encode_utf8(s@)),
            None => r == Err::<Vec<u8>, TarError>(TarError::PathNotUnicode),
        },
{
    match text {
        Some(s) => {
            let mut r: Vec<u8> = Vec::new();
            extend_slashed(&mut r, s.as_bytes());
            assert(r@ =~= slashed(encode_utf8(s@)));
            Ok(r)
        },
        None => Err(TarError::PathNotUnicode),
    }
}

/// Returns the path that some bytes of an archive stand for. They must be text.
pub fn bytes2path(bytes: &[u8]) -> (r: Result<&str, TarError>)
    ensures
        if valid_utf8(bytes@) {
            r matches Ok(s) && encode_utf8(s@) == bytes@
        } else {
            r == Err::<&str, TarError>(TarError::OnlyUnicodePaths)
        },
{
    match utf8_text(bytes) {
        Some(s) => Ok(s),
        None => Err(TarError::OnlyUnicodePaths),
    }
}

/// Returns whether a file with the given mode bits is made unwritable.
pub fn is_unpacked_readonly(mode: u32) -> (r: bool)
    ensures
        r == (mode & 0o200 != 0o200),
{
    mode & 0o200 != 0o200
}

} // verus!
