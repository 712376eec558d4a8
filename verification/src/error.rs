//! The library's error type.

use vstd::prelude::*;

verus! {

/// What can go wrong when archives are read, written or unpacked.
#[derive(Debug, Clone, PartialEq, Eq)]
pub enum TarError {
    /// A numeric field holds bytes that are not UTF-8 text.
    NumericNotUtf8,
    /// A numeric field does not hold a number.
    NumericInvalid,
    /// A value does not fit in its field.
    ValueTooLong,
    /// A value holds a nul byte.
    ValueHasNul,
    /// A stored path would start at the root.
    PathNotRelative,
    /// A stored path would hold a `..` component.
    PathHasParent,
    /// A stored path would have no component.
    PathEmpty,
    /// A long path has no separator at which it fits in two fields.
    PathNotSplittable,
    /// A path is not Unicode text.
    PathNotUnicode,
    /// Stored path bytes are not Unicode text.
    OnlyUnicodePaths,
    /// A stored name is not UTF-8 text.
    TextNotUtf8,
    /// A sparse entry is described by a header that is not a GNU header.
    SparseNotGnu,
    /// The header format has no user name field.
    NoUsername,
    /// The header format has no group name field.
    NoGroupname,
    /// The header format has no major device number field.
    NoDevMajor,
    /// The header format has no minor device number field.
    NoDevMinor,
    /// Iteration was asked for after the archive had been read from.
    NotAtStart,
    /// The reader stands behind the next header.
    PositionOverflow,
    /// A header's checksum field does not match its bytes.
    ChecksumMismatch,
    /// An entry reaches past the largest position.
    SizeOverflow,
    /// The header parser asked for no new bytes.
    ShortRequest,
    /// A block of zeros is followed by something else.
    LoneZeroBlock,
    /// The archive ends inside an entry's headers.
    UnexpectedEof,
    /// The archive ends inside an entry's content.
    EofInSkip,
    /// The archive ends inside a block.
    EofInBlock,
    /// The distance to the next header is not a seek distance.
    SeekOutOfBounds,
    /// A sparse chunk follows one whose length is not a multiple of the block size.
    SparseUnaligned,
    /// Sparse chunks overlap or are out of order.
    SparseOverlap,
    /// A sparse chunk ends past the largest position.
    SparseTooLong,
    /// The sparse chunks hold more bytes than the entry.
    SparseOverrun,
    /// The sparse chunks do not end at the file's size.
    SparseSizeMismatch,
    /// The sparse chunks hold fewer bytes than the entry.
    SparseDataMismatch,
    /// A path is neither a file nor a directory.
    UnknownFileType,
    /// A path is a socket.
    Socket,
    /// A link entry names no target.
    LinkNameMissing,
    /// A link entry's target has no component.
    LinkNameEmpty,
    /// A path leads outside the directory that is unpacked into.
    OutsideDestination,
    /// An entry's content ended early.
    ShortWrite,
    /// A long name entry is the last one.
    LongnameNotFollowed,
    /// A pax record is malformed.
    PaxMalformed,
    /// The path to resolve has no component.
    EmptyPath,
    /// The path to resolve does not start at the root.
    RelativePath,
    /// Too many symbolic links were followed.
    TooManyLinks,
    /// No unused directory name was found.
    TooManyTempDirs,
    /// The header parser refused the bytes; the text says why.
    Parse(String),
}

impl TarError {
    /// The text that describes the error.
    pub open spec fn text(self) -> Seq<char> {
        match self {
            TarError::NumericNotUtf8 => "numeric field did not have utf-8 text"@,
            TarError::NumericInvalid => "numeric field was not a number"@,
            TarError::ValueTooLong => "provided value is too long"@,
            TarError::ValueHasNul => "provided value contains a nul byte"@,
            TarError::PathNotRelative => "paths in archives must be relative"@,
            TarError::PathHasParent => "paths in archives must not have `..`"@,
            TarError::PathEmpty => "paths in archives must have at least one component"@,
            TarError::PathNotSplittable => "path cannot be split to be inserted into archive"@,
            TarError::PathNotUnicode => "path was not valid unicode"@,
            TarError::OnlyUnicodePaths => "only unicode paths are supported on windows"@,
            TarError::TextNotUtf8 => "name was not valid utf-8"@,
            TarError::SparseNotGnu => "sparse header was not a gnu header"@,
            TarError::NoUsername => "not a ustar or gnu archive, cannot set username"@,
            TarError::NoGroupname => "not a ustar or gnu archive, cannot set groupname"@,
            TarError::NoDevMajor => "not a ustar or gnu archive, cannot set dev_major"@,
            TarError::NoDevMinor => "not a ustar or gnu archive, cannot set dev_minor"@,
            TarError::NotAtStart => "cannot call entries unless archive is at position 0"@,
            TarError::PositionOverflow => "archive position overflow"@,
            TarError::ChecksumMismatch => "archive header checksum mismatch"@,
            TarError::SizeOverflow => "size overflow"@,
            TarError::ShortRequest => "parser requested fewer bytes than already buffered"@,
            TarError::LoneZeroBlock => "found block of 0s not followed by a second block of 0s"@,
            TarError::UnexpectedEof => "unexpected EOF in archive"@,
            TarError::EofInSkip => "unexpected EOF during skip"@,
            TarError::EofInBlock => "failed to read entire block"@,
            TarError::SeekOutOfBounds => "seek position out of bounds"@,
            TarError::SparseUnaligned => {
                "previous block in sparse file was not aligned to 512-byte boundary"@
            },
            TarError::SparseOverlap => "out of order or overlapping sparse blocks"@,
            TarError::SparseTooLong => "more bytes listed in sparse file than u64 can hold"@,
            TarError::SparseOverrun => "sparse file consumed more data than the header listed"@,
            TarError::SparseSizeMismatch => "mismatch in sparse file chunks and size in header"@,
            TarError::SparseDataMismatch => {
                "mismatch in sparse file chunks and entry size in header"@
            },
            TarError::UnknownFileType => "path has unknown file type"@,
            TarError::Socket => "socket can not be archived"@,
            TarError::LinkNameMissing => "hard link listed but no link name found"@,
            TarError::LinkNameEmpty => "symlink destination is empty"@,
            TarError::OutsideDestination => {
                "symlink destination points outside unpack destination"@
            },
            TarError::ShortWrite => "failed to write entire file"@,
            TarError::LongnameNotFollowed => "longname entry not followed by another"@,
            TarError::PaxMalformed => "malformed pax extension"@,
            TarError::EmptyPath => "Empty input path"@,
            TarError::RelativePath => "Relative base/path"@,
            TarError::TooManyLinks => "Links recursion limit (40) reached"@,
            TarError::TooManyTempDirs => "too many temporary directories already exist"@,
            TarError::Parse(text) => text@,
        }
    }

    /// Returns the text that describes the error.
    pub fn message(&self) -> (r: String)
        ensures
            r@ == self.text(),
    {
        match self {
            TarError::NumericNotUtf8 => "numeric field did not have utf-8 text".to_owned(),
            TarError::NumericInvalid => "numeric field was not a number".to_owned(),
            TarError::ValueTooLong => "provided value is too long".to_owned(),
            TarError::ValueHasNul => "provided value contains a nul byte".to_owned(),
            TarError::PathNotRelative => "paths in archives must be relative".to_owned(),
            TarError::PathHasParent => "paths in archives must not have `..`".to_owned(),
            TarError::PathEmpty => "paths in archives must have at least one component".to_owned(),
            TarError::PathNotSplittable => {
                "path cannot be split to be inserted into archive".to_owned()
            },
            TarError::PathNotUnicode => "path was not valid unicode".to_owned(),
            TarError::OnlyUnicodePaths => "only unicode paths are supported on windows".to_owned(),
            TarError::TextNotUtf8 => "name was not valid utf-8".to_owned(),
            TarError::SparseNotGnu => "sparse header was not a gnu header".to_owned(),
            TarError::NoUsername => "not a ustar or gnu archive, cannot set username".to_owned(),
            TarError::NoGroupname => "not a ustar or gnu archive, cannot set groupname".to_owned(),
            TarError::NoDevMajor => "not a ustar or gnu archive, cannot set dev_major".to_owned(),
            TarError::NoDevMinor => "not a ustar or gnu archive, cannot set dev_minor".to_owned(),
            TarError::NotAtStart => {
                "cannot call entries unless archive is at position 0".to_owned()
            },
            TarError::PositionOverflow => "archive position overflow".to_owned(),
            TarError::ChecksumMismatch => "archive header checksum mismatch".to_owned(),
            TarError::SizeOverflow => "size overflow".to_owned(),
            TarError::ShortRequest => {
                "parser requested fewer bytes than already buffered".to_owned()
            },
            TarError::LoneZeroBlock => {
                "found block of 0s not followed by a second block of 0s".to_owned()
            },
            TarError::UnexpectedEof => "unexpected EOF in archive".to_owned(),
            TarError::EofInSkip => "unexpected EOF during skip".to_owned(),
            TarError::EofInBlock => "failed to read entire block".to_owned(),
            TarError::SeekOutOfBounds => "seek position out of bounds".to_owned(),
            TarError::SparseUnaligned => {
                "previous block in sparse file was not aligned to 512-byte boundary".to_owned()
            },
            TarError::SparseOverlap => "out of order or overlapping sparse blocks".to_owned(),
            TarError::SparseTooLong => {
                "more bytes listed in sparse file than u64 can hold".to_owned()
            },
            TarError::SparseOverrun => {
                "sparse file consumed more data than the header listed".to_owned()
            },
            TarError::SparseSizeMismatch => {
                "mismatch in sparse file chunks and size in header".to_owned()
            },
            TarError::SparseDataMismatch => {
                "mismatch in sparse file chunks and entry size in header".to_owned()
            },
            TarError::UnknownFileType => "path has unknown file type".to_owned(),
            TarError::Socket => "socket can not be archived".to_owned(),
            TarError::LinkNameMissing => "hard link listed but no link name found".to_owned(),
            TarError::LinkNameEmpty => "symlink destination is empty".to_owned(),
            TarError::OutsideDestination => {
                "symlink destination points outside unpack destination".to_owned()
            },
            TarError::ShortWrite => "failed to write entire file".to_owned(),
            TarError::LongnameNotFollowed => "longname entry not followed by another".to_owned(),
            TarError::PaxMalformed => "malformed pax extension".to_owned(),
            TarError::EmptyPath => "Empty input path".to_owned(),
            TarError::RelativePath => "Relative base/path".to_owned(),
            TarError::TooManyLinks => "Links recursion limit (40) reached".to_owned(),
            TarError::TooManyTempDirs => "too many temporary directories already exist".to_owned(),
            TarError::Parse(text) => text.as_str().to_owned(),
        }
    }
}

/// An error as a mathematical value.
pub enum Fault {
    /// An error that its name alone describes.
    Known(TarError),
    /// The header parser refused the bytes for the reason that the text gives.
    Parser(Seq<char>),
}

impl View for TarError {
    type V = Fault;

    open spec fn view(&self) -> Fault {
        match self {
            TarError::Parse(text) => Fault::Parser(text@),
            _ => Fault::Known(*self),
        }
    }
}

} // verus!
