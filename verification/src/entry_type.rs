//! The kinds of things that a header can describe.

use vstd::prelude::*;

verus! {

/// The type of file that a header describes.
///
/// Every byte stands for a type: `new` never gives `Other` for a byte that has
/// a name of its own.
#[derive(Clone, Copy, PartialEq, Eq, Debug, Structural)]
pub enum EntryType {
    /// A regular file.
    Regular,
    /// A hard link.
    Link,
    /// A symbolic link.
    Symlink,
    /// A character special device.
    Char,
    /// A block special device.
    Block,
    /// A directory.
    Directory,
    /// A FIFO.
    Fifo,
    /// A contiguous file.
    Continuous,
    /// A GNU long name record.
    GNULongName,
    /// A GNU long link record.
    GNULongLink,
    /// A GNU sparse file.
    GNUSparse,
    /// A record of global extensions.
    XGlobalHeader,
    /// A record of extensions for the next entry.
    XHeader,
    /// Any other type, as its byte.
    Other(u8),
}

/// The type that a byte stands for.
pub open spec fn type_of(byte: u8) -> EntryType {
    if byte == 48 {
        EntryType::Regular
    } else if byte == 49 {
        EntryType::Link
    } else if byte == 50 {
        EntryType::Symlink
    } else if byte == 51 {
        EntryType::Char
    } else if byte == 52 {
        EntryType::Block
    } else if byte == 53 {
        EntryType::Directory
    } else if byte == 54 {
        EntryType::Fifo
    } else if byte == 55 {
        EntryType::Continuous
    } else if byte == 76 {
        EntryType::GNULongName
    } else if byte == 75 {
        EntryType::GNULongLink
    } else if byte == 83 {
        EntryType::GNUSparse
    } else if byte == 103 {
        EntryType::XGlobalHeader
    } else if byte == 120 {
        EntryType::XHeader
    } else {
        EntryType::Other(byte)
    }
}

impl EntryType {
    /// The byte that stands for this type in a header.
    pub open spec fn byte(self) -> u8 {
        match self {
            EntryType::Regular => 48,
            EntryType::Link => 49,
            EntryType::Symlink => 50,
            EntryType::Char => 51,
            EntryType::Block => 52,
            EntryType::Directory => 53,
            EntryType::Fifo => 54,
            EntryType::Continuous => 55,
            EntryType::GNULongName => 76,
            EntryType::GNULongLink => 75,
            EntryType::GNUSparse => 83,
            EntryType::XGlobalHeader => 103,
            EntryType::XHeader => 120,
            EntryType::Other(byte) => byte,
        }
    }

    /// Creates a new entry type from a raw byte.
    pub fn new(byte: u8) -> (r: EntryType)
        ensures
            r == type_of(byte),
            r.byte() == byte,
    {
        if byte == 48 {
            EntryType::Regular
        } else if byte == 49 {
            EntryType::Link
        } else if byte == 50 {
            EntryType::Symlink
        } else if byte == 51 {
            EntryType::Char
        } else if byte == 52 {
            EntryType::Block
        } else if byte == 53 {
            EntryType::Directory
        } else if byte == 54 {
            EntryType::Fifo
        } else if byte == 55 {
            EntryType::Continuous
        } else if byte == 76 {
            EntryType::GNULongName
        } else if byte == 75 {
            EntryType::GNULongLink
        } else if byte == 83 {
            EntryType::GNUSparse
        } else if byte == 103 {
            EntryType::XGlobalHeader
        } else if byte == 120 {
            EntryType::XHeader
        } else {
            EntryType::Other(byte)
        }
    }

    /// Returns the byte that stands for this type in a header.
    pub fn as_byte(&self) -> (r: u8)
        ensures
            r == self.byte(),
    {
        match self {
            EntryType::Regular => 48,
            EntryType::Link => 49,
            EntryType::Symlink => 50,
            EntryType::Char => 51,
            EntryType::Block => 52,
            EntryType::Directory => 53,
            EntryType::Fifo => 54,
            EntryType::Continuous => 55,
            EntryType::GNULongName => 76,
            EntryType::GNULongLink => 75,
            EntryType::GNUSparse => 83,
            EntryType::XGlobalHeader => 103,
            EntryType::XHeader => 120,
            EntryType::Other(byte) => *byte,
        }
    }

    /// Creates a new entry type representing a regular file.
    pub fn file() -> (r: EntryType)
        ensures
            r == EntryType::Regular,
    {
        EntryType::Regular
    }

    /// Creates a new entry type representing a hard link.
    pub fn hard_link() -> (r: EntryType)
        ensures
            r == EntryType::Link,
    {
        EntryType::Link
    }

    /// Creates a new entry type representing a symbolic link.
    pub fn symlink() -> (r: EntryType)
        ensures
            r == EntryType::Symlink,
    {
        EntryType::Symlink
    }

    /// Creates a new entry type representing a character special device.
    pub fn character_special() -> (r: EntryType)
        ensures
            r == EntryType::Char,
    {
        EntryType::Char
    }

    /// Creates a new entry type representing a block special device.
    pub fn block_special() -> (r: EntryType)
        ensures
            r == EntryType::Block,
    {
        EntryType::Block
    }

    /// Creates a new entry type representing a directory.
    pub fn dir() -> (r: EntryType)
        ensures
            r == EntryType::Directory,
    {
        EntryType::Directory
    }

    /// Creates a new entry type representing a FIFO.
    pub fn fifo() -> (r: EntryType)
        ensures
            r == EntryType::Fifo,
    {
        EntryType::Fifo
    }

    /// Creates a new entry type representing a contiguous file.
    pub fn contiguous() -> (r: EntryType)
        ensures
            r == EntryType::Continuous,
    {
        EntryType::Continuous
    }

    /// Returns whether this type represents a regular file.
    ///
    /// Old archives use a nul byte for regular files.
    pub fn is_file(&self) -> (r: bool)
        ensures
            r == (self.byte() == 0 || self.byte() == 48),
    {
        self.as_byte() == 0 || self.as_byte() == 48
    }

    /// Returns whether this type represents a hard link.
    pub fn is_hard_link(&self) -> (r: bool)
        ensures
            r == (self.byte() == 49),
    {
        self.as_byte() == 49
    }

    /// Returns whether this type represents a symbolic link.
    pub fn is_symlink(&self) -> (r: bool)
        ensures
            r == (self.byte() == 50),
    {
        self.as_byte() == 50
    }

    /// Returns whether this type represents a character special device.
    pub fn is_character_special(&self) -> (r: bool)
        ensures
            r == (self.byte() == 51),
    {
        self.as_byte() == 51
    }

    /// Returns whether this type represents a block special device.
    pub fn is_block_special(&self) -> (r: bool)
        ensures
            r == (self.byte() == 52),
    {
        self.as_byte() == 52
    }

    /// Returns whether this type represents a directory.
    pub fn is_dir(&self) -> (r: bool)
        ensures
            r == (self.byte() == 53),
    {
        self.as_byte() == 53
    }

    /// Returns whether this type represents a FIFO.
    pub fn is_fifo(&self) -> (r: bool)
        ensures
            r == (self.byte() == 54),
    {
        self.as_byte() == 54
    }

    /// Returns whether this type represents a contiguous file.
    pub fn is_contiguous(&self) -> (r: bool)
        ensures
            r == (self.byte() == 55),
    {
        self.as_byte() == 55
    }

    /// Returns whether this type represents a GNU long name record.
    pub fn is_gnu_longname(&self) -> (r: bool)
        ensures
            r == (self.byte() == 76),
    {
        self.as_byte() == 76
    }

    /// Returns whether this type represents a GNU long link record.
    pub fn is_gnu_longlink(&self) -> (r: bool)
        ensures
            r == (self.byte() == 75),
    {
        self.as_byte() == 75
    }

    /// Returns whether this type represents a GNU sparse file.
    pub fn is_gnu_sparse(&self) -> (r: bool)
        ensures
            r == (self.byte() == 83),
    {
        self.as_byte() == 83
    }

    /// Returns whether this type represents a record of global extensions.
    pub fn is_pax_global_extensions(&self) -> (r: bool)
        ensures
            r == (self.byte() == 103),
    {
        self.as_byte() == 103
    }

    /// Returns whether this type represents a record of extensions for the next entry.
    pub fn is_pax_local_extensions(&self) -> (r: bool)
        ensures
            r == (self.byte() == 120),
    {
        self.as_byte() == 120
    }
}

/// A header keeps the type that is stored in it: the type of a type's byte is that type,
/// for every type that a byte can stand for.
pub proof fn law_type_of_byte(byte: u8)
    ensures
        type_of(byte).byte() == byte,
        type_of(type_of(byte).byte()) == type_of(byte),
{
}

/// Each type that is known has one byte, and no other byte stands for it.
pub proof fn law_type_bytes(byte: u8)
    ensures
        type_of(byte) is Regular <==> byte == '0' as u8,
        type_of(byte) is Link <==> byte == '1' as u8,
        type_of(byte) is Symlink <==> byte == '2' as u8,
        type_of(byte) is Char <==> byte == '3' as u8,
        type_of(byte) is Block <==> byte == '4' as u8,
        type_of(byte) is Directory <==> byte == '5' as u8,
        type_of(byte) is Fifo <==> byte == '6' as u8,
        type_of(byte) is Continuous <==> byte == '7' as u8,
        type_of(byte) is GNULongName <==> byte == 'L' as u8,
        type_of(byte) is GNULongLink <==> byte == 'K' as u8,
        type_of(byte) is GNUSparse <==> byte == 'S' as u8,
        type_of(byte) is XGlobalHeader <==> byte == 'g' as u8,
        type_of(byte) is XHeader <==> byte == 'x' as u8,
        type_of(byte) matches EntryType::Other(b) ==> b == byte,
{
}

} // verus!
