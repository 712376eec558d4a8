//! Headers as records of named fields.

use crate::bytes::{copy_into, slashed, store_error, stored_at, truncate, truncated};
use crate::error::TarError;
use crate::header::{
    is_gnu, is_ustar, octal_u32, ustar_path, ustar_path_stored, ustar_set_path, Header,
};
use crate::number::{octal, octal_field, octal_from, octal_into};
use vstd::prelude::*;
use vstd::slice::slice_subrange;
use vstd::utf8::encode_utf8;

verus! {

/// The fields of a header of the oldest format.
pub struct OldHeader<'a> {
    /// The path.
    pub name: &'a [u8],
    /// The mode.
    pub mode: &'a [u8],
    /// The owner.
    pub uid: &'a [u8],
    /// The group.
    pub gid: &'a [u8],
    /// The size.
    pub size: &'a [u8],
    /// The modification time.
    pub mtime: &'a [u8],
    /// The checksum.
    pub cksum: &'a [u8],
    /// The type.
    pub linkflag: &'a [u8],
    /// The link name.
    pub linkname: &'a [u8],
    /// Unused.
    pub pad: &'a [u8],
}

impl<'a> OldHeader<'a> {
    /// Whether these are the fields of a header with the given bytes.
    pub open spec fn is_of(self, h: Seq<u8>) -> bool {
        &&& self.name@ == h.subrange(0, 100)
        &&& self.mode@ == h.subrange(100, 108)
        &&& self.uid@ == h.subrange(108, 116)
        &&& self.gid@ == h.subrange(116, 124)
        &&& self.size@ == h.subrange(124, 136)
        &&& self.mtime@ == h.subrange(136, 148)
        &&& self.cksum@ == h.subrange(148, 156)
        &&& self.linkflag@ == h.subrange(156, 157)
        &&& self.linkname@ == h.subrange(157, 257)
        &&& self.pad@ == h.subrange(257, 512)
    }
}

/// The fields of a header of the oldest format, for writing.
pub struct OldHeaderMut<'a> {
    /// The path.
    pub name: &'a mut [u8],
    /// The mode.
    pub mode: &'a mut [u8],
    /// The owner.
    pub uid: &'a mut [u8],
    /// The group.
    pub gid: &'a mut [u8],
    /// The size.
    pub size: &'a mut [u8],
    /// The modification time.
    pub mtime: &'a mut [u8],
    /// The checksum.
    pub cksum: &'a mut [u8],
    /// The type.
    pub linkflag: &'a mut [u8],
    /// The link name.
    pub linkname: &'a mut [u8],
    /// Unused.
    pub pad: &'a mut [u8],
}

impl<'a> OldHeaderMut<'a> {
    /// Whether these are the fields of a header with the given bytes.
    pub open spec fn is_of(self, h: Seq<u8>) -> bool {
        &&& self.name@ == h.subrange(0, 100)
        &&& self.mode@ == h.subrange(100, 108)
        &&& self.uid@ == h.subrange(108, 116)
        &&& self.gid@ == h.subrange(116, 124)
        &&& self.size@ == h.subrange(124, 136)
        &&& self.mtime@ == h.subrange(136, 148)
        &&& self.cksum@ == h.subrange(148, 156)
        &&& self.linkflag@ == h.subrange(156, 157)
        &&& self.linkname@ == h.subrange(157, 257)
        &&& self.pad@ == h.subrange(257, 512)
    }
}

/// The fields of a header of the UStar format.
pub struct UstarHeader<'a> {
    /// The path.
    pub name: &'a [u8],
    /// The mode.
    pub mode: &'a [u8],
    /// The owner.
    pub uid: &'a [u8],
    /// The group.
    pub gid: &'a [u8],
    /// The size.
    pub size: &'a [u8],
    /// The modification time.
    pub mtime: &'a [u8],
    /// The checksum.
    pub cksum: &'a [u8],
    /// The type.
    pub typeflag: &'a [u8],
    /// The link name.
    pub linkname: &'a [u8],
    /// The mark of the format.
    pub magic: &'a [u8],
    /// The version of the format.
    pub version: &'a [u8],
    /// The name of the owner.
    pub uname: &'a [u8],
    /// The name of the group.
    pub gname: &'a [u8],
    /// The major device number.
    pub dev_major: &'a [u8],
    /// The minor device number.
    pub dev_minor: &'a [u8],
    /// What stands before the path.
    pub prefix: &'a [u8],
    /// Unused.
    pub pad: &'a [u8],
}

impl<'a> UstarHeader<'a> {
    /// Whether these are the fields of a header with the given bytes.
    pub open spec fn is_of(self, h: Seq<u8>) -> bool {
        &&& self.name@ == h.subrange(0, 100)
        &&& self.mode@ == h.subrange(100, 108)
        &&& self.uid@ == h.subrange(108, 116)
        &&& self.gid@ == h.subrange(116, 124)
        &&& self.size@ == h.subrange(124, 136)
        &&& self.mtime@ == h.subrange(136, 148)
        &&& self.cksum@ == h.subrange(148, 156)
        &&& self.typeflag@ == h.subrange(156, 157)
        &&& self.linkname@ == h.subrange(157, 257)
        &&& self.magic@ == h.subrange(257, 263)
        &&& self.version@ == h.subrange(263, 265)
        &&& self.uname@ == h.subrange(265, 297)
        &&& self.gname@ == h.subrange(297, 329)
        &&& self.dev_major@ == h.subrange(329, 337)
        &&& self.dev_minor@ == h.subrange(337, 345)
        &&& self.prefix@ == h.subrange(345, 500)
        &&& self.pad@ == h.subrange(500, 512)
    }
}

/// The fields of a header of the UStar format, for writing.
pub struct UstarHeaderMut<'a> {
    /// The path.
    pub name: &'a mut [u8],
    /// The mode.
    pub mode: &'a mut [u8],
    /// The owner.
    pub uid: &'a mut [u8],
    /// The group.
    pub gid: &'a mut [u8],
    /// The size.
    pub size: &'a mut [u8],
    /// The modification time.
    pub mtime: &'a mut [u8],
    /// The checksum.
    pub cksum: &'a mut [u8],
    /// The type.
    pub typeflag: &'a mut [u8],
    /// The link name.
    pub linkname: &'a mut [u8],
    /// The mark of the format.
    pub magic: &'a mut [u8],
    /// The version of the format.
    pub version: &'a mut [u8],
    /// The name of the owner.
    pub uname: &'a mut [u8],
    /// The name of the group.
    pub gname: &'a mut [u8],
    /// The major device number.
    pub dev_major: &'a mut [u8],
    /// The minor device number.
    pub dev_minor: &'a mut [u8],
    /// What stands before the path.
    pub prefix: &'a mut [u8],
    /// Unused.
    pub pad: &'a mut [u8],
}

impl<'a> UstarHeaderMut<'a> {
    /// Whether these are the fields of a header with the given bytes.
    pub open spec fn is_of(self, h: Seq<u8>) -> bool {
        &&& self.name@ == h.subrange(0, 100)
        &&& self.mode@ == h.subrange(100, 108)
        &&& self.uid@ == h.subrange(108, 116)
        &&& self.gid@ == h.subrange(116, 124)
        &&& self.size@ == h.subrange(124, 136)
        &&& self.mtime@ == h.subrange(136, 148)
        &&& self.cksum@ == h.subrange(148, 156)
        &&& self.typeflag@ == h.subrange(156, 157)
        &&& self.linkname@ == h.subrange(157, 257)
        &&& self.magic@ == h.subrange(257, 263)
        &&& self.version@ == h.subrange(263, 265)
        &&& self.uname@ == h.subrange(265, 297)
        &&& self.gname@ == h.subrange(297, 329)
        &&& self.dev_major@ == h.subrange(329, 337)
        &&& self.dev_minor@ == h.subrange(337, 345)
        &&& self.prefix@ == h.subrange(345, 500)
        &&& self.pad@ == h.subrange(500, 512)
    }
}

/// The fields of a header of the GNU format.
pub struct GnuHeader<'a> {
    /// The path.
    pub name: &'a [u8],
    /// The mode.
    pub mode: &'a [u8],
    /// The owner.
    pub uid: &'a [u8],
    /// The group.
    pub gid: &'a [u8],
    /// The size.
    pub size: &'a [u8],
    /// The modification time.
    pub mtime: &'a [u8],
    /// The checksum.
    pub cksum: &'a [u8],
    /// The type.
    pub typeflag: &'a [u8],
    /// The link name.
    pub linkname: &'a [u8],
    /// The mark of the format.
    pub magic: &'a [u8],
    /// The version of the format.
    pub version: &'a [u8],
    /// The name of the owner.
    pub uname: &'a [u8],
    /// The name of the group.
    pub gname: &'a [u8],
    /// The major device number.
    pub dev_major: &'a [u8],
    /// The minor device number.
    pub dev_minor: &'a [u8],
    /// The access time.
    pub atime: &'a [u8],
    /// The time of the last status change.
    pub ctime: &'a [u8],
    /// The offset in a multivolume archive.
    pub offset: &'a [u8],
    /// Unused.
    pub longnames: &'a [u8],
    /// Unused.
    pub unused: &'a [u8],
    /// The first four sparse blocks.
    pub sparse: &'a [u8],
    /// Whether more sparse blocks follow.
    pub isextended: &'a [u8],
    /// The size of a sparse file.
    pub realsize: &'a [u8],
    /// Unused.
    pub pad: &'a [u8],
}

impl<'a> GnuHeader<'a> {
    /// Whether these are the fields of a header with the given bytes.
    pub open spec fn is_of(self, h: Seq<u8>) -> bool {
        &&& self.name@ == h.subrange(0, 100)
        &&& self.mode@ == h.subrange(100, 108)
        &&& self.uid@ == h.subrange(108, 116)
        &&& self.gid@ == h.subrange(116, 124)
        &&& self.size@ == h.subrange(124, 136)
        &&& self.mtime@ == h.subrange(136, 148)
        &&& self.cksum@ == h.subrange(148, 156)
        &&& self.typeflag@ == h.subrange(156, 157)
        &&& self.linkname@ == h.subrange(157, 257)
        &&& self.magic@ == h.subrange(257, 263)
        &&& self.version@ == h.subrange(263, 265)
        &&& self.uname@ == h.subrange(265, 297)
        &&& self.gname@ == h.subrange(297, 329)
        &&& self.dev_major@ == h.subrange(329, 337)
        &&& self.dev_minor@ == h.subrange(337, 345)
        &&& self.atime@ == h.subrange(345, 357)
        &&& self.ctime@ == h.subrange(357, 369)
        &&& self.offset@ == h.subrange(369, 381)
        &&& self.longnames@ == h.subrange(381, 385)
        &&& self.unused@ == h.subrange(385, 386)
        &&& self.sparse@ == h.subrange(386, 482)
        &&& self.isextended@ == h.subrange(482, 483)
        &&& self.realsize@ == h.subrange(483, 495)
        &&& self.pad@ == h.subrange(495, 512)
    }
}

/// The fields of a header of the GNU format, for writing.
pub struct GnuHeaderMut<'a> {
    /// The path.
    pub name: &'a mut [u8],
    /// The mode.
    pub mode: &'a mut [u8],
    /// The owner.
    pub uid: &'a mut [u8],
    /// The group.
    pub gid: &'a mut [u8],
    /// The size.
    pub size: &'a mut [u8],
    /// The modification time.
    pub mtime: &'a mut [u8],
    /// The checksum.
    pub cksum: &'a mut [u8],
    /// The type.
    pub typeflag: &'a mut [u8],
    /// The link name.
    pub linkname: &'a mut [u8],
    /// The mark of the format.
    pub magic: &'a mut [u8],
    /// The version of the format.
    pub version: &'a mut [u8],
    /// The name of the owner.
    pub uname: &'a mut [u8],
    /// The name of the group.
    pub gname: &'a mut [u8],
    /// The major device number.
    pub dev_major: &'a mut [u8],
    /// The minor device number.
    pub dev_minor: &'a mut [u8],
    /// The access time.
    pub atime: &'a mut [u8],
    /// The time of the last status change.
    pub ctime: &'a mut [u8],
    /// The offset in a multivolume archive.
    pub offset: &'a mut [u8],
    /// Unused.
    pub longnames: &'a mut [u8],
    /// Unused.
    pub unused: &'a mut [u8],
    /// The first four sparse blocks.
    pub sparse: &'a mut [u8],
    /// Whether more sparse blocks follow.
    pub isextended: &'a mut [u8],
    /// The size of a sparse file.
    pub realsize: &'a mut [u8],
    /// Unused.
    pub pad: &'a mut [u8],
}

impl<'a> GnuHeaderMut<'a> {
    /// Whether these are the fields of a header with the given bytes.
    pub open spec fn is_of(self, h: Seq<u8>) -> bool {
        &&& self.name@ == h.subrange(0, 100)
        &&& self.mode@ == h.subrange(100, 108)
        &&& self.uid@ == h.subrange(108, 116)
        &&& self.gid@ == h.subrange(116, 124)
        &&& self.size@ == h.subrange(124, 136)
        &&& self.mtime@ == h.subrange(136, 148)
        &&& self.cksum@ == h.subrange(148, 156)
        &&& self.typeflag@ == h.subrange(156, 157)
        &&& self.linkname@ == h.subrange(157, 257)
        &&& self.magic@ == h.subrange(257, 263)
        &&& self.version@ == h.subrange(263, 265)
        &&& self.uname@ == h.subrange(265, 297)
        &&& self.gname@ == h.subrange(297, 329)
        &&& self.dev_major@ == h.subrange(329, 337)
        &&& self.dev_minor@ == h.subrange(337, 345)
        &&& self.atime@ == h.subrange(345, 357)
        &&& self.ctime@ == h.subrange(357, 369)
        &&& self.offset@ == h.subrange(369, 381)
        &&& self.longnames@ == h.subrange(381, 385)
        &&& self.unused@ == h.subrange(385, 386)
        &&& self.sparse@ == h.subrange(386, 482)
        &&& self.isextended@ == h.subrange(482, 483)
        &&& self.realsize@ == h.subrange(483, 495)
        &&& self.pad@ == h.subrange(495, 512)
    }
}

impl Header {
    /// Views this header as one of the oldest format, which every format extends.
    pub fn as_old(&self) -> (r: OldHeader<'_>)
        ensures
            r.is_of(self@),
    {
        OldHeader {
            name: self.field(0, 100),
            mode: self.field(100, 108),
            uid: self.field(108, 116),
            gid: self.field(116, 124),
            size: self.field(124, 136),
            mtime: self.field(136, 148),
            cksum: self.field(148, 156),
            linkflag: self.field(156, 157),
            linkname: self.field(157, 257),
            pad: self.field(257, 512),
        }
    }

    /// The same as `as_old`, for writing.
    pub fn as_old_mut(&mut self) -> (r: OldHeaderMut<'_>)
        ensures
            r.is_of(old(self)@),
            final(self)@ ==
                final(r.name)@ + (final(r.mode)@ + (final(r.uid)@ + (final(r.gid)@ + (
                final(r.size)@ + (final(r.mtime)@ + (final(r.cksum)@ + (final(r.linkflag)@ + (
                final(r.linkname)@ + (final(r.pad)@))))))))),
    {
        let ghost h = self@;
        let rest: &mut [u8] = &mut self.bytes;
        let (name, rest) = rest.split_at_mut(100);
        assert(name@ =~= h.subrange(0, 100));
        assert(rest@ =~= h.subrange(100, 512));
        let (mode, rest) = rest.split_at_mut(8);
        assert(mode@ =~= h.subrange(100, 108));
        assert(rest@ =~= h.subrange(108, 512));
        let (uid, rest) = rest.split_at_mut(8);
        assert(uid@ =~= h.subrange(108, 116));
        assert(rest@ =~= h.subrange(116, 512));
        let (gid, rest) = rest.split_at_mut(8);
        assert(gid@ =~= h.subrange(116, 124));
        assert(rest@ =~= h.subrange(124, 512));
        let (size, rest) = rest.split_at_mut(12);
        assert(size@ =~= h.subrange(124, 136));
        assert(rest@ =~= h.subrange(136, 512));
        let (mtime, rest) = rest.split_at_mut(12);
        assert(mtime@ =~= h.subrange(136, 148));
        assert(rest@ =~= h.subrange(148, 512));
        let (cksum, rest) = rest.split_at_mut(8);
        assert(cksum@ =~= h.subrange(148, 156));
        assert(rest@ =~= h.subrange(156, 512));
        let (linkflag, rest) = rest.split_at_mut(1);
        assert(linkflag@ =~= h.subrange(156, 157));
        assert(rest@ =~= h.subrange(157, 512));
        let (linkname, rest) = rest.split_at_mut(100);
        assert(linkname@ =~= h.subrange(157, 257));
        assert(rest@ =~= h.subrange(257, 512));
        OldHeaderMut {
            name,
            mode,
            uid,
            gid,
            size,
            mtime,
            cksum,
            linkflag,
            linkname,
            pad: rest,
        }
    }

    /// Views this header as one of the UStar format.
    ///
    /// Returns `None` if the magic and version fields are not those of the format.
    pub fn as_ustar(&self) -> (r: Option<UstarHeader<'_>>)
        ensures
            r is Some == is_ustar(self@),
            r matches Some(fields) ==> fields.is_of(self@),
    {
        if !self.is_ustar() {
            return None;
        }
        Some(UstarHeader {
            name: self.field(0, 100),
            mode: self.field(100, 108),
            uid: self.field(108, 116),
            gid: self.field(116, 124),
            size: self.field(124, 136),
            mtime: self.field(136, 148),
            cksum: self.field(148, 156),
            typeflag: self.field(156, 157),
            linkname: self.field(157, 257),
            magic: self.field(257, 263),
            version: self.field(263, 265),
            uname: self.field(265, 297),
            gname: self.field(297, 329),
            dev_major: self.field(329, 337),
            dev_minor: self.field(337, 345),
            prefix: self.field(345, 500),
            pad: self.field(500, 512),
        })
    }

    /// The same as `as_ustar`, for writing.
    pub fn as_ustar_mut(&mut self) -> (r: Option<UstarHeaderMut<'_>>)
        ensures
            r is Some == is_ustar(old(self)@),
            match r {
                Some(fields) => fields.is_of(old(self)@) && final(self)@ ==
                    final(fields.name)@ + (final(fields.mode)@ + (final(fields.uid)@ + (
                    final(fields.gid)@ + (final(fields.size)@ + (final(fields.mtime)@ + (
                    final(fields.cksum)@ + (final(fields.typeflag)@ + (final(fields.linkname)@ + (
                    final(fields.magic)@ + (final(fields.version)@ + (final(fields.uname)@ + (
                    final(fields.gname)@ + (final(fields.dev_major)@ + (
                    final(fields.dev_minor)@ + (final(fields.prefix)@ + (
                    final(fields.pad)@)))))))))))))))),
                None => final(self)@ == old(self)@,
            },
    {
        if !self.is_ustar() {
            return None;
        }
        let ghost h = self@;
        let rest: &mut [u8] = &mut self.bytes;
        let (name, rest) = rest.split_at_mut(100);
        assert(name@ =~= h.subrange(0, 100));
        assert(rest@ =~= h.subrange(100, 512));
        let (mode, rest) = rest.split_at_mut(8);
        assert(mode@ =~= h.subrange(100, 108));
        assert(rest@ =~= h.subrange(108, 512));
        let (uid, rest) = rest.split_at_mut(8);
        assert(uid@ =~= h.subrange(108, 116));
        assert(rest@ =~= h.subrange(116, 512));
        let (gid, rest) = rest.split_at_mut(8);
        assert(gid@ =~= h.subrange(116, 124));
        assert(rest@ =~= h.subrange(124, 512));
        let (size, rest) = rest.split_at_mut(12);
        assert(size@ =~= h.subrange(124, 136));
        assert(rest@ =~= h.subrange(136, 512));
        let (mtime, rest) = rest.split_at_mut(12);
        assert(mtime@ =~= h.subrange(136, 148));
        assert(rest@ =~= h.subrange(148, 512));
        let (cksum, rest) = rest.split_at_mut(8);
        assert(cksum@ =~= h.subrange(148, 156));
        assert(rest@ =~= h.subrange(156, 512));
        let (typeflag, rest) = rest.split_at_mut(1);
        assert(typeflag@ =~= h.subrange(156, 157));
        assert(rest@ =~= h.subrange(157, 512));
        let (linkname, rest) = rest.split_at_mut(100);
        assert(linkname@ =~= h.subrange(157, 257));
        assert(rest@ =~= h.subrange(257, 512));
        let (magic, rest) = rest.split_at_mut(6);
        assert(magic@ =~= h.subrange(257, 263));
        assert(rest@ =~= h.subrange(263, 512));
        let (version, rest) = rest.split_at_mut(2);
        assert(version@ =~= h.subrange(263, 265));
        assert(rest@ =~= h.subrange(265, 512));
        let (uname, rest) = rest.split_at_mut(32);
        assert(uname@ =~= h.subrange(265, 297));
        assert(rest@ =~= h.subrange(297, 512));
        let (gname, rest) = rest.split_at_mut(32);
        assert(gname@ =~= h.subrange(297, 329));
        assert(rest@ =~= h.subrange(329, 512));
        let (dev_major, rest) = rest.split_at_mut(8);
        assert(dev_major@ =~= h.subrange(329, 337));
        assert(rest@ =~= h.subrange(337, 512));
        let (dev_minor, rest) = rest.split_at_mut(8);
        assert(dev_minor@ =~= h.subrange(337, 345));
        assert(rest@ =~= h.subrange(345, 512));
        let (prefix, rest) = rest.split_at_mut(155);
        assert(prefix@ =~= h.subrange(345, 500));
        assert(rest@ =~= h.subrange(500, 512));
        Some(UstarHeaderMut {
            name,
            mode,
            uid,
            gid,
            size,
            mtime,
            cksum,
            typeflag,
            linkname,
            magic,
            version,
            uname,
            gname,
            dev_major,
            dev_minor,
            prefix,
            pad: rest,
        })
    }

    /// Views this header as one of the GNU format.
    ///
    /// Returns `None` if the magic and version fields are not those of the format.
    pub fn as_gnu(&self) -> (r: Option<GnuHeader<'_>>)
        ensures
            r is Some == is_gnu(self@),
            r matches Some(fields) ==> fields.is_of(self@),
    {
        if !self.is_gnu() {
            return None;
        }
        Some(GnuHeader {
            name: self.field(0, 100),
            mode: self.field(100, 108),
            uid: self.field(108, 116),
            gid: self.field(116, 124),
            size: self.field(124, 136),
            mtime: self.field(136, 148),
            cksum: self.field(148, 156),
            typeflag: self.field(156, 157),
            linkname: self.field(157, 257),
            magic: self.field(257, 263),
            version: self.field(263, 265),
            uname: self.field(265, 297),
            gname: self.field(297, 329),
            dev_major: self.field(329, 337),
            dev_minor: self.field(337, 345),
            atime: self.field(345, 357),
            ctime: self.field(357, 369),
            offset: self.field(369, 381),
            longnames: self.field(381, 385),
            unused: self.field(385, 386),
            sparse: self.field(386, 482),
            isextended: self.field(482, 483),
            realsize: self.field(483, 495),
            pad: self.field(495, 512),
        })
    }

    /// The same as `as_gnu`, for writing.
    pub fn as_gnu_mut(&mut self) -> (r: Option<GnuHeaderMut<'_>>)
        ensures
            r is Some == is_gnu(old(self)@),
            match r {
                Some(fields) => fields.is_of(old(self)@) && final(self)@ ==
                    final(fields.name)@ + (final(fields.mode)@ + (final(fields.uid)@ + (
                    final(fields.gid)@ + (final(fields.size)@ + (final(fields.mtime)@ + (
                    final(fields.cksum)@ + (final(fields.typeflag)@ + (final(fields.linkname)@ + (
                    final(fields.magic)@ + (final(fields.version)@ + (final(fields.uname)@ + (
                    final(fields.gname)@ + (final(fields.dev_major)@ + (
                    final(fields.dev_minor)@ + (final(fields.atime)@ + (final(fields.ctime)@ + (
                    final(fields.offset)@ + (final(fields.longnames)@ + (final(fields.unused)@ + (
                    final(fields.sparse)@ + (final(fields.isextended)@ + (
                    final(fields.realsize)@ + (final(fields.pad)@))))))))))))))))))))))),
                None => final(self)@ == old(self)@,
            },
    {
        if !self.is_gnu() {
            return None;
        }
        let ghost h = self@;
        let rest: &mut [u8] = &mut self.bytes;
        let (name, rest) = rest.split_at_mut(100);
        assert(name@ =~= h.subrange(0, 100));
        assert(rest@ =~= h.subrange(100, 512));
        let (mode, rest) = rest.split_at_mut(8);
        assert(mode@ =~= h.subrange(100, 108));
        assert(rest@ =~= h.subrange(108, 512));
        let (uid, rest) = rest.split_at_mut(8);
        assert(uid@ =~= h.subrange(108, 116));
        assert(rest@ =~= h.subrange(116, 512));
        let (gid, rest) = rest.split_at_mut(8);
        assert(gid@ =~= h.subrange(116, 124));
        assert(rest@ =~= h.subrange(124, 512));
        let (size, rest) = rest.split_at_mut(12);
        assert(size@ =~= h.subrange(124, 136));
        assert(rest@ =~= h.subrange(136, 512));
        let (mtime, rest) = rest.split_at_mut(12);
        assert(mtime@ =~= h.subrange(136, 148));
        assert(rest@ =~= h.subrange(148, 512));
        let (cksum, rest) = rest.split_at_mut(8);
        assert(cksum@ =~= h.subrange(148, 156));
        assert(rest@ =~= h.subrange(156, 512));
        let (typeflag, rest) = rest.split_at_mut(1);
        assert(typeflag@ =~= h.subrange(156, 157));
        assert(rest@ =~= h.subrange(157, 512));
        let (linkname, rest) = rest.split_at_mut(100);
        assert(linkname@ =~= h.subrange(157, 257));
        assert(rest@ =~= h.subrange(257, 512));
        let (magic, rest) = rest.split_at_mut(6);
        assert(magic@ =~= h.subrange(257, 263));
        assert(rest@ =~= h.subrange(263, 512));
        let (version, rest) = rest.split_at_mut(2);
        assert(version@ =~= h.subrange(263, 265));
        assert(rest@ =~= h.subrange(265, 512));
        let (uname, rest) = rest.split_at_mut(32);
        assert(uname@ =~= h.subrange(265, 297));
        assert(rest@ =~= h.subrange(297, 512));
        let (gname, rest) = rest.split_at_mut(32);
        assert(gname@ =~= h.subrange(297, 329));
        assert(rest@ =~= h.subrange(329, 512));
        let (dev_major, rest) = rest.split_at_mut(8);
        assert(dev_major@ =~= h.subrange(329, 337));
        assert(rest@ =~= h.subrange(337, 512));
        let (dev_minor, rest) = rest.split_at_mut(8);
        assert(dev_minor@ =~= h.subrange(337, 345));
        assert(rest@ =~= h.subrange(345, 512));
        let (atime, rest) = rest.split_at_mut(12);
        assert(atime@ =~= h.subrange(345, 357));
        assert(rest@ =~= h.subrange(357, 512));
        let (ctime, rest) = rest.split_at_mut(12);
        assert(ctime@ =~= h.subrange(357, 369));
        assert(rest@ =~= h.subrange(369, 512));
        let (offset, rest) = rest.split_at_mut(12);
        assert(offset@ =~= h.subrange(369, 381));
        assert(rest@ =~= h.subrange(381, 512));
        let (longnames, rest) = rest.split_at_mut(4);
        assert(longnames@ =~= h.subrange(381, 385));
        assert(rest@ =~= h.subrange(385, 512));
        let (unused, rest) = rest.split_at_mut(1);
        assert(unused@ =~= h.subrange(385, 386));
        assert(rest@ =~= h.subrange(386, 512));
        let (sparse, rest) = rest.split_at_mut(96);
        assert(sparse@ =~= h.subrange(386, 482));
        assert(rest@ =~= h.subrange(482, 512));
        let (isextended, rest) = rest.split_at_mut(1);
        assert(isextended@ =~= h.subrange(482, 483));
        assert(rest@ =~= h.subrange(483, 512));
        let (realsize, rest) = rest.split_at_mut(12);
        assert(realsize@ =~= h.subrange(483, 495));
        assert(rest@ =~= h.subrange(495, 512));
        Some(GnuHeaderMut {
            name,
            mode,
            uid,
            gid,
            size,
            mtime,
            cksum,
            typeflag,
            linkname,
            magic,
            version,
            uname,
            gname,
            dev_major,
            dev_minor,
            atime,
            ctime,
            offset,
            longnames,
            unused,
            sparse,
            isextended,
            realsize,
            pad: rest,
        })
    }
}

impl<'a> UstarHeader<'a> {
    /// Returns the path, with slashes for backslashes.
    pub fn path_bytes(&self) -> (r: Vec<u8>)
        ensures
            r@ == {
                let n = slashed(truncated(self.name@));
                let p = slashed(truncated(self.prefix@));
                if p.len() > 0 {
                    p.push(47u8) + n
                } else {
                    n
                }
            },
    {
        ustar_path(self.name, self.prefix)
    }

    /// Returns the name of the owner.
    pub fn username_bytes(&self) -> (r: &[u8])
        ensures
            r@ == truncated(self.uname@),
    {
        truncate(self.uname)
    }

    /// Returns the name of the group.
    pub fn groupname_bytes(&self) -> (r: &[u8])
        ensures
            r@ == truncated(self.gname@),
    {
        truncate(self.gname)
    }

    /// Returns the major device number.
    pub fn device_major(&self) -> (r: Result<u32, TarError>)
        ensures
            r == octal_u32(self.dev_major@),
    {
        match octal_from(self.dev_major) {
            Ok(v) => Ok(v as u32),
            Err(e) => Err(e),
        }
    }

    /// Returns the minor device number.
    pub fn device_minor(&self) -> (r: Result<u32, TarError>)
        ensures
            r == octal_u32(self.dev_minor@),
    {
        match octal_from(self.dev_minor) {
            Ok(v) => Ok(v as u32),
            Err(e) => Err(e),
        }
    }
}

impl<'a> UstarHeaderMut<'a> {
    /// Sets the path: see `Header::set_path`.
    pub fn set_path(&mut self, path: &[u8]) -> (r: Result<(), TarError>)
        ensures
            *final(self) == (UstarHeaderMut {
                name: final(self).name,
                prefix: final(self).prefix,
                ..*old(self)
            }),
            final(final(self).name)@ == final(old(self).name)@,
            final(final(self).prefix)@ == final(old(self).prefix)@,
            ((final(self).name@, final(self).prefix@), r) == ustar_path_stored(
                old(self).name@,
                old(self).prefix@,
                path@,
            ),
    {
        ustar_set_path(self.name, self.prefix, path)
    }

    /// Sets the name of the owner.
    ///
    /// Fails, and changes nothing, if the name is too long or holds a nul.
    pub fn set_username(&mut self, name: &str) -> (r: Result<(), TarError>)
        ensures
            *final(self) == (UstarHeaderMut {
                uname: final(self).uname,
                ..*old(self)
            }),
            final(final(self).uname)@ == final(old(self).uname)@,
            match store_error(old(self).uname@.len() as int, encode_utf8(name@)) {
                Some(e) => r == Err::<(), TarError>(e) && final(self).uname@ == old(self).uname@,
                None => r is Ok && final(self).uname@ == stored_at(
                    old(self).uname@,
                    0,
                    encode_utf8(name@),
                ),
            },
    {
        copy_into(self.uname, 0, name.as_bytes())
    }

    /// Sets the name of the group.
    ///
    /// Fails, and changes nothing, if the name is too long or holds a nul.
    pub fn set_groupname(&mut self, name: &str) -> (r: Result<(), TarError>)
        ensures
            *final(self) == (UstarHeaderMut {
                gname: final(self).gname,
                ..*old(self)
            }),
            final(final(self).gname)@ == final(old(self).gname)@,
            match store_error(old(self).gname@.len() as int, encode_utf8(name@)) {
                Some(e) => r == Err::<(), TarError>(e) && final(self).gname@ == old(self).gname@,
                None => r is Ok && final(self).gname@ == stored_at(
                    old(self).gname@,
                    0,
                    encode_utf8(name@),
                ),
            },
    {
        copy_into(self.gname, 0, name.as_bytes())
    }

    /// Sets the major device number.
    pub fn set_device_major(&mut self, major: u32)
        ensures
            *final(self) == (UstarHeaderMut {
                dev_major: final(self).dev_major,
                ..*old(self)
            }),
            final(final(self).dev_major)@ == final(old(self).dev_major)@,
            final(self).dev_major@ == octal_field(old(self).dev_major@, major as int),
    {
        octal_into(self.dev_major, major as u64);
    }

    /// Sets the minor device number.
    pub fn set_device_minor(&mut self, minor: u32)
        ensures
            *final(self) == (UstarHeaderMut {
                dev_minor: final(self).dev_minor,
                ..*old(self)
            }),
            final(final(self).dev_minor)@ == final(old(self).dev_minor)@,
            final(self).dev_minor@ == octal_field(old(self).dev_minor@, minor as int),
    {
        octal_into(self.dev_minor, minor as u64);
    }
}

impl<'a> GnuHeader<'a> {
    /// Returns the name of the owner.
    pub fn username_bytes(&self) -> (r: &[u8])
        ensures
            r@ == truncated(self.uname@),
    {
        truncate(self.uname)
    }

    /// Returns the name of the group.
    pub fn groupname_bytes(&self) -> (r: &[u8])
        ensures
            r@ == truncated(self.gname@),
    {
        truncate(self.gname)
    }

    /// Returns the major device number.
    pub fn device_major(&self) -> (r: Result<u32, TarError>)
        ensures
            r == octal_u32(self.dev_major@),
    {
        match octal_from(self.dev_major) {
            Ok(v) => Ok(v as u32),
            Err(e) => Err(e),
        }
    }

    /// Returns the minor device number.
    pub fn device_minor(&self) -> (r: Result<u32, TarError>)
        ensures
            r == octal_u32(self.dev_minor@),
    {
        match octal_from(self.dev_minor) {
            Ok(v) => Ok(v as u32),
            Err(e) => Err(e),
        }
    }

    /// Returns the access time, in seconds since 1970.
    pub fn atime(&self) -> (r: Result<u64, TarError>)
        ensures
            r == octal(self.atime@),
    {
        octal_from(self.atime)
    }

    /// Returns the time of the last status change, in seconds since 1970.
    pub fn ctime(&self) -> (r: Result<u64, TarError>)
        ensures
            r == octal(self.ctime@),
    {
        octal_from(self.ctime)
    }

    /// Returns the size of a sparse file once its holes are filled in.
    pub fn real_size(&self) -> (r: Result<u64, TarError>)
        ensures
            r == octal(self.realsize@),
    {
        octal_from(self.realsize)
    }

    /// Returns whether this header is followed by more sparse blocks.
    pub fn is_extended(&self) -> (r: bool)
        ensures
            r == (self.isextended@.len() > 0 && self.isextended@[0] == 1),
    {
        self.isextended.len() > 0 && self.isextended[0] == 1
    }

    /// Returns the sparse blocks that stand in this header.
    pub fn sparse(&self) -> (r: Vec<GnuSparseHeader>)
        ensures
            sparse_blocks(r@, self.sparse@),
    {
        read_sparse(self.sparse)
    }
}

impl<'a> GnuHeaderMut<'a> {
    /// Sets the name of the owner.
    ///
    /// Fails, and changes nothing, if the name is too long or holds a nul.
    pub fn set_username(&mut self, name: &str) -> (r: Result<(), TarError>)
        ensures
            *final(self) == (GnuHeaderMut {
                uname: final(self).uname,
                ..*old(self)
            }),
            final(final(self).uname)@ == final(old(self).uname)@,
            match store_error(old(self).uname@.len() as int, encode_utf8(name@)) {
                Some(e) => r == Err::<(), TarError>(e) && final(self).uname@ == old(self).uname@,
                None => r is Ok && final(self).uname@ == stored_at(
                    old(self).uname@,
                    0,
                    encode_utf8(name@),
                ),
            },
    {
        copy_into(self.uname, 0, name.as_bytes())
    }

    /// Sets the name of the group.
    ///
    /// Fails, and changes nothing, if the name is too long or holds a nul.
    pub fn set_groupname(&mut self, name: &str) -> (r: Result<(), TarError>)
        ensures
            *final(self) == (GnuHeaderMut {
                gname: final(self).gname,
                ..*old(self)
            }),
            final(final(self).gname)@ == final(old(self).gname)@,
            match store_error(old(self).gname@.len() as int, encode_utf8(name@)) {
                Some(e) => r == Err::<(), TarError>(e) && final(self).gname@ == old(self).gname@,
                None => r is Ok && final(self).gname@ == stored_at(
                    old(self).gname@,
                    0,
                    encode_utf8(name@),
                ),
            },
    {
        copy_into(self.gname, 0, name.as_bytes())
    }

    /// Sets the major device number.
    pub fn set_device_major(&mut self, major: u32)
        ensures
            *final(self) == (GnuHeaderMut {
                dev_major: final(self).dev_major,
                ..*old(self)
            }),
            final(final(self).dev_major)@ == final(old(self).dev_major)@,
            final(self).dev_major@ == octal_field(old(self).dev_major@, major as int),
    {
        octal_into(self.dev_major, major as u64);
    }

    /// Sets the minor device number.
    pub fn set_device_minor(&mut self, minor: u32)
        ensures
            *final(self) == (GnuHeaderMut {
                dev_minor: final(self).dev_minor,
                ..*old(self)
            }),
            final(final(self).dev_minor)@ == final(old(self).dev_minor)@,
            final(self).dev_minor@ == octal_field(old(self).dev_minor@, minor as int),
    {
        octal_into(self.dev_minor, minor as u64);
    }

    /// Sets the access time, in seconds since 1970.
    pub fn set_atime(&mut self, atime: u64)
        ensures
            *final(self) == (GnuHeaderMut {
                atime: final(self).atime,
                ..*old(self)
            }),
            final(final(self).atime)@ == final(old(self).atime)@,
            final(self).atime@ == octal_field(old(self).atime@, atime as int),
    {
        octal_into(self.atime, atime);
    }

    /// Sets the time of the last status change, in seconds since 1970.
    pub fn set_ctime(&mut self, ctime: u64)
        ensures
            *final(self) == (GnuHeaderMut {
                ctime: final(self).ctime,
                ..*old(self)
            }),
            final(final(self).ctime)@ == final(old(self).ctime)@,
            final(self).ctime@ == octal_field(old(self).ctime@, ctime as int),
    {
        octal_into(self.ctime, ctime);
    }
}

/// Where one block of a sparse file stands: its offset and length, in octal.
#[derive(Clone, Copy)]
pub struct GnuSparseHeader {
    /// The offset.
    pub offset: [u8; 12],
    /// The length.
    pub numbytes: [u8; 12],
}

/// Whether a list of blocks is what a field of such blocks holds.
pub open spec fn sparse_blocks(blocks: Seq<GnuSparseHeader>, field: Seq<u8>) -> bool {
    &&& blocks.len() == field.len() / 24
    &&& forall|k: int|
        #![trigger blocks[k]]
        0 <= k < blocks.len() ==> blocks[k].offset@ == field.subrange(24 * k, 24 * k + 12)
            && blocks[k].numbytes@ == field.subrange(24 * k + 12, 24 * k + 24)
}

/// Copies twelve bytes.
fn twelve(s: &[u8], at: usize) -> (r: [u8; 12])
    requires
        at + 12 <= s@.len(),
    ensures
        r@ == s@.subrange(at as int, at + 12),
{
    let mut r: [u8; 12] = [0;12];
    let room: usize = s.len();
    let mut i: usize = 0;
    while i < 12
        invariant
            i <= 12,
            room == s@.len(),
            at + 12 <= room,
            forall|k: int| 0 <= k < i ==> #[trigger] r@[k] == s@[at + k],
        decreases 12 - i,
    {
        r[i] = s[at + i];
        i = i + 1;
    }
    assert(r@ =~= s@.subrange(at as int, at + 12));
    r
}

/// Reads the blocks in a field.
fn read_sparse(field: &[u8]) -> (r: Vec<GnuSparseHeader>)
    ensures
        sparse_blocks(r@, field@),
{
    let n: usize = field.len() / 24;
    let mut r: Vec<GnuSparseHeader> = Vec::new();
    let mut i: usize = 0;
    while i < n
        invariant
            i <= n,
            n == field@.len() / 24,
            r@.len() == i,
            forall|k: int|
                #![trigger r@[k]]
                0 <= k < i ==> r@[k].offset@ == field@.subrange(24 * k, 24 * k + 12)
                    && r@[k].numbytes@ == field@.subrange(24 * k + 12, 24 * k + 24),
        decreases n - i,
    {
        let room: usize = field.len();
        assert(24 * i + 24 <= room);
        let at: usize = 24 * i;
        r.push(GnuSparseHeader { offset: twelve(field, at), numbytes: twelve(field, at + 12) });
        i = i + 1;
    }
    r
}

impl GnuSparseHeader {
    /// Whether the block is unused.
    pub open spec fn unused(self) -> bool {
        self.offset@[0] == 0 || self.numbytes@[0] == 0
    }

    /// Returns whether the block is unused.
    pub fn is_empty(&self) -> (r: bool)
        ensures
            r == self.unused(),
    {
        self.offset[0] == 0 || self.numbytes[0] == 0
    }

    /// Returns where the block starts in the file.
    pub fn offset(&self) -> (r: Result<u64, TarError>)
        ensures
            r == octal(self.offset@),
    {
        octal_from(self.offset.as_slice())
    }

    /// Returns how long the block is.
    pub fn length(&self) -> (r: Result<u64, TarError>)
        ensures
            r == octal(self.numbytes@),
    {
        octal_from(self.numbytes.as_slice())
    }
}

/// A record of further blocks of a sparse file.
///
/// It follows a GNU header, or another such record, whose `isextended` field is 1.
pub struct GnuExtSparseHeader {
    /// The record as it stands in the archive.
    pub bytes: [u8; 512],
}

impl View for GnuExtSparseHeader {
    type V = Seq<u8>;

    open spec fn view(&self) -> Seq<u8> {
        self.bytes@
    }
}

impl GnuExtSparseHeader {
    /// Creates a new record of nul bytes.
    pub fn new() -> (r: GnuExtSparseHeader)
        ensures
            r@ == Seq::new(512, |k: int| 0u8),
    {
        let r: GnuExtSparseHeader = GnuExtSparseHeader { bytes: [0;512] };
        assert(r@ =~= Seq::new(512, |k: int| 0u8));
        r
    }

    /// Returns the record as it stands in the archive.
    pub fn as_bytes(&self) -> (r: &[u8; 512])
        ensures
            r@ == self@,
    {
        &self.bytes
    }

    /// Returns the record as it stands in the archive, for writing.
    pub fn as_mut_bytes(&mut self) -> (r: &mut [u8; 512])
        ensures
            r@ == old(self)@,
            final(self)@ == final(r)@,
    {
        &mut self.bytes
    }

    /// Returns the blocks, of which some may be unused.
    pub fn sparse(&self) -> (r: Vec<GnuSparseHeader>)
        ensures
            r@.len() == 21,
            sparse_blocks(r@, self@.subrange(0, 504)),
    {
        read_sparse(slice_subrange(self.bytes.as_slice(), 0, 504))
    }

    /// Returns whether another such record follows.
    pub fn is_extended(&self) -> (r: bool)
        ensures
            r == (self@[504] == 1),
    {
        self.bytes[504] == 1
    }
}

impl Default for GnuExtSparseHeader {
    fn default() -> (r: Self)
        ensures
            r@ == Seq::new(512, |k: int| 0u8),
    {
        GnuExtSparseHeader::new()
    }
}

} // verus!
