//! What a header states of a file.

use crate::archive_laws::{is_fresh, lemma_blank_gnu, lemma_octal_step, lemma_type_step};
use crate::builder::{long_header, long_link_name};
use crate::bytes::with_field;
use crate::entry_type::EntryType;
use crate::error::TarError;
use crate::header::{
    blank_gnu, is_gnu, is_ustar, octal_u32, type_of_mode, with_attributes, with_cksum, with_metadata, with_octal,
    with_size_no_device, HeaderMode, Metadata,
};
use crate::header_laws::{law_cksum_right, law_number_read_back};
use crate::number::{octal, octal_field};
use crate::stream_append::{as_special, device_major, device_minor, special_type};
use crate::windows::{with_windows_metadata, WindowsMetadata};
use vstd::arithmetic::power::pow;
use vstd::prelude::*;
use vstd::utf8::{encode_utf8, is_ascii_chars, is_ascii_chars_encode_utf8};

verus! {

/// Whether a header states the given number between `lo` and `hi`.
pub open spec fn states(h: Seq<u8>, lo: int, hi: int, value: int) -> bool {
    octal(h.subrange(lo, hi)) matches Ok(v) && v == value
}

proof fn lemma_room()
    ensures
        pow(8, 7) == 0o10000000,
        pow(8, 11) == 0o100000000000,
{
    reveal_with_fuel(pow, 12);
}

/// A number that has room is stated; the field still ends in a nul.
proof fn lemma_stated(h: Seq<u8>, lo: int, hi: int, value: u64)
    requires
        h.len() == 512,
        0 <= lo,
        lo + 2 <= hi <= 512,
        h[hi - 1] == 0,
    ensures
        value < pow(8, (hi - lo - 1) as nat) ==> states(
            with_octal(h, lo, hi, value as int),
            lo,
            hi,
            value as int,
        ),
        with_octal(h, lo, hi, value as int)[hi - 1] == 0,
        forall|k: int|
            0 <= k < 512 && (k < lo || hi <= k) ==> #[trigger] with_octal(h, lo, hi, value as int)[k]
                == h[k],
{
    if value < pow(8, (hi - lo - 1) as nat) {
        law_number_read_back(h, lo, hi, value);
    }
    let field = octal_field(h.subrange(lo, hi), value as int);
    assert(with_octal(h, lo, hi, value as int)[hi - 1] == field[hi - 1 - lo]);
}

proof fn lemma_attributes_stated(
    h: Seq<u8>,
    mtime: u64,
    uid: u32,
    gid: u32,
    mode: u32,
    kind: EntryType,
)
    requires
        is_fresh(h),
    ensures
        ({
            let r = with_attributes(h, mtime, uid, gid, mode, kind);
            &&& is_fresh(r)
            &&& mtime < 0o100000000000 ==> states(r, 136, 148, mtime as int)
            &&& uid < 0o10000000 ==> states(r, 108, 116, uid as int)
            &&& gid < 0o10000000 ==> states(r, 116, 124, gid as int)
            &&& mode < 0o10000000 ==> states(r, 100, 108, mode as int)
            &&& r[156] == kind.byte()
            &&& forall|k: int|
                0 <= k < 100 || 124 <= k < 136 || 148 <= k < 156 || 157 <= k < 512 ==> #[trigger] r[k]
                    == h[k]
        }),
{
    lemma_room();
    let h1 = with_octal(h, 136, 148, mtime as int);
    let h2 = with_octal(h1, 108, 116, uid as int);
    let h3 = with_octal(h2, 116, 124, gid as int);
    let h4 = with_octal(h3, 100, 108, mode as int);
    let r = with_field(h4, 156, seq![kind.byte()]);
    lemma_stated(h, 136, 148, mtime);
    lemma_stated(h1, 108, 116, uid as u64);
    lemma_stated(h2, 116, 124, gid as u64);
    lemma_stated(h3, 100, 108, mode as u64);
    lemma_octal_step(h1, 108, 116, uid as int);
    lemma_octal_step(h2, 116, 124, gid as int);
    lemma_octal_step(h3, 100, 108, mode as int);
    lemma_type_step(h4, kind.byte());
    assert(r.subrange(136, 148) == h1.subrange(136, 148)) by {
        assert(h4.subrange(136, 148) == h3.subrange(136, 148));
        assert(h3.subrange(136, 148) == h2.subrange(136, 148));
    }
    assert(r.subrange(108, 116) == h2.subrange(108, 116)) by {
        assert(h4.subrange(108, 116) == h3.subrange(108, 116));
    }
    assert(r.subrange(116, 124) == h4.subrange(116, 124));
    assert(h4.subrange(116, 124) == h3.subrange(116, 124));
    assert(r.subrange(100, 108) == h4.subrange(100, 108));
}

proof fn lemma_size_stated(h: Seq<u8>, size: u64)
    requires
        is_fresh(h),
    ensures
        ({
            let r = with_size_no_device(h, size);
            &&& is_fresh(r)
            &&& size < 0o100000000000 ==> states(r, 124, 136, size as int)
            &&& is_gnu(h) || is_ustar(h) ==> states(r, 329, 337, 0) && states(r, 337, 345, 0)
            &&& forall|k: int|
                0 <= k < 124 || 136 <= k < 329 || 345 <= k < 512 ==> #[trigger] r[k] == h[k]
        }),
{
    lemma_room();
    let h1 = with_octal(h, 124, 136, size as int);
    let h2 = with_octal(h1, 329, 337, 0);
    let h3 = with_octal(h2, 337, 345, 0);
    lemma_stated(h, 124, 136, size);
    lemma_stated(h1, 329, 337, 0);
    lemma_stated(h2, 337, 345, 0);
    lemma_octal_step(h1, 329, 337, 0);
    lemma_octal_step(h2, 337, 345, 0);
    assert(h1.subrange(257, 265) =~= h.subrange(257, 265));
    assert(h3.subrange(124, 136) == h1.subrange(124, 136)) by {
        assert(h3.subrange(124, 136) == h2.subrange(124, 136));
    }
    assert(h3.subrange(329, 337) == h2.subrange(329, 337));
}

/// The byte for the type of a file, by the type bits of its mode: regular files, links, devices,
/// directories and pipes have theirs, and anything else has a blank.
pub proof fn law_type_of_mode(mode: u32)
    ensures
        mode & 0o170000 == 0o100000 ==> type_of_mode(mode).byte() == 48,
        mode & 0o170000 == 0o120000 ==> type_of_mode(mode).byte() == 50,
        mode & 0o170000 == 0o020000 ==> type_of_mode(mode).byte() == 51,
        mode & 0o170000 == 0o060000 ==> type_of_mode(mode).byte() == 52,
        mode & 0o170000 == 0o040000 ==> type_of_mode(mode).byte() == 53,
        mode & 0o170000 == 0o010000 ==> type_of_mode(mode).byte() == 54,
        type_of_mode(mode).byte() != 32 ==> {
            ||| mode & 0o170000 == 0o100000
            ||| mode & 0o170000 == 0o120000
            ||| mode & 0o170000 == 0o020000
            ||| mode & 0o170000 == 0o060000
            ||| mode & 0o170000 == 0o040000
            ||| mode & 0o170000 == 0o010000
        },
{
}

/// A fresh header that is filled from metadata states what the metadata says, as far as its fields
/// have room: mode, owner, group, time, size and type; and no device. A directory has no size.
/// Filled deterministically it states no owner, no group and no time, and of the mode only whether
/// the file can be executed or entered. Nothing else changes.
pub proof fn law_metadata_stated(h: Seq<u8>, meta: Metadata, mode: HeaderMode)
    requires
        is_fresh(h),
    ensures
        ({
            let r = with_metadata(h, meta, mode);
            let is_dir = meta.mode & 0o170000 == 0o040000;
            &&& mode is Complete && meta.mode < 0o10000000 ==> states(r, 100, 108, meta.mode as int)
            &&& mode is Complete && meta.uid < 0o10000000 ==> states(r, 108, 116, meta.uid as int)
            &&& mode is Complete && meta.gid < 0o10000000 ==> states(r, 116, 124, meta.gid as int)
            &&& mode is Complete && 0 <= meta.mtime < 0o100000000000 ==> states(
                r,
                136,
                148,
                meta.mtime as int,
            )
            &&& mode is Deterministic ==> states(r, 108, 116, 0) && states(r, 116, 124, 0)
                && states(r, 136, 148, 0)
            &&& mode is Deterministic && (is_dir || meta.mode & 0o100 != 0) ==> states(
                r,
                100,
                108,
                0o755,
            )
            &&& mode is Deterministic && !is_dir && meta.mode & 0o100 == 0 ==> states(
                r,
                100,
                108,
                0o644,
            )
            &&& is_dir ==> states(r, 124, 136, 0)
            &&& !is_dir && meta.len < 0o100000000000 ==> states(r, 124, 136, meta.len as int)
            &&& is_gnu(h) || is_ustar(h) ==> states(r, 329, 337, 0) && states(r, 337, 345, 0)
            &&& r[156] == type_of_mode(meta.mode).byte()
            &&& r.len() == 512
            &&& forall|k: int|
                0 <= k < 100 || 148 <= k < 156 || 157 <= k < 329 || 345 <= k < 512
                    ==> #[trigger] r[k] == h[k]
        }),
{
    let is_dir = meta.mode & 0o170000 == 0o040000;
    let kind = type_of_mode(meta.mode);
    let bits = meta.mode;
    assert(bits & 0o100 == 0 || bits & 0o100 == 0o100) by (bit_vector);
    let low: u32 = if is_dir || meta.mode & 0o100 == 0o100 {
        0o755
    } else {
        0o644
    };
    let mid = match mode {
        HeaderMode::Complete => with_attributes(
            h,
            meta.mtime as u64,
            meta.uid,
            meta.gid,
            meta.mode,
            kind,
        ),
        HeaderMode::Deterministic => with_attributes(h, 0, 0, 0, low, kind),
    };
    match mode {
        HeaderMode::Complete => {
            lemma_attributes_stated(h, meta.mtime as u64, meta.uid, meta.gid, meta.mode, kind);
        },
        HeaderMode::Deterministic => {
            lemma_attributes_stated(h, 0, 0, 0, low, kind);
        },
    }
    let size: u64 = if is_dir {
        0
    } else {
        meta.len
    };
    lemma_size_stated(mid, size);
    let r = with_metadata(h, meta, mode);
    assert(r == with_size_no_device(mid, size));
    assert(mid.subrange(257, 265) =~= h.subrange(257, 265));
    assert(r.subrange(100, 108) =~= mid.subrange(100, 108));
    assert(r.subrange(108, 116) =~= mid.subrange(108, 116));
    assert(r.subrange(116, 124) =~= mid.subrange(116, 124));
    assert(r.subrange(136, 148) =~= mid.subrange(136, 148));
}

/// A fresh header that is filled from metadata can be filled again: its fields still end in nuls.
pub proof fn law_metadata_fresh(h: Seq<u8>, meta: Metadata, mode: HeaderMode)
    requires
        is_fresh(h),
    ensures
        is_fresh(with_metadata(h, meta, mode)),
{
    let is_dir = meta.mode & 0o170000 == 0o040000;
    let kind = type_of_mode(meta.mode);
    let low: u32 = if is_dir || meta.mode & 0o100 == 0o100 {
        0o755
    } else {
        0o644
    };
    let size: u64 = if is_dir {
        0
    } else {
        meta.len
    };
    match mode {
        HeaderMode::Complete => {
            let mid = with_attributes(h, meta.mtime as u64, meta.uid, meta.gid, meta.mode, kind);
            lemma_attributes_stated(h, meta.mtime as u64, meta.uid, meta.gid, meta.mode, kind);
            lemma_size_stated(mid, size);
        },
        HeaderMode::Deterministic => {
            let mid = with_attributes(h, 0, 0, 0, low, kind);
            lemma_attributes_stated(h, 0, 0, 0, low, kind);
            lemma_size_stated(mid, size);
        },
    }
}

/// The header of a record with a long path or link name states the size and the type of the record.
/// It is a file that everybody may read and that belongs to nobody, under the name by which such
/// records are known.
pub proof fn law_long_header_stated(size: u64, kind: u8)
    requires
        size < 0o100000000000,
    ensures
        ({
            let r = long_header(size as int, kind);
            &&& r.len() == 512
            &&& r.subrange(0, 13) == encode_utf8("././@LongLink"@)
            &&& forall|k: int| 13 <= k < 100 ==> #[trigger] r[k] == 0
            &&& states(r, 100, 108, 0o644)
            &&& states(r, 108, 116, 0)
            &&& states(r, 116, 124, 0)
            &&& states(r, 124, 136, size as int)
            &&& states(r, 136, 148, 0)
            &&& r[156] == kind
            &&& is_gnu(r)
        }),
{
    lemma_room();
    lemma_blank_gnu();
    let g = blank_gnu();
    let h0 = with_field(g, 0, long_link_name());
    let h1 = with_octal(h0, 100, 108, 0o644);
    let h2 = with_octal(h1, 108, 116, 0);
    let h3 = with_octal(h2, 116, 124, 0);
    let h4 = with_octal(h3, 136, 148, 0);
    let h5 = with_octal(h4, 124, 136, size as int);
    let h6 = with_field(h5, 156, seq![kind]);
    lemma_stated(h0, 100, 108, 0o644);
    lemma_stated(h1, 108, 116, 0);
    lemma_stated(h2, 116, 124, 0);
    lemma_stated(h3, 136, 148, 0);
    lemma_stated(h4, 124, 136, size);
    let r = with_cksum(h6);
    law_cksum_right(h6);
    assert(r.subrange(0, 100) == h6.subrange(0, 100));
    assert(h6.subrange(100, 108) =~= h1.subrange(100, 108));
    assert(h6.subrange(108, 116) =~= h2.subrange(108, 116));
    assert(h6.subrange(116, 124) =~= h3.subrange(116, 124));
    assert(h6.subrange(136, 148) =~= h4.subrange(136, 148));
    assert(h6.subrange(124, 136) =~= h5.subrange(124, 136));
    law_cksum_states_same(h6, 100, 108, 0o644);
    law_cksum_states_same(h6, 108, 116, 0);
    law_cksum_states_same(h6, 116, 124, 0);
    law_cksum_states_same(h6, 136, 148, 0);
    law_cksum_states_same(h6, 124, 136, size as int);
    assert(r.subrange(156, 157) == h6.subrange(156, 157));
    assert(r.subrange(156, 157)[0] == r[156] && h6.subrange(156, 157)[0] == h6[156]);
    assert(r.subrange(257, 265) == h6.subrange(257, 265));
    assert(h6.subrange(257, 265) =~= g.subrange(257, 265));
    assert forall|k: int| 13 <= k < 100 implies #[trigger] r[k] == 0 by {
        assert(r.subrange(0, 100)[k] == h6.subrange(0, 100)[k]);
    }
    reveal_strlit("././@LongLink");
    let text = "././@LongLink"@;
    assert(is_ascii_chars(text));
    is_ascii_chars_encode_utf8(text);
    assert(r.subrange(0, 13) =~= encode_utf8(text)) by {
        assert forall|k: int| 0 <= k < 13 implies r[k] == long_link_name()[k] by {
            assert(r.subrange(0, 100)[k] == h6.subrange(0, 100)[k]);
        }
        assert(long_link_name() =~= encode_utf8(text));
    }
}

/// Filling in the checksum changes nothing else that a header states.
pub proof fn law_cksum_states_same(h: Seq<u8>, lo: int, hi: int, value: int)
    requires
        h.len() == 512,
        0 <= lo <= hi <= 512,
        hi <= 148 || 156 <= lo,
    ensures
        states(with_cksum(h), lo, hi, value) == states(h, lo, hi, value),
        octal_u32(with_cksum(h).subrange(lo, hi)) == octal_u32(h.subrange(lo, hi)),
{
    law_cksum_right(h);
    assert(with_cksum(h).subrange(lo, hi) == h.subrange(lo, hi));
}

/// The two numbers of a device are made of different bits of its number, and all bits of the
/// number are in one of them: the minor number has bits 0 to 7 and 20 to 43, the major number has
/// bits 8 to 19 and 44 to 63.
pub proof fn law_device_numbers(rdev: u64)
    ensures
        device_minor(rdev) % 256 == rdev % 256,
        device_minor(rdev) / 256 == (rdev / 0x10_0000) % 0x100_0000,
        device_major(rdev) % 4096 == (rdev / 256) % 4096,
        device_major(rdev) / 4096 == rdev / 0x1000_0000_0000,
{
    let minor64 = ((rdev >> 12) & 0xffff_ff00) | (rdev & 0x0000_00ff);
    let major64 = ((rdev >> 32) & 0xffff_f000) | ((rdev >> 8) & 0x0000_0fff);
    assert(minor64 <= 0xffff_ffff && minor64 % 256 == rdev % 256 && minor64 / 256 == (rdev
        / 0x10_0000) % 0x100_0000) by (bit_vector)
        requires
            minor64 == ((rdev >> 12) & 0xffff_ff00) | (rdev & 0x0000_00ff),
    ;
    assert(major64 <= 0xffff_ffff && major64 % 4096 == (rdev / 256) % 4096 && major64 / 4096 == rdev
        / 0x1000_0000_0000) by (bit_vector)
        requires
            major64 == ((rdev >> 32) & 0xffff_f000) | ((rdev >> 8) & 0x0000_0fff),
    ;
}

/// The header of a device or a pipe states the type and, as far as there is room, the two numbers of
/// the device. Nothing else changes.
pub proof fn law_special_stated(h: Seq<u8>, kind: EntryType, rdev: u64)
    requires
        is_fresh(h),
    ensures
        ({
            let r = as_special(h, kind, rdev);
            &&& r.len() == 512
            &&& r[156] == kind.byte()
            &&& device_major(rdev) < 0o10000000 ==> states(r, 329, 337, device_major(rdev) as int)
            &&& device_minor(rdev) < 0o10000000 ==> states(r, 337, 345, device_minor(rdev) as int)
            &&& forall|k: int|
                0 <= k < 156 || 157 <= k < 329 || 345 <= k < 512 ==> #[trigger] r[k] == h[k]
        }),
{
    lemma_room();
    let h1 = with_field(h, 156, seq![kind.byte()]);
    lemma_type_step(h, kind.byte());
    assert(h1[156] == h1.subrange(156, 157)[0]);
    let h2 = with_octal(h1, 329, 337, device_major(rdev) as int);
    lemma_stated(h1, 329, 337, device_major(rdev) as u64);
    lemma_stated(h2, 337, 345, device_minor(rdev) as u64);
    let r = as_special(h, kind, rdev);
    assert(r.subrange(329, 337) =~= h2.subrange(329, 337));
}

/// Devices and pipes can be added as such, and nothing else can: each with the byte of its type. A
/// socket is refused as one.
pub proof fn law_special_type(meta: Metadata)
    ensures
        meta.mode & 0o170000 == 0o010000 ==> (special_type(meta) matches Ok(t) && t.byte() == 54),
        meta.mode & 0o170000 == 0o020000 ==> (special_type(meta) matches Ok(t) && t.byte() == 51),
        meta.mode & 0o170000 == 0o060000 ==> (special_type(meta) matches Ok(t) && t.byte() == 52),
        meta.mode & 0o170000 == 0o140000 ==> special_type(meta) == Err::<EntryType, TarError>(
            TarError::Socket,
        ),
        special_type(meta) matches Ok(t) ==> t.byte() == type_of_mode(meta.mode).byte(),
        special_type(meta) is Ok <==> {
            ||| meta.mode & 0o170000 == 0o010000
            ||| meta.mode & 0o170000 == 0o020000
            ||| meta.mode & 0o170000 == 0o060000
        },
{
}

/// A fresh header that is filled from metadata on Windows states no owner and no group, and the mode
/// that comes closest: everybody may read, only directories may be entered, and the owner may
/// write unless the file is marked as read-only. The time is counted from 1970 on. Filled
/// deterministically, it states neither the time nor the mark.
pub proof fn law_windows_stated(h: Seq<u8>, meta: WindowsMetadata, mode: HeaderMode)
    requires
        is_fresh(h),
    ensures
        ({
            let r = with_windows_metadata(h, meta, mode);
            let seconds = meta.last_write_time as int / 10_000_000 - (369 * 365 + 89) * 86400;
            let writable = mode is Deterministic || meta.file_attributes & 1 == 0;
            &&& states(r, 108, 116, 0) && states(r, 116, 124, 0)
            &&& meta.is_dir ==> states(r, 124, 136, 0) && r[156] == 53
            &&& !meta.is_dir && meta.len < 0o100000000000 ==> states(r, 124, 136, meta.len as int)
            &&& !meta.is_dir && meta.is_file ==> r[156] == 48
            &&& !meta.is_dir && !meta.is_file && meta.is_symlink ==> r[156] == 50
            &&& mode is Complete && 0 <= seconds < 0o100000000000 ==> states(r, 136, 148, seconds)
            &&& mode is Deterministic ==> states(r, 136, 148, 0)
            &&& states(
                r,
                100,
                108,
                0o444 + (if writable {
                    0o200int
                } else {
                    0
                }) + (if meta.is_dir {
                    0o111int
                } else {
                    0
                }),
            )
            &&& r.len() == 512
        }),
{
    lemma_room();
    let seconds = meta.last_write_time as int / 10_000_000 - 11644473600;
    let mtime = if mode == HeaderMode::Complete {
        seconds
    } else {
        0
    };
    let attributes = meta.file_attributes;
    assert(attributes & 1 == 0 || attributes & 1 == 1) by (bit_vector);
    let bits = meta.mode(mode);
    let kind = meta.entry_type();
    let h1 = with_octal(h, 108, 116, 0);
    let h2 = with_octal(h1, 116, 124, 0);
    let h3 = with_octal(h2, 136, 148, mtime);
    let h4 = with_octal(h3, 100, 108, bits as int);
    let h5 = with_field(h4, 156, seq![kind.byte()]);
    lemma_stated(h, 108, 116, 0);
    lemma_stated(h1, 116, 124, 0);
    if mtime >= 0 {
        lemma_stated(h2, 136, 148, mtime as u64);
    } else {
        lemma_octal_step(h2, 136, 148, mtime);
    }
    lemma_octal_step(h2, 136, 148, mtime);
    assert(h3[147] == 0) by {
        assert(h3[147] == octal_field(h2.subrange(136, 148), mtime)[11]);
    }
    lemma_stated(h3, 100, 108, bits as u64);
    lemma_octal_step(h3, 100, 108, bits as int);
    lemma_type_step(h4, kind.byte());
    let size: u64 = if meta.is_dir {
        0
    } else {
        meta.len
    };
    assert(is_fresh(h5));
    lemma_size_stated(h5, size);
    let r = with_windows_metadata(h, meta, mode);
    assert(r.subrange(108, 116) =~= h1.subrange(108, 116));
    assert(r.subrange(116, 124) =~= h2.subrange(116, 124));
    assert(r.subrange(136, 148) =~= h3.subrange(136, 148));
    assert(r.subrange(100, 108) =~= h4.subrange(100, 108));
    assert(r[156] == h5[156]);
    assert(h5[156] == h5.subrange(156, 157)[0]);
}

} // verus!
