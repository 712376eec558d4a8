//! Files of the file system that are streamed come back from the archive.

use crate::archive_laws::{
    is_fresh, law_cksum_makes_ordinary, law_metadata_makes_ordinary, lemma_blank_gnu,
    lemma_octal_field_plain, lemma_small_powers,
};
use crate::builder::appended;
use crate::bytes::with_field;
use crate::dir_laws::stream_come_to;
use crate::entry::{zeros, Options};
use crate::entry_type::EntryType;
use crate::error::TarError;
use crate::front_laws::{reads_back, text_size};
use crate::header::{
    blank_gnu, is_gnu, is_ustar, type_of_mode, with_cksum, with_metadata, with_octal,
    with_size_no_device, HeaderMode, Metadata,
};
use crate::header_laws::law_cksum_right;
use crate::meta_laws::{
    law_metadata_fresh, law_metadata_stated, law_special_stated, law_special_type,
};
use crate::number::octal_field;
use crate::parser::{is_ordinary, ordinary, padded};
use crate::path_laws::{are_names, law_plain_spelling, law_slashed, slash_between};
use crate::stored_path::{lemma_path_stored_len, path_stored};
use crate::stream_append::{
    as_special, device_major, device_minor, file_headers, link_extended, path_extended,
    special_headers, special_type, text_length,
};
use crate::stream_item::{Body, Item};
use crate::stream_laws::{law_streamed_read_back, linked, streamed_link, streamed_path};
use crate::stream_walk::{stream_place, walked_added};
use crate::streamer::Streaming;
use vstd::prelude::*;

verus! {

proof fn lemma_octal_after_name(h: Seq<u8>, name: Seq<u8>, lo: int, hi: int, value: int)
    requires
        h.len() == 512,
        name.len() == 100,
        100 <= lo <= hi <= 512,
    ensures
        with_octal(with_field(h, 0, name), lo, hi, value) == with_field(
            with_octal(h, lo, hi, value),
            0,
            name,
        ),
        with_octal(h, lo, hi, value).len() == 512,
{
    assert(with_field(h, 0, name).subrange(lo, hi) =~= h.subrange(lo, hi));
    assert(with_octal(with_field(h, 0, name), lo, hi, value) =~= with_field(
        with_octal(h, lo, hi, value),
        0,
        name,
    ));
}

/// It makes no difference whether the name or the metadata is set first.
proof fn lemma_metadata_after_name(h: Seq<u8>, name: Seq<u8>, meta: Metadata, mode: HeaderMode)
    requires
        h.len() == 512,
        name.len() == 100,
    ensures
        with_metadata(with_field(h, 0, name), meta, mode) == with_field(
            with_metadata(h, meta, mode),
            0,
            name,
        ),
        with_metadata(h, meta, mode).len() == 512,
{
    let is_dir = meta.mode & 0o170000 == 0o040000;
    let kind = type_of_mode(meta.mode);
    let (mtime, uid, gid, bits): (int, int, int, int) = match mode {
        HeaderMode::Complete => (
            meta.mtime as u64 as int,
            meta.uid as int,
            meta.gid as int,
            meta.mode as int,
        ),
        HeaderMode::Deterministic => (
            0,
            0,
            0,
            if is_dir || meta.mode & 0o100 == 0o100 {
                0o755
            } else {
                0o644
            },
        ),
    };
    let n = with_field(h, 0, name);
    let h1 = with_octal(h, 136, 148, mtime);
    let h2 = with_octal(h1, 108, 116, uid);
    let h3 = with_octal(h2, 116, 124, gid);
    let h4 = with_octal(h3, 100, 108, bits);
    lemma_octal_after_name(h, name, 136, 148, mtime);
    lemma_octal_after_name(h1, name, 108, 116, uid);
    lemma_octal_after_name(h2, name, 116, 124, gid);
    lemma_octal_after_name(h3, name, 100, 108, bits);
    let byte = seq![kind.byte()];
    let h5 = with_field(h4, 156, byte);
    assert(with_field(with_field(h4, 0, name), 156, byte) =~= with_field(h5, 0, name));
    let size: u64 = if is_dir {
        0
    } else {
        meta.len
    };
    let h6 = with_octal(h5, 124, 136, size as int);
    let h7 = with_octal(h6, 329, 337, 0);
    lemma_octal_after_name(h5, name, 124, 136, size as int);
    lemma_octal_after_name(h6, name, 329, 337, 0);
    lemma_octal_after_name(h7, name, 337, 345, 0);
    assert(with_field(h6, 0, name).subrange(257, 265) =~= h6.subrange(257, 265));
    assert(with_metadata(h, meta, mode) == with_size_no_device(h5, size));
    assert(with_metadata(n, meta, mode) == with_size_no_device(with_field(h5, 0, name), size));
}

/// What the name field of a GNU header holds after a path was set, from what it held before.
spec fn name_after(old: Seq<u8>, path: Seq<u8>) -> Seq<u8> {
    let (first, r) = path_stored(old, path, false);
    if r is Ok || path.len() < 100 || path.len() + 1 > u64::MAX {
        first
    } else {
        path_stored(first, path.take(text_length(path, 100)), false).0
    }
}

/// Setting a path changes only the name field, and depends on nothing else.
proof fn lemma_name_after(h: Seq<u8>, other: Seq<u8>, path: Seq<u8>)
    requires
        h.len() == 512,
        !is_ustar(h),
        other.len() == 512,
        !is_ustar(other),
        h.subrange(0, 100) == other.subrange(0, 100),
    ensures
        ({
            let p = path_extended(h, path);
            let q = path_extended(other, path);
            &&& name_after(h.subrange(0, 100), path).len() == 100
            &&& p.header == with_field(h, 0, name_after(h.subrange(0, 100), path))
            &&& q.record == p.record
            &&& q.result == p.result
        }),
{
    let old = h.subrange(0, 100);
    let first = path_stored(old, path, false).0;
    lemma_path_stored_len(old, path, false);
    let h1 = with_field(h, 0, first);
    let o1 = with_field(other, 0, first);
    assert(h1.subrange(257, 265) =~= h.subrange(257, 265));
    assert(o1.subrange(257, 265) =~= other.subrange(257, 265));
    assert(h1.subrange(0, 100) =~= first);
    assert(o1.subrange(0, 100) =~= first);
    let start = path.take(text_length(path, 100));
    let second = path_stored(first, start, false).0;
    lemma_path_stored_len(first, start, false);
    assert(with_field(h1, 0, second) =~= with_field(h, 0, second));
}

/// It makes no difference whether the path or the metadata is set first.
proof fn lemma_path_and_metadata(path: Seq<u8>, meta: Metadata, mode: HeaderMode)
    ensures
        ({
            let g = blank_gnu();
            let w = with_metadata(g, meta, mode);
            let p = path_extended(g, path);
            let q = path_extended(w, path);
            &&& q.header == with_metadata(p.header, meta, mode)
            &&& q.record == p.record
            &&& q.result == p.result
            &&& w.len() == 512
            &&& is_gnu(w)
            &&& !is_ustar(w)
            &&& is_fresh(p.header)
            &&& p.header[157] == 0
        }),
{
    let g = blank_gnu();
    lemma_blank_gnu();
    law_metadata_stated(g, meta, mode);
    let w = with_metadata(g, meta, mode);
    assert(w.subrange(257, 265) =~= g.subrange(257, 265));
    assert(w.subrange(0, 100) =~= g.subrange(0, 100));
    lemma_name_after(g, w, path);
    lemma_name_after(w, g, path);
    lemma_metadata_after_name(g, name_after(g.subrange(0, 100), path), meta, mode);
}

/// A streamed entry whose header was filled before its path was set is read back.
proof fn lemma_streamed(
    out: Seq<u8>,
    w: Seq<u8>,
    name: Seq<u8>,
    target: Option<Seq<u8>>,
    data: Seq<u8>,
    rest: Seq<u8>,
    options: Options,
    headers: Seq<u8>,
)
    requires
        w.len() == 512,
        is_gnu(w),
        path_extended(w, name).result is Ok,
        ({
            let p = path_extended(w, name);
            let l = linked(p.header, target);
            let c = with_cksum(l.header);
            &&& l.result is Ok
            &&& headers == p.record + l.record + c
            &&& is_ordinary(c)
            &&& ordinary(c).size == data.len()
        }),
        name.len() + text_size(target) < 1048576,
        name.len() > 0 ==> name.last() != 0,
        target matches Some(link) ==> (link.len() > 0 ==> link.last() != 0),
        (out + headers + data + zeros(padded(data.len() as int) - data.len())).len() <= u64::MAX,
    ensures
        ({
            let p = path_extended(w, name);
            let added = out + headers + data + zeros(padded(data.len() as int) - data.len());
            reads_back(
                added + rest,
                out.len() as int,
                options,
                with_cksum(linked(p.header, target).header),
                streamed_path(w, name),
                streamed_link(p.header, target),
                data,
                added.len() as int,
            )
        }),
{
    let p = path_extended(w, name);
    let l = linked(p.header, target);
    let c = with_cksum(l.header);
    assert(out + headers + data + zeros(padded(data.len() as int) - data.len()) =~= appended(
        out + (p.record + l.record),
        c,
        data,
    ));
    law_streamed_read_back(out, w, name, target, data, rest, options);
}

/// A file of the file system that is streamed comes back under its name, with the bytes that stood
/// behind its headers and, if it is a link, with its link name; and with what its metadata says.
///
/// A link has no bytes. What goes to a record must not end in a nul, and the records must be no more
/// than the parser allows.
pub proof fn law_streamed_file_read_back(
    out: Seq<u8>,
    name: Seq<u8>,
    meta: Metadata,
    link_name: Seq<u8>,
    data: Seq<u8>,
    mode: HeaderMode,
    rest: Seq<u8>,
    options: Options,
)
    requires
        file_headers(name, meta, link_name, mode) is Ok,
        data.len() == if meta.mode & 0o170000 == 0o040000 {
            0
        } else {
            meta.len as int
        },
        data.len() < 8589934592,
        name.len() + link_name.len() + 1 < 1048576,
        name.len() > 0 ==> name.last() != 0,
        link_name.len() > 0 ==> link_name.last() != 0,
        (out + file_headers(name, meta, link_name, mode)->Ok_0 + data + zeros(
            padded(data.len() as int) - data.len(),
        )).len() <= u64::MAX,
    ensures
        ({
            let headers = file_headers(name, meta, link_name, mode)->Ok_0;
            let is_link = meta.mode & 0o170000 == 0o120000;
            let g = path_extended(blank_gnu(), name).header;
            let h = with_metadata(g, meta, mode);
            let own = if is_link {
                with_cksum(link_extended(h, link_name).header)
            } else {
                with_cksum(h)
            };
            let added = out + headers + data + zeros(padded(data.len() as int) - data.len());
            reads_back(
                added + rest,
                out.len() as int,
                options,
                own,
                streamed_path(blank_gnu(), name),
                if is_link {
                    streamed_link(h, Some(link_name))
                } else {
                    None
                },
                data,
                added.len() as int,
            )
        }),
{
    let w = with_metadata(blank_gnu(), meta, mode);
    let p = path_extended(blank_gnu(), name);
    let target = if meta.mode & 0o170000 == 0o120000 {
        Some(link_name)
    } else {
        None
    };
    let headers = file_headers(name, meta, link_name, mode)->Ok_0;
    lemma_path_and_metadata(name, meta, mode);
    lemma_headers(name, meta, link_name, mode);
    let h = with_metadata(p.header, meta, mode);
    law_metadata_makes_ordinary(p.header, meta, mode);
    lemma_small_powers();
    lemma_link_keeps(p.header, meta, mode, target);
    law_metadata_stated(p.header, meta, mode);
    lemma_streamed(out, w, name, target, data, rest, options, headers);
}

/// The headers of a file are the records that it needs and its own header.
proof fn lemma_headers(name: Seq<u8>, meta: Metadata, link_name: Seq<u8>, mode: HeaderMode)
    requires
        file_headers(name, meta, link_name, mode) is Ok,
    ensures
        ({
            let p = path_extended(blank_gnu(), name);
            let h = with_metadata(p.header, meta, mode);
            let target = if meta.mode & 0o170000 == 0o120000 {
                Some(link_name)
            } else {
                None
            };
            let l = linked(h, target);
            &&& p.result is Ok
            &&& l.result is Ok
            &&& file_headers(name, meta, link_name, mode)->Ok_0 == p.record + l.record + with_cksum(
                l.header,
            )
        }),
{
    let p = path_extended(blank_gnu(), name);
    assert(p.record + Seq::<u8>::empty() =~= p.record);
}

/// Setting a link name keeps a filled header ordinary.
proof fn lemma_link_keeps(
    g: Seq<u8>,
    meta: Metadata,
    mode: HeaderMode,
    target: Option<Seq<u8>>,
)
    requires
        is_fresh(g),
        linked(with_metadata(g, meta, mode), target).result is Ok,
    ensures
        ({
            let h = with_metadata(g, meta, mode);
            let c = with_cksum(linked(h, target).header);
            &&& is_ordinary(c)
            &&& ordinary(c).size == ordinary(with_cksum(h)).size
        }),
{
    let h = with_metadata(g, meta, mode);
    let k = with_cksum(h);
    let r = linked(h, target).header;
    law_metadata_stated(g, meta, mode);
    law_metadata_makes_ordinary(g, meta, mode);
    law_cksum_right(h);
    if let Some(link) = target {
        lemma_path_stored_len(h.subrange(157, 257), link, true);
    }
    assert(forall|i: int| 0 <= i < 157 || 257 <= i < 512 ==> #[trigger] r[i] == h[i]);
    assert(k.subrange(156, 157)[0] == h.subrange(156, 157)[0]);
    assert(r.subrange(100, 108) =~= k.subrange(100, 108)) by {
        assert(k.subrange(100, 108) == h.subrange(100, 108));
    }
    assert(r.subrange(108, 116) =~= k.subrange(108, 116)) by {
        assert(k.subrange(108, 116) == h.subrange(108, 116));
    }
    assert(r.subrange(116, 124) =~= k.subrange(116, 124)) by {
        assert(k.subrange(116, 124) == h.subrange(116, 124));
    }
    assert(r.subrange(136, 148) =~= k.subrange(136, 148)) by {
        assert(k.subrange(136, 148) == h.subrange(136, 148));
    }
    assert(r.subrange(124, 136) =~= k.subrange(124, 136)) by {
        assert(k.subrange(124, 136) == h.subrange(124, 136));
    }
    assert(r.subrange(257, 265) =~= k.subrange(257, 265)) by {
        assert(k.subrange(257, 265) == h.subrange(257, 265));
    }
    assert(r.subrange(329, 337) =~= k.subrange(329, 337)) by {
        assert(k.subrange(329, 337) == h.subrange(329, 337));
    }
    assert(r.subrange(337, 345) =~= k.subrange(337, 345)) by {
        assert(k.subrange(337, 345) == h.subrange(337, 345));
    }
    law_cksum_makes_ordinary(r);
}

proof fn lemma_special_after_name(h: Seq<u8>, name: Seq<u8>, kind: EntryType, rdev: u64)
    requires
        h.len() == 512,
        name.len() == 100,
    ensures
        as_special(with_field(h, 0, name), kind, rdev) == with_field(
            as_special(h, kind, rdev),
            0,
            name,
        ),
{
    let byte = seq![kind.byte()];
    let h1 = with_field(h, 156, byte);
    assert(with_field(with_field(h, 0, name), 156, byte) =~= with_field(h1, 0, name));
    let h2 = with_octal(h1, 329, 337, device_major(rdev) as int);
    lemma_octal_after_name(h1, name, 329, 337, device_major(rdev) as int);
    lemma_octal_after_name(h2, name, 337, 345, device_minor(rdev) as int);
}

/// It makes no difference whether the path or the device is set first.
proof fn lemma_path_and_device(path: Seq<u8>, meta: Metadata, mode: HeaderMode, kind: EntryType)
    ensures
        ({
            let g = blank_gnu();
            let w = with_metadata(g, meta, mode);
            let v = as_special(w, kind, meta.rdev);
            let p = path_extended(w, path);
            let q = path_extended(v, path);
            &&& q.header == as_special(p.header, kind, meta.rdev)
            &&& q.record == p.record
            &&& q.result == p.result
            &&& v.len() == 512
            &&& is_gnu(v)
            &&& is_fresh(p.header)
            &&& p.header.skip(100) == w.skip(100)
            &&& q.header[157] == 0
        }),
{
    let g = blank_gnu();
    lemma_blank_gnu();
    law_metadata_stated(g, meta, mode);
    let w = with_metadata(g, meta, mode);
    law_metadata_fresh(g, meta, mode);
    law_special_stated(w, kind, meta.rdev);
    let v = as_special(w, kind, meta.rdev);
    assert(w.subrange(257, 265) =~= g.subrange(257, 265));
    assert(v.subrange(257, 265) =~= g.subrange(257, 265));
    assert(v.subrange(0, 100) =~= w.subrange(0, 100));
    lemma_name_after(w, v, path);
    lemma_name_after(v, w, path);
    let name = name_after(w.subrange(0, 100), path);
    lemma_special_after_name(w, name, kind, meta.rdev);
    assert(with_field(w, 0, name).skip(100) =~= w.skip(100));
}

/// The device numbers of a filled header keep it ordinary.
proof fn lemma_special_ordinary(h: Seq<u8>, w: Seq<u8>, kind: EntryType, rdev: u64)
    requires
        is_fresh(h),
        h.skip(100) == w.skip(100),
        is_ordinary(with_cksum(w)),
        w.len() == 512,
        kind.byte() == 51 || kind.byte() == 52 || kind.byte() == 54,
    ensures
        is_ordinary(with_cksum(as_special(h, kind, rdev))),
        ordinary(with_cksum(as_special(h, kind, rdev))).size == ordinary(with_cksum(w)).size,
{
    let r = as_special(h, kind, rdev);
    let k = with_cksum(w);
    law_cksum_right(w);
    law_special_stated(h, kind, rdev);
    assert(forall|i: int| 100 <= i < 512 ==> #[trigger] h[i] == w[i]) by {
        assert forall|i: int| 100 <= i < 512 implies #[trigger] h[i] == w[i] by {
            assert(h.skip(100)[i - 100] == h[i] && w.skip(100)[i - 100] == w[i]);
        }
    }
    assert(r.subrange(100, 108) =~= k.subrange(100, 108)) by {
        assert(k.subrange(100, 108) == w.subrange(100, 108));
    }
    assert(r.subrange(108, 116) =~= k.subrange(108, 116)) by {
        assert(k.subrange(108, 116) == w.subrange(108, 116));
    }
    assert(r.subrange(116, 124) =~= k.subrange(116, 124)) by {
        assert(k.subrange(116, 124) == w.subrange(116, 124));
    }
    assert(r.subrange(136, 148) =~= k.subrange(136, 148)) by {
        assert(k.subrange(136, 148) == w.subrange(136, 148));
    }
    assert(r.subrange(124, 136) =~= k.subrange(124, 136)) by {
        assert(k.subrange(124, 136) == w.subrange(124, 136));
    }
    let h1 = with_field(h, 156, seq![kind.byte()]);
    let h2 = with_octal(h1, 329, 337, device_major(rdev) as int);
    assert(h1.subrange(329, 337).last() == h[336]);
    assert(h2.subrange(337, 345).last() == h[344]);
    assert(r.subrange(329, 337) =~= octal_field(
        h1.subrange(329, 337),
        device_major(rdev) as int,
    ));
    assert(r.subrange(337, 345) =~= octal_field(
        h2.subrange(337, 345),
        device_minor(rdev) as int,
    ));
    lemma_octal_field_plain(h1.subrange(329, 337), device_major(rdev) as int);
    lemma_octal_field_plain(h2.subrange(337, 345), device_minor(rdev) as int);
    law_cksum_makes_ordinary(r);
}

/// A device or a pipe that is streamed comes back under its path, without bytes and without a link
/// name, and with the header that states its type and its numbers.
///
/// Its metadata must state no length. A path that goes to a record must not end in a nul, nor be
/// longer than the parser allows.
pub proof fn law_streamed_special_read_back(
    out: Seq<u8>,
    path: Seq<u8>,
    meta: Metadata,
    mode: HeaderMode,
    rest: Seq<u8>,
    options: Options,
)
    requires
        special_headers(path, meta, mode) is Ok,
        meta.len == 0,
        path.len() < 1048576,
        path.len() > 0 ==> path.last() != 0,
        (out + special_headers(path, meta, mode)->Ok_0).len() <= u64::MAX,
    ensures
        ({
            let headers = special_headers(path, meta, mode)->Ok_0;
            let h = path_extended(with_metadata(blank_gnu(), meta, mode), path).header;
            reads_back(
                out + headers + rest,
                out.len() as int,
                options,
                with_cksum(as_special(h, special_type(meta)->Ok_0, meta.rdev)),
                streamed_path(blank_gnu(), path),
                None,
                Seq::empty(),
                (out + headers).len() as int,
            )
        }),
{
    let kind = special_type(meta)->Ok_0;
    let w = with_metadata(blank_gnu(), meta, mode);
    let v = as_special(w, kind, meta.rdev);
    let headers = special_headers(path, meta, mode)->Ok_0;
    let none = Seq::<u8>::empty();
    lemma_special_parts(path, meta, mode);
    assert(out + headers + none + zeros(padded(none.len() as int) - none.len()) =~= out + headers);
    lemma_streamed(out, v, path, None, none, rest, options, headers);
}

/// The headers of a device or a pipe are the record that its path needs and its own header.
proof fn lemma_special_parts(path: Seq<u8>, meta: Metadata, mode: HeaderMode)
    requires
        special_headers(path, meta, mode) is Ok,
        meta.len == 0,
    ensures
        ({
            let kind = special_type(meta)->Ok_0;
            let w = with_metadata(blank_gnu(), meta, mode);
            let v = as_special(w, kind, meta.rdev);
            let p = path_extended(v, path);
            let l = linked(p.header, None);
            let c = with_cksum(l.header);
            &&& v.len() == 512
            &&& is_gnu(v)
            &&& p.result is Ok
            &&& special_headers(path, meta, mode)->Ok_0 == p.record + l.record + c
            &&& is_ordinary(c)
            &&& ordinary(c).size == 0
            &&& p.header == as_special(path_extended(w, path).header, kind, meta.rdev)
            &&& streamed_path(v, path) == streamed_path(blank_gnu(), path)
            &&& streamed_link(p.header, None) is None
        }),
{
    let kind = special_type(meta)->Ok_0;
    let w = with_metadata(blank_gnu(), meta, mode);
    let v = as_special(w, kind, meta.rdev);
    law_special_type(meta);
    lemma_path_and_metadata(path, meta, mode);
    lemma_path_and_device(path, meta, mode, kind);
    lemma_special_size(meta, mode);
    let p = path_extended(w, path);
    lemma_special_ordinary(p.header, w, kind, meta.rdev);
    assert(p.record + Seq::<u8>::empty() =~= p.record);
}

proof fn lemma_special_size(meta: Metadata, mode: HeaderMode)
    requires
        meta.len == 0,
    ensures
        is_ordinary(with_cksum(with_metadata(blank_gnu(), meta, mode))),
        ordinary(with_cksum(with_metadata(blank_gnu(), meta, mode))).size == 0,
{
    lemma_blank_gnu();
    law_metadata_makes_ordinary(blank_gnu(), meta, mode);
    lemma_small_powers();
}

/// A plain path without backslashes comes back from a streamed archive byte for byte, and so does a
/// plain link name.
pub proof fn law_streamed_plain(h: Seq<u8>, names: Seq<Seq<u8>>)
    requires
        names.len() > 0,
        are_names(names),
        !slash_between(names).contains(92u8),
    ensures
        streamed_path(h, slash_between(names)) == slash_between(names),
        streamed_link(h, Some(slash_between(names))) == Some(slash_between(names)),
{
    law_slashed(slash_between(names));
    law_plain_spelling(names, false);
    law_plain_spelling(names, true);
}

/// What a walk comes to adds at most one part to a streamed archive, behind all others. It has the
/// headers of a file under the path that the walk came to it by, and the bytes at its place below
/// `path`; or the headers of a device or a pipe under that place, and no bytes. What is refused or
/// has no place adds nothing.
pub proof fn law_walked_streamed(
    s: Streaming,
    src_path: Seq<u8>,
    path: Seq<u8>,
    trail: Seq<(Vec<u8>, bool, bool)>,
    descends: bool,
    is_file: bool,
    meta: Metadata,
    link_name: Seq<u8>,
)
    ensures
        ({
            let step = stream_come_to(src_path, trail);
            let (t, r) = walked_added(s, path, step, descends, is_file, meta, link_name);
            let place = stream_place(path, step, descends);
            let plain = descends || is_file;
            let headers = if plain {
                file_headers(step.src, meta, link_name, s.mode)
            } else {
                special_headers(place->Some_0, meta, s.mode)
            };
            &&& place is None || headers is Err ==> t == s
            &&& place is None ==> r is Ok
            &&& place is Some && headers is Err ==> r == Err::<(), TarError>(headers->Err_0)
            &&& place is Some && headers is Ok ==> {
                &&& r is Ok
                &&& t.items.len() == s.items.len() + 1
                &&& t.items.take(s.items.len() as int) == s.items
                &&& t.items.last() == Item::fresh(
                    headers->Ok_0,
                    if plain {
                        Body::OnDisk(place->Some_0, s.follow)
                    } else {
                        Body::Nothing
                    },
                )
                &&& t.current == s.current && t.finish == s.finish && t.mode == s.mode && t.follow
                    == s.follow
            }
        }),
{
    let step = stream_come_to(src_path, trail);
    let (t, r) = walked_added(s, path, step, descends, is_file, meta, link_name);
    if t.items.len() > s.items.len() {
        assert(t.items.take(s.items.len() as int) =~= s.items);
    }
}

} // verus!
