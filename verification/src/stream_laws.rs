//! What reading an archive gives back of entries that were streamed.

use crate::archive::rest_of;
use crate::archive_laws::lemma_one_run;
use crate::builder::appended;
use crate::bytes::slashed;
use crate::entry::Options;
use crate::front_laws::{
    law_front_read_back, lemma_described, pax_record, pax_size, reads_back, text_record, text_size,
};
use crate::header::{
    header_link, header_path, header_path_stored, is_gnu, is_ustar, ustar_magic, with_cksum,
};
use crate::header_laws::{law_cksum_right, law_field_kept, law_link_read_back, law_path_read_back};
use crate::parser::{completed, is_ordinary, no_front, ordinary, Front};
use crate::stored_path::{archive_path, lemma_path_stored_len, path_stored};
use crate::stream_append::{link_extended, path_extended, text_length, Extended};
use vstd::prelude::*;

verus! {

/// A header after a link name was set, if there is one.
pub open spec fn linked(h: Seq<u8>, target: Option<Seq<u8>>) -> Extended {
    match target {
        Some(link) => link_extended(h, link),
        None => Extended { header: h, record: Seq::empty(), result: Ok(()) },
    }
}

/// What goes to a record: a path or link name that the header does not hold.
pub open spec fn put_aside(x: Extended, text: Seq<u8>) -> Option<Seq<u8>> {
    if x.record.len() > 0 {
        Some(text)
    } else {
        None
    }
}

/// The path with which a streamed entry is read back.
pub open spec fn streamed_path(h: Seq<u8>, path: Seq<u8>) -> Seq<u8> {
    if path_extended(h, path).record.len() > 0 {
        slashed(path)
    } else {
        slashed(archive_path(path, false)->Ok_0)
    }
}

/// The link name with which a streamed entry is read back.
pub open spec fn streamed_link(h: Seq<u8>, target: Option<Seq<u8>>) -> Option<Seq<u8>> {
    match target {
        Some(link) => if link_extended(h, link).record.len() > 0 {
            Some(slashed(link))
        } else {
            Some(slashed(archive_path(link, true)->Ok_0))
        },
        None => header_link(h),
    }
}

/// Setting a path changes nothing but the name in a GNU header.
proof fn lemma_named(h: Seq<u8>, path: Seq<u8>)
    requires
        h.len() == 512,
        is_gnu(h),
        path_extended(h, path).result is Ok,
    ensures
        ({
            let p = path_extended(h, path);
            &&& p.header.len() == 512
            &&& p.header.skip(100) == h.skip(100)
            &&& is_gnu(p.header)
            &&& !is_ustar(p.header)
            &&& p.record.len() == 0 ==> archive_path(path, false) is Ok && header_path(p.header)
                == slashed(archive_path(path, false)->Ok_0)
            &&& p.record == text_record(put_aside(p, path), 76)
            &&& p.record.len() > 0 ==> path.len() >= 100
        }),
{
    let p = path_extended(h, path);
    assert(!is_ustar(h)) by {
        assert(h.subrange(257, 265)[5] == 32);
        assert(ustar_magic()[5] == 0);
    }
    lemma_stored_keeps(h, path);
    let (first, r) = header_path_stored(h, path);
    if r is Ok {
        law_path_read_back(h, path);
    } else {
        let n = text_length(path, 100);
        lemma_stored_keeps(first, path.take(n));
    }
}

/// Setting the path of a header that is no UStar header changes nothing but the name.
proof fn lemma_stored_keeps(h: Seq<u8>, path: Seq<u8>)
    requires
        h.len() == 512,
        is_gnu(h),
        !is_ustar(h),
    ensures
        ({
            let r = header_path_stored(h, path).0;
            r.len() == 512 && r.skip(100) == h.skip(100) && is_gnu(r) && !is_ustar(r)
        }),
{
    lemma_path_stored_len(h.subrange(0, 100), path, false);
    let r = header_path_stored(h, path).0;
    assert(r.skip(100) =~= h.skip(100));
    assert(r.subrange(257, 265) =~= h.subrange(257, 265));
}

/// Setting a link name changes nothing but the link name.
proof fn lemma_linked(h: Seq<u8>, target: Option<Seq<u8>>)
    requires
        h.len() == 512,
        linked(h, target).result is Ok,
    ensures
        ({
            let l = linked(h, target);
            &&& l.header.len() == 512
            &&& forall|a: int, b: int|
                0 <= a <= b <= 512 && (b <= 157 || 257 <= a) ==> #[trigger] l.header.subrange(a, b)
                    == h.subrange(a, b)
            &&& l.record.len() == 0 ==> header_link(l.header) == streamed_link(h, target)
            &&& l.record.len() > 0 ==> target is Some && target->Some_0.len() >= 100
            &&& l.record == text_record(
                if l.record.len() > 0 {
                    target
                } else {
                    None
                },
                75,
            )
        }),
{
    let l = linked(h, target);
    if let Some(link) = target {
        let (field, r) = path_stored(h.subrange(157, 257), link, true);
        lemma_path_stored_len(h.subrange(157, 257), link, true);
        assert forall|a: int, b: int|
            0 <= a <= b <= 512 && (b <= 157 || 257 <= a) implies #[trigger] l.header.subrange(a, b)
            == h.subrange(a, b) by {
            law_field_kept(h, 157, field, a, b);
        }
        if r is Ok {
            law_link_read_back(h, link);
        }
    }
}

/// An entry that was streamed behind the records that its path and link name need is read back:
/// its header, its path, its link name, its data, and where the next entry stands.
///
/// What goes to a record must not end in a nul, and the records must be no more than the parser
/// allows.
pub proof fn law_streamed_read_back(
    out: Seq<u8>,
    h: Seq<u8>,
    path: Seq<u8>,
    target: Option<Seq<u8>>,
    data: Seq<u8>,
    rest: Seq<u8>,
    options: Options,
)
    requires
        h.len() == 512,
        is_gnu(h),
        path_extended(h, path).result is Ok,
        linked(path_extended(h, path).header, target).result is Ok,
        ({
            let p = path_extended(h, path);
            let l = linked(p.header, target);
            let c = with_cksum(l.header);
            &&& is_ordinary(c)
            &&& ordinary(c).size == data.len()
            &&& p.record.len() > 0 ==> path.last() != 0
            &&& l.record.len() > 0 ==> target->Some_0.last() != 0
            &&& path.len() + text_size(target) < 1048576
            &&& appended(out + (p.record + l.record), c, data).len() <= u64::MAX
        }),
    ensures
        ({
            let p = path_extended(h, path);
            let l = linked(p.header, target);
            let c = with_cksum(l.header);
            let added = appended(out + (p.record + l.record), c, data);
            reads_back(
                added + rest,
                out.len() as int,
                options,
                c,
                streamed_path(h, path),
                streamed_link(p.header, target),
                data,
                added.len() as int,
            )
        }),
{
    let p = path_extended(h, path);
    let l = linked(p.header, target);
    let c = with_cksum(l.header);
    lemma_named(h, path);
    lemma_linked(p.header, target);
    law_cksum_right(l.header);
    let name = put_aside(p, path);
    let link = if l.record.len() > 0 {
        target
    } else {
        None
    };
    let front = pax_record(None) + text_record(name, 76) + text_record(link, 75);
    assert(front =~= p.record + l.record);
    let added = appended(out + front, c, data);
    law_front_read_back(out, None, name, link, c, data, rest);
    assert(c.subrange(0, 100) == l.header.subrange(0, 100));
    assert(l.header.subrange(0, 100) == p.header.subrange(0, 100));
    assert(c.subrange(257, 265) == l.header.subrange(257, 265));
    assert(l.header.subrange(257, 265) == p.header.subrange(257, 265));
    assert(c.subrange(157, 257) == l.header.subrange(157, 257));
    assert(c.subrange(157, 257)[0] == c[157] && l.header.subrange(157, 257)[0] == l.header[157]);
    assert(header_path(c) == header_path(p.header));
    assert(header_link(c) == header_link(l.header));
    let f = Front {
        name,
        link,
        bytes: pax_size(None) + text_size(name) + text_size(link),
        ..no_front()
    };
    let at = (out.len() + front.len() + 512) as u64;
    lemma_described(completed(ordinary(c), f), at, front.len() + 512int, options);
    lemma_one_run(data, rest_of(added + rest, at as int));
}

} // verus!
