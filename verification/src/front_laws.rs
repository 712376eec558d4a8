//! What holds of entries that are written behind records with a long path, a long link name or
//! pax extensions, and read back.

use crate::archive::{plain_ahead, rest_of};
use crate::archive_laws::{
    lemma_blank_gnu, lemma_cksum_right_plain, lemma_octal_field_plain, lemma_octal_step,
    lemma_small_powers, lemma_type_step, lemma_with_field,
};
use crate::builder::{appended, long_header, long_link_name, pax_header};
use crate::bytes::{find_from, lemma_find_from, slashed, truncated, with_field};
use crate::entry::{content, without_nul, zeros, EntryIo, Options};
use crate::header::{
    blank_gnu, blank_ustar, header_link, header_path, is_gnu, is_ustar, ustar_magic, with_cksum, with_octal,
};
use crate::header_laws::law_cksum_right;
use crate::machine::described_entry;
use crate::parser::{
    announced_size, announces, chained, completed, is_ordinary, is_plain_pax,
    no_front, ordinary, padded, raw_path, record_at_front, Described, Front,
};
use crate::stream_append::long_record;
use vstd::arithmetic::power::pow;
use vstd::prelude::*;

verus! {

/// Whether a header is the one that was written, but for the spelling of owner and group.
pub open spec fn is_kept(h: Seq<u8>, written: Seq<u8>) -> bool {
    h.len() == written.len() == 512 && h.take(108) == written.take(108) && h.skip(124)
        == written.skip(124)
}

/// Whether a walk that gets to `at` finds an entry there with the given header, path, link name
/// and data, and `next` behind it.
pub open spec fn reads_back(
    obj: Seq<u8>,
    at: int,
    options: Options,
    h: Seq<u8>,
    path: Seq<u8>,
    link: Option<Seq<u8>>,
    data: Seq<u8>,
    next: int,
) -> bool {
    &&& plain_ahead(obj, at) matches Some((n, d))
    &&& described_entry((at + n) as u64, n, d, options) matches Ok((e, behind))
    &&& is_kept(e.header, h)
    &&& e.path() == path
    &&& e.link() == link
    &&& e.size == data.len()
    &&& content(e.data, rest_of(obj, at + n)) == data
    &&& behind == next
}

proof fn lemma_slashed_path(prefix: Seq<u8>, name: Seq<u8>)
    ensures
        slashed(prefix.push(47u8) + name) == slashed(prefix).push(47u8) + slashed(name),
{
    assert(slashed(prefix.push(47u8) + name) =~= slashed(prefix).push(47u8) + slashed(name));
}

/// The entry that a description without blocks of a sparse file stands for.
///
/// Its path is that of the header if the description has that path. Any other path and link name
/// is kept, unless it ends in a nul, or is the name in a UStar header with a prefix.
pub(crate) proof fn lemma_described(d: Described, next: u64, n: int, options: Options)
    requires
        d.header.len() == 512,
        d.sparse is None,
        d.size + 511 <= u64::MAX,
        0 <= n <= next,
        next + padded(d.size as int) <= u64::MAX,
    ensures
        described_entry(next, n, d, options) matches Ok((e, behind)) && {
            &&& is_kept(e.header, d.header)
            &&& e.pax_extensions == d.pax
            &&& e.size == d.size
            &&& e.data == seq![EntryIo::Data(d.size)]
            &&& behind == next + padded(d.size as int)
            &&& d.path == raw_path(d.header) ==> e.path() == header_path(d.header)
            &&& d.path.len() > 0 && d.path.last() != 0 && (!is_ustar(d.header) || d.header[345]
                == 0) ==> e.path() == slashed(d.path)
            &&& d.link_target is None || d.link_target == Some(
                truncated(d.header.subrange(157, 257)),
            ) ==> e.link() == header_link(d.header)
            &&& d.link_target matches Some(l) ==> (l.len() > 0 && l.last() != 0 ==> e.link()
                == Some(slashed(l)))
        },
{
    let h = d.header;
    let h1 = with_octal(h, 108, 116, d.uid as int);
    let h2 = with_octal(h1, 116, 124, d.gid as int);
    lemma_octal_step(h, 108, 116, d.uid as int);
    lemma_octal_step(h1, 116, 124, d.gid as int);
    assert(h2.subrange(0, 100) == h1.subrange(0, 100));
    assert(h2.subrange(345, 500) == h1.subrange(345, 500));
    assert(h2.subrange(257, 265) == h1.subrange(257, 265));
    assert(h2.subrange(157, 257) == h1.subrange(157, 257));
    assert(h2.take(108) =~= h.take(108));
    assert(h2.skip(124) =~= h.skip(124));
    assert(h2.subrange(157, 257)[0] == h2[157]);
    assert(h.subrange(157, 257)[0] == h[157]);
    let name = truncated(h.subrange(0, 100));
    let prefix = truncated(h.subrange(345, 500));
    lemma_find_from(h.subrange(345, 500), 0, 0);
    lemma_find_from(h.subrange(0, 100), 0, 0);
    lemma_find_from(h.subrange(157, 257), 0, 0);
    assert(slashed(prefix).len() == prefix.len());
    assert(h.subrange(345, 500)[0] == h[345]);
    assert(h[345] == 0 ==> prefix.len() == 0) by {
        assert(h[345] == 0 ==> find_from(h.subrange(345, 500), 0, 0) == 0);
    }
    if is_ustar(h) && prefix.len() > 0 {
        let raw = prefix.push(47u8) + name;
        assert(raw.len() == prefix.len() + 1 + name.len());
        lemma_slashed_path(prefix, name);
        assert(raw.last() != 0) by {
            if name.len() > 0 {
                assert(raw.last() == name[name.len() - 1]);
            } else {
                assert(raw.last() == 47);
            }
        }
        assert(without_nul(raw) == raw);
    }
}

/// A record in front of other bytes joins the records in front of it.
pub(crate) proof fn lemma_record_ahead(h: Seq<u8>, text: Seq<u8>, tail: Seq<u8>, f: Front)
    requires
        f.takes(h),
        announced_size(h) == text.len(),
    ensures
        chained(appended(Seq::empty(), h, text) + tail, f) == match chained(
            tail,
            f.with(h[156], text),
        ) {
            Some((n, d)) => Some((512 + padded(text.len() as int) + n, d)),
            None => None,
        },
{
    reveal(chained);
    let input = appended(Seq::empty(), h, text) + tail;
    let at = 512 + padded(text.len() as int);
    assert(input.take(512) =~= h);
    assert(record_at_front(input) =~= text);
    assert(input.skip(at) =~= tail);
}

/// An ordinary header in front of other bytes is complete.
pub(crate) proof fn lemma_header_ahead(h: Seq<u8>, tail: Seq<u8>, f: Front)
    requires
        is_ordinary(h),
        f.pax matches Some(data) ==> is_plain_pax(data),
    ensures
        chained(h + tail, f) == Some((512int, completed(ordinary(h), f))),
{
    reveal(chained);
    assert((h + tail).take(512) =~= h);
}

/// The header of a record with a long path or link name announces it.
pub(crate) proof fn lemma_long_header(size: int, kind: u8)
    requires
        0 <= size <= 1048576,
        kind == 76 || kind == 75,
    ensures
        announces(long_header(size, kind)),
        announced_size(long_header(size, kind)) == size,
        long_header(size, kind)[156] == kind,
{
    let g = blank_gnu();
    lemma_blank_gnu();
    let h0 = with_field(g, 0, long_link_name());
    lemma_with_field(g, 0, long_link_name());
    assert(h0.subrange(257, 265) =~= g.subrange(257, 265));
    let h1 = with_octal(h0, 100, 108, 0o644);
    let h2 = with_octal(h1, 108, 116, 0);
    let h3 = with_octal(h2, 116, 124, 0);
    let h4 = with_octal(h3, 136, 148, 0);
    let h5 = with_octal(h4, 124, 136, size);
    let h6 = with_field(h5, 156, seq![kind]);
    lemma_octal_step(h0, 100, 108, 0o644);
    lemma_octal_step(h1, 108, 116, 0);
    lemma_octal_step(h2, 116, 124, 0);
    lemma_octal_step(h3, 136, 148, 0);
    lemma_octal_step(h4, 124, 136, size);
    lemma_type_step(h5, kind);
    assert(h6.subrange(257, 265) == h5.subrange(257, 265));
    assert(h5.subrange(257, 265) == h4.subrange(257, 265));
    assert(h4.subrange(257, 265) == h3.subrange(257, 265));
    assert(h3.subrange(257, 265) == h2.subrange(257, 265));
    assert(h2.subrange(257, 265) == h1.subrange(257, 265));
    assert(h1.subrange(257, 265) == h0.subrange(257, 265));
    assert(h4.subrange(124, 136) == h3.subrange(124, 136));
    assert(h3.subrange(124, 136) == h2.subrange(124, 136));
    assert(h2.subrange(124, 136) == h1.subrange(124, 136));
    assert(h1.subrange(124, 136) == h0.subrange(124, 136));
    lemma_announced(h4, h5, h6, size, kind);
}

/// The header of pax extensions announces them.
pub(crate) proof fn lemma_pax_header(size: int)
    requires
        0 <= size <= 1048576,
    ensures
        announces(pax_header(size)),
        announced_size(pax_header(size)) == size,
        pax_header(size)[156] == 120,
{
    let g = blank_ustar();
    let h1 = with_octal(g, 124, 136, size);
    let h2 = with_field(h1, 156, seq![120u8]);
    assert(g.subrange(257, 265) =~= ustar_magic());
    lemma_octal_step(g, 124, 136, size);
    lemma_type_step(h1, 120);
    assert(h2.subrange(257, 265) == h1.subrange(257, 265));
    assert(h1.subrange(257, 265) == g.subrange(257, 265));
    lemma_announced(g, h1, h2, size, 120);
}

/// A header with a size, a type and a checksum announces a record, if its format has records.
proof fn lemma_announced(g: Seq<u8>, sized: Seq<u8>, typed: Seq<u8>, size: int, kind: u8)
    requires
        g.len() == 512,
        g.subrange(124, 136).last() == 0,
        sized == with_octal(g, 124, 136, size),
        typed == with_field(sized, 156, seq![kind]),
        0 <= size <= 1048576,
        kind == 76 || kind == 75 || kind == 120,
        is_ustar(typed) || is_gnu(typed),
    ensures
        announces(with_cksum(typed)),
        announced_size(with_cksum(typed)) == size,
        with_cksum(typed)[156] == kind,
{
    lemma_octal_step(g, 124, 136, size);
    lemma_type_step(sized, kind);
    lemma_octal_field_plain(g.subrange(124, 136), size);
    lemma_small_powers();
    vstd::arithmetic::div_mod::lemma_small_mod(size as nat, pow(8, 11) as nat);
    law_cksum_right(typed);
    lemma_cksum_right_plain(typed);
    let c = with_cksum(typed);
    assert(c.subrange(257, 265) == typed.subrange(257, 265));
    assert(c.subrange(124, 136) == typed.subrange(124, 136));
    assert(typed.subrange(124, 136) == sized.subrange(124, 136));
    assert(c.subrange(156, 157) == typed.subrange(156, 157));
    assert(c.subrange(156, 157)[0] == c[156]);
}

/// The record of pax extensions, if there are any.
pub open spec fn pax_record(pax: Option<Seq<u8>>) -> Seq<u8> {
    match pax {
        Some(text) => appended(Seq::empty(), pax_header(text.len() as int), text),
        None => Seq::empty(),
    }
}

/// The record of a long path or link name, if there is one: its text and a nul.
pub open spec fn text_record(text: Option<Seq<u8>>, kind: u8) -> Seq<u8> {
    match text {
        Some(text) => long_record(text, kind),
        None => Seq::empty(),
    }
}

/// How many bytes the record of a long path or link name announces.
pub open spec fn text_size(text: Option<Seq<u8>>) -> int {
    match text {
        Some(text) => text.len() + 1int,
        None => 0,
    }
}

/// How many bytes the record of pax extensions announces.
pub open spec fn pax_size(pax: Option<Seq<u8>>) -> int {
    match pax {
        Some(text) => text.len() as int,
        None => 0,
    }
}

/// These records and a long path or link name, if there is one.
pub open spec fn with_text(f: Front, text: Option<Seq<u8>>, kind: u8) -> Front {
    match text {
        Some(text) => f.with(kind, text.push(0u8)),
        None => f,
    }
}

/// What stands behind some bytes, and as many bytes more.
pub open spec fn moved(r: Option<(int, Described)>, k: int) -> Option<(int, Described)> {
    match r {
        Some((n, d)) => Some((k + n, d)),
        None => None,
    }
}

proof fn lemma_text_ahead(text: Option<Seq<u8>>, kind: u8, tail: Seq<u8>, f: Front)
    requires
        kind == 76 || kind == 75,
        !f.kinds().has(kind),
        0 <= f.bytes,
        f.bytes + text_size(text) <= 1048576,
    ensures
        chained(text_record(text, kind) + tail, f) == moved(
            chained(tail, with_text(f, text, kind)),
            text_record(text, kind).len() as int,
        ),
{
    match text {
        Some(text) => {
            let t = text.push(0u8);
            lemma_long_header(t.len() as int, kind);
            lemma_record_ahead(long_header(t.len() as int, kind), t, tail, f);
        },
        None => {
            assert(text_record(text, kind) + tail =~= tail);
        },
    }
}

proof fn lemma_pax_ahead(pax: Option<Seq<u8>>, tail: Seq<u8>)
    requires
        pax_size(pax) <= 1048576,
    ensures
        chained(pax_record(pax) + tail, no_front()) == moved(
            chained(tail, Front { pax, bytes: pax_size(pax), ..no_front() }),
            pax_record(pax).len() as int,
        ),
{
    let f = Front { pax, bytes: pax_size(pax), ..no_front() };
    match pax {
        Some(text) => {
            lemma_pax_header(text.len() as int);
            lemma_record_ahead(pax_header(text.len() as int), text, tail, no_front());
            assert(no_front().with(120, text) =~= f);
        },
        None => {
            assert(pax_record(pax) + tail =~= tail);
            assert(f =~= no_front());
        },
    }
}

/// The bytes behind the front of an entry, and what is left behind its headers.
proof fn lemma_shape(out: Seq<u8>, front: Seq<u8>, h: Seq<u8>, data: Seq<u8>, rest: Seq<u8>)
    requires
        h.len() == 512,
    ensures
        ({
            let added = appended(out + front, h, data);
            let n = front.len() + 512int;
            let more = data + zeros(padded(data.len() as int) - data.len()) + rest;
            &&& (added + rest).skip(out.len() as int) == front + (h + more)
            &&& out.len() <= (added + rest).len()
            &&& data.len() <= rest_of(added + rest, out.len() + n).len()
            &&& rest_of(added + rest, out.len() + n).take(data.len() as int) == data
            &&& added.len() == out.len() + n + padded(data.len() as int)
        }),
{
    let added = appended(out + front, h, data);
    let n = front.len() + 512int;
    let more = data + zeros(padded(data.len() as int) - data.len()) + rest;
    assert((added + rest).skip(out.len() as int) =~= front + (h + more));
    assert(rest_of(added + rest, out.len() + n) =~= more);
    assert(more.take(data.len() as int) =~= data);
}

/// The records that there are, as the parser keeps them.
proof fn lemma_front(pax: Option<Seq<u8>>, name: Option<Seq<u8>>, link: Option<Seq<u8>>)
    ensures
        with_text(
            with_text(Front { pax, bytes: pax_size(pax), ..no_front() }, name, 76),
            link,
            75,
        ) == (Front {
            name,
            link,
            pax,
            bytes: pax_size(pax) + text_size(name) + text_size(link),
        }),
{
    if let Some(text) = name {
        assert(without_nul(text.push(0u8)) =~= text);
    }
    if let Some(text) = link {
        assert(without_nul(text.push(0u8)) =~= text);
    }
}

proof fn lemma_front_chained(
    pax: Option<Seq<u8>>,
    name: Option<Seq<u8>>,
    link: Option<Seq<u8>>,
    h: Seq<u8>,
    more: Seq<u8>,
)
    requires
        is_ordinary(h),
        pax matches Some(text) ==> is_plain_pax(text),
        pax_size(pax) + text_size(name) + text_size(link) <= 1048576,
    ensures
        ({
            let front = pax_record(pax) + text_record(name, 76) + text_record(link, 75);
            let bytes = pax_size(pax) + text_size(name) + text_size(link);
            chained(front + (h + more), no_front()) == Some(
                (front.len() + 512int, completed(ordinary(h), Front { name, link, pax, bytes })),
            )
        }),
{
    let first = pax_record(pax);
    let second = text_record(name, 76);
    let third = text_record(link, 75);
    let tail = h + more;
    assert(first + second + third + tail =~= first + (second + (third + tail)));
    let f1 = Front { pax, bytes: pax_size(pax), ..no_front() };
    let f2 = with_text(f1, name, 76);
    lemma_front(pax, name, link);
    lemma_header_ahead(h, more, with_text(f2, link, 75));
    lemma_text_ahead(link, 75, tail, f2);
    lemma_text_ahead(name, 76, third + tail, f1);
    lemma_pax_ahead(pax, second + (third + tail));
}

/// Pax extensions, a long path and a long link name, as far as there are any, and an entry behind
/// them are read together: the entry is what its header says, but for what the records say.
///
/// The extensions must be plain, and the records no more than the parser allows.
pub proof fn law_front_read_back(
    out: Seq<u8>,
    pax: Option<Seq<u8>>,
    name: Option<Seq<u8>>,
    link: Option<Seq<u8>>,
    h: Seq<u8>,
    data: Seq<u8>,
    rest: Seq<u8>,
)
    requires
        is_ordinary(h),
        pax matches Some(text) ==> is_plain_pax(text),
        pax_size(pax) + text_size(name) + text_size(link) <= 1048576,
    ensures
        ({
            let front = pax_record(pax) + text_record(name, 76) + text_record(link, 75);
            let bytes = pax_size(pax) + text_size(name) + text_size(link);
            let added = appended(out + front, h, data);
            let n = front.len() + 512int;
            &&& plain_ahead(added + rest, out.len() as int) == Some(
                (n, completed(ordinary(h), Front { name, link, pax, bytes })),
            )
            &&& data.len() <= rest_of(added + rest, out.len() + n).len()
            &&& rest_of(added + rest, out.len() + n).take(data.len() as int) == data
            &&& added.len() == out.len() + n + padded(data.len() as int)
        }),
{
    let front = pax_record(pax) + text_record(name, 76) + text_record(link, 75);
    let more = data + zeros(padded(data.len() as int) - data.len()) + rest;
    lemma_shape(out, front, h, data, rest);
    lemma_front_chained(pax, name, link, h, more);
}

} // verus!
