//! The header parser: from the bytes in front of an entry to what they say of it.

use crate::bytes::{find_from, truncated};
use crate::entry::{optional, without_nul, zeros};
use crate::error::TarError;
use crate::gathering::{extends_entry, overflows, Gathered};
use crate::header::{checksum, is_gnu, is_ustar};
use crate::number::{numeral_up_to, octal};
use crate::pax::{all_records, records};
use tar_core::parse::{Limits, ParseError, ParseEvent, Parser};
use std::borrow::Cow;
use vstd::prelude::*;
use vstd::utf8::{encode_utf8, valid_utf8};

verus! {

/// What the parser makes of the bytes in front of an entry.
#[verifier::ext_equal]
pub enum Parsed {
    /// Nothing yet: at least so many bytes are needed.
    NeedData(int),
    /// An entry, whose headers take so many bytes.
    Entry(int, Described),
    /// Extensions for all entries, which take so many bytes.
    GlobalExtensions(int),
    /// The end of the archive, which takes so many bytes.
    End(int),
    /// An entry of a size that cannot be rounded up to whole blocks.
    InvalidSize,
    /// Bytes that are refused, for the reason that the text gives.
    Refused(Seq<char>),
}

/// What the headers of an entry say of it, as a mathematical value.
#[verifier::ext_equal]
pub struct Described {
    /// The header.
    pub header: Seq<u8>,
    /// The owner.
    pub uid: u64,
    /// The group.
    pub gid: u64,
    /// The number of bytes that the archive holds.
    pub size: u64,
    /// The path.
    pub path: Seq<u8>,
    /// The link name.
    pub link_target: Option<Seq<u8>>,
    /// The data of the pax extensions.
    pub pax: Option<Seq<u8>>,
    /// The offsets and lengths of the blocks of a sparse file, and its size.
    pub sparse: Option<(Seq<(u64, u64)>, u64)>,
}

/// What the parser makes of the bytes in front of an entry.
pub enum Event {
    /// At least so many bytes are needed.
    NeedData(usize),
    /// An entry, whose headers take so many bytes.
    Entry(usize),
    /// Extensions for all entries, which take so many bytes.
    GlobalExtensions(usize),
    /// The end of the archive, which takes so many bytes.
    End(usize),
}

/// Why the parser refuses bytes.
pub enum Refusal {
    /// The size of the entry cannot be rounded up to whole blocks.
    InvalidSize,
    /// Anything else, in words.
    Other(String),
}

/// What the headers of an entry say of it.
pub struct Description {
    /// The header.
    pub header: [u8; 512],
    /// The owner.
    pub uid: u64,
    /// The group.
    pub gid: u64,
    /// The number of bytes that the archive holds.
    pub size: u64,
    /// The path.
    pub path: Vec<u8>,
    /// The link name.
    pub link_target: Option<Vec<u8>>,
    /// The data of the pax extensions.
    pub pax: Option<Vec<u8>>,
    /// The offsets and lengths of the blocks of a sparse file, and its size.
    pub sparse: Option<(Vec<(u64, u64)>, u64)>,
}

impl View for Description {
    type V = Described;

    open spec fn view(&self) -> Described {
        Described {
            header: self.header@,
            uid: self.uid,
            gid: self.gid,
            size: self.size,
            path: self.path@,
            link_target: optional(self.link_target),
            pax: optional(self.pax),
            sparse: match self.sparse {
                Some((map, size)) => Some((map@, size)),
                None => None,
            },
        }
    }
}

/// What `tar_core::parse::Parser::parse` makes of some bytes, if the parser is new, has the
/// default limits and allows empty paths.
pub uninterp spec fn parsed(input: Seq<u8>) -> Parsed;

/// Whether a byte is ASCII white space.
pub open spec fn is_space(b: u8) -> bool {
    9 <= b <= 13 || b == 32
}

/// The number in a field of plain ASCII octal digits; a field without any counts as zero.
#[verifier::opaque]
pub open spec fn plain_number(field: Seq<u8>) -> Option<u64> {
    let text = truncated(field);
    if !(forall|k: int| 0 <= k < text.len() ==> #[trigger] text[k] < 128) {
        None
    } else if forall|k: int| 0 <= k < text.len() ==> is_space(#[trigger] text[k]) {
        Some(0)
    } else {
        match octal(field) {
            Ok(n) => Some(n),
            Err(_) => None,
        }
    }
}

/// Whether the checksum of a header is right.
pub open spec fn has_right_cksum(h: Seq<u8>) -> bool {
    plain_number(h.subrange(148, 156)) matches Some(sum) && sum == checksum(h)
}

/// A header that describes an entry all by itself: plain numbers, a right checksum, and a
/// type that asks for nothing else.
pub open spec fn is_ordinary(h: Seq<u8>) -> bool {
    let t = h[156];
    &&& h.len() == 512
    &&& t != 76 && t != 75 && t != 120 && t != 103 && t != 83
    &&& has_right_cksum(h)
    &&& plain_number(h.subrange(100, 108)) is Some
    &&& plain_number(h.subrange(108, 116)) is Some
    &&& plain_number(h.subrange(116, 124)) is Some
    &&& plain_number(h.subrange(136, 148)) is Some
    &&& plain_number(h.subrange(124, 136)) matches Some(size) && size + 511 <= u64::MAX
    &&& is_ustar(h) || is_gnu(h) ==> plain_number(h.subrange(329, 337)) is Some && plain_number(
        h.subrange(337, 345),
    ) is Some
}

/// The path in a header, byte by byte.
pub open spec fn raw_path(h: Seq<u8>) -> Seq<u8> {
    let name = truncated(h.subrange(0, 100));
    let prefix = truncated(h.subrange(345, 500));
    if is_ustar(h) && prefix.len() > 0 {
        prefix.push(47u8) + name
    } else {
        name
    }
}

/// What an ordinary header says of its entry.
pub open spec fn ordinary(h: Seq<u8>) -> Described {
    let link = truncated(h.subrange(157, 257));
    Described {
        header: h,
        uid: plain_number(h.subrange(108, 116))->Some_0,
        gid: plain_number(h.subrange(116, 124))->Some_0,
        size: plain_number(h.subrange(124, 136))->Some_0,
        path: raw_path(h),
        link_target: if link.len() > 0 {
            Some(link)
        } else {
            None
        },
        pax: None,
        sparse: None,
    }
}

/// A number rounded up to whole blocks.
pub open spec fn padded(n: int) -> int {
    (n + 511) / 512 * 512
}

/// Whether a header announces a record that belongs to the next entry: a long path, a long link
/// name or pax extensions.
pub open spec fn announces(h: Seq<u8>) -> bool {
    &&& h.len() == 512
    &&& extends_entry(h)
    &&& plain_number(h.subrange(124, 136)) is Some
}

/// How long the record is that a header announces.
pub open spec fn announced_size(h: Seq<u8>) -> int {
    plain_number(h.subrange(124, 136))->Some_0 as int
}

/// Where the next header stands behind a header that announces a record.
pub open spec fn behind_record(input: Seq<u8>) -> int {
    512 + padded(announced_size(input.take(512)))
}

/// The record at the front of some bytes, behind the header that announces it.
pub open spec fn record_at_front(input: Seq<u8>) -> Seq<u8> {
    input.subrange(512, 512 + announced_size(input.take(512)))
}

/// The keys and values of pax extensions.
pub open spec fn pairs_in(data: Seq<u8>) -> Seq<(Seq<u8>, Seq<u8>)> {
    records(Some(data)).map_values(
        |r: Result<(Seq<u8>, Seq<u8>), TarError>| r->Ok_0,
    )
}

/// Whether a key and a value are none that the parser refuses or takes for a sparse file.
///
/// Keys are text without an equals sign. Sizes, owners and groups are decimal numbers, and
/// times start with one.
pub open spec fn is_plain_pair(key: Seq<u8>, value: Seq<u8>) -> bool {
    &&& valid_utf8(key) && !key.contains(61u8)
    &&& !encode_utf8("GNU.sparse."@).is_prefix_of(key)
    &&& key == encode_utf8("size"@) || key == encode_utf8("uid"@) || key == encode_utf8("gid"@)
        ==> numeral_up_to(value, 10, u64::MAX as int) is Some
    &&& key == encode_utf8("mtime"@) ==> valid_utf8(value) && numeral_up_to(
        value.take(find_from(value, 46, 0)),
        10,
        u64::MAX as int,
    ) is Some
}

/// Whether pax extensions are nothing but well-formed records of plain keys and values.
pub open spec fn is_plain_pax(data: Seq<u8>) -> bool {
    let list = pairs_in(data);
    &&& all_records(list) == data
    &&& forall|k: int| 0 <= k < list.len() ==> is_plain_pair((#[trigger] list[k]).0, list[k].1)
}

/// The value of the last of some pairs that has a key.
pub open spec fn last_value(list: Seq<(Seq<u8>, Seq<u8>)>, key: Seq<u8>) -> Option<Seq<u8>>
    decreases list.len(),
{
    if list.len() == 0 {
        None
    } else if list.last().0 == key {
        Some(list.last().1)
    } else {
        last_value(list.drop_last(), key)
    }
}

/// The number in the last of some pairs that has a key, or another number if there is none.
pub open spec fn last_number(list: Seq<(Seq<u8>, Seq<u8>)>, key: Seq<u8>, other: u64) -> u64 {
    match last_value(list, key) {
        Some(value) => numeral_up_to(value, 10, u64::MAX as int)->Some_0 as u64,
        None => other,
    }
}

/// What a header with pax extensions in front of it says of its entry.
pub open spec fn extended(d: Described, data: Seq<u8>) -> Described {
    let list = pairs_in(data);
    Described {
        uid: last_number(list, encode_utf8("uid"@), d.uid),
        gid: last_number(list, encode_utf8("gid"@), d.gid),
        size: last_number(list, encode_utf8("size"@), d.size),
        path: match last_value(list, encode_utf8("path"@)) {
            Some(path) => path,
            None => d.path,
        },
        link_target: match last_value(list, encode_utf8("linkpath"@)) {
            Some(link) => if link.len() > 0 {
                Some(link)
            } else {
                None
            },
            None => d.link_target,
        },
        pax: Some(data),
        ..d
    }
}

/// The records in front of an entry.
#[verifier::ext_equal]
pub struct Front {
    /// The long path.
    pub name: Option<Seq<u8>>,
    /// The long link name.
    pub link: Option<Seq<u8>>,
    /// The pax extensions.
    pub pax: Option<Seq<u8>>,
    /// How many bytes they hold.
    pub bytes: int,
}

impl Front {
    /// These records and one more.
    pub open spec fn with(self, t: u8, data: Seq<u8>) -> Front {
        Front {
            name: if t == 76 {
                Some(without_nul(data))
            } else {
                self.name
            },
            link: if t == 75 {
                Some(without_nul(data))
            } else {
                self.link
            },
            pax: if t == 120 {
                Some(data)
            } else {
                self.pax
            },
            bytes: self.bytes + data.len(),
        }
    }

    /// What kinds of records there are.
    pub open spec fn kinds(self) -> Gathered {
        Gathered {
            name: self.name is Some,
            link: self.link is Some,
            pax: self.pax is Some,
            bytes: self.bytes,
        }
    }

    /// Whether a header announces one more record that the parser takes: the first of its kind,
    /// and not too long together with the others.
    pub open spec fn takes(self, h: Seq<u8>) -> bool {
        announces(h) && !self.kinds().has(h[156]) && self.bytes + announced_size(h) <= 1048576
    }
}

/// No records.
pub open spec fn no_front() -> Front {
    Front { name: None, link: None, pax: None, bytes: 0 }
}

/// What a header with records in front of it says of its entry.
pub open spec fn completed(d: Described, f: Front) -> Described {
    let d = Described {
        path: match f.name {
            Some(name) => name,
            None => d.path,
        },
        link_target: match f.link {
            Some(link) => if link.len() > 0 {
                Some(link)
            } else {
                None
            },
            None => d.link_target,
        },
        ..d
    };
    match f.pax {
        Some(data) => extended(d, data),
        None => d,
    }
}

/// How many bytes the headers take, and what they say of the entry, if some bytes start with
/// records and go on with an ordinary header.
#[verifier::opaque]
pub open spec fn chained(input: Seq<u8>, f: Front) -> Option<(int, Described)>
    decreases input.len(),
{
    let h = input.take(512);
    let at = behind_record(input);
    if input.len() < 512 {
        None
    } else if is_ordinary(h) {
        if f.pax is Some && !is_plain_pax(f.pax->Some_0) {
            None
        } else {
            Some((512, completed(ordinary(h), f)))
        }
    } else if f.takes(h) && at <= input.len() {
        match chained(input.skip(at), f.with(h[156], record_at_front(input))) {
            Some((n, d)) => Some((at + n, d)),
            None => None,
        }
    } else {
        None
    }
}

/// How many bytes are needed to go on, if some bytes start with records and break off.
#[verifier::opaque]
pub open spec fn wanted(input: Seq<u8>, f: Front) -> Option<int>
    decreases input.len(),
{
    let h = input.take(512);
    let at = behind_record(input);
    if input.len() < 512 {
        Some(512)
    } else if is_ordinary(h) || !f.takes(h) {
        None
    } else if input.len() < at {
        Some(at)
    } else {
        match wanted(input.skip(at), f.with(h[156], record_at_front(input))) {
            Some(n) => Some(at + n),
            None => None,
        }
    }
}

/// What is known of how the parser reads plain bytes.
///
/// A block of zeros is the end if another one follows. Otherwise it asks for one header or record
/// after the other; an ordinary header and the records in front of it are an entry.
pub open spec fn reads_plainly(b: Seq<u8>) -> bool {
    &&& 512 <= b.len() < 1024 && b.take(512) == zeros(512) ==> parsed(b) == Parsed::NeedData(1024)
    &&& b.len() >= 1024 && b.take(1024) == zeros(1024) ==> parsed(b) == Parsed::End(1024)
    &&& wanted(b, no_front()) matches Some(n) ==> parsed(b) == Parsed::NeedData(n)
    &&& chained(b, no_front()) matches Some((n, d)) ==> parsed(b) == Parsed::Entry(n, d)
}

/// Whether an event is what the parser makes of some bytes.
pub open spec fn is_event(r: Result<Event, Refusal>, p: Parsed) -> bool {
    match p {
        Parsed::NeedData(n) => r matches Ok(Event::NeedData(m)) && m == n,
        Parsed::Entry(n, _) => r matches Ok(Event::Entry(m)) && m == n,
        Parsed::GlobalExtensions(n) => r matches Ok(Event::GlobalExtensions(m)) && m == n,
        Parsed::End(n) => r matches Ok(Event::End(m)) && m == n,
        Parsed::InvalidSize => r matches Err(Refusal::InvalidSize),
        Parsed::Refused(text) => r matches Err(Refusal::Other(s)) && s@ == text,
    }
}

/// Whether an event asks for `n` bytes.
pub open spec fn needs(r: Result<Event, Refusal>, n: int) -> bool {
    r matches Ok(Event::NeedData(m)) && m == n
}

/// Whether an event is an entry whose headers take `n` bytes.
pub open spec fn takes(r: Result<Event, Refusal>, n: int) -> bool {
    r matches Ok(Event::Entry(m)) && m == n
}

/// Whether an event is the end of the archive, which takes `n` bytes.
pub open spec fn ends(r: Result<Event, Refusal>, n: int) -> bool {
    r matches Ok(Event::End(m)) && m == n
}

/// Whether a description is the one that is expected.
pub open spec fn describes(r: Option<Description>, d: Described) -> bool {
    r matches Some(e) && e@ == d
}

/// Whether a description is what the parser makes of some bytes.
pub open spec fn is_description(r: Option<Description>, p: Parsed) -> bool {
    match p {
        Parsed::Entry(_, d) => describes(r, d),
        _ => r is None,
    }
}

/// Parses the bytes in front of an entry.
///
/// Calls `tar_core::parse::Parser::parse` on a new parser with the default limits that
/// allows empty paths. The parser keeps nothing between calls before the end of the
/// archive, so what it returns depends on the bytes alone. Whatever it takes is at
/// least one block and no more than there is. It adds up the sizes of the extension records in
/// front of an entry, and panics or wraps around where they overflow. A block of zeros it takes
/// for the end if another one follows. Otherwise it asks for one header or record after the
/// other; an ordinary header and the records in front of it, at most one of each kind and no more
/// than a mebibyte, it takes for an entry.
#[verifier::external_body]
pub(crate) fn parse(input: &[u8]) -> (r: Result<Event, Refusal>)
    requires
        !overflows(input@),
    ensures
        is_event(r, parsed(input@)),
        r matches Ok(Event::Entry(n)) ==> 512 <= n <= input@.len(),
        r matches Ok(Event::GlobalExtensions(n)) ==> 512 <= n <= input@.len(),
        r matches Ok(Event::End(n)) ==> 512 <= n <= input@.len(),
        512 <= input@.len() < 1024 && input@.take(512) == zeros(512) ==> needs(r, 1024),
        input@.len() >= 1024 && input@.take(1024) == zeros(1024) ==> ends(r, 1024),
        wanted(input@, no_front()) matches Some(n) ==> needs(r, n),
        chained(input@, no_front()) matches Some((n, _)) ==> takes(r, n),
{
    let mut parser = Parser::new(Limits::default());
    parser.set_allow_empty_path(true);
    match parser.parse(input) {
        Ok(ParseEvent::NeedData { min_bytes }) => Ok(Event::NeedData(min_bytes)),
        Ok(ParseEvent::Entry { consumed, .. }) => Ok(Event::Entry(consumed)),
        Ok(ParseEvent::SparseEntry { consumed, .. }) => Ok(Event::Entry(consumed)),
        Ok(ParseEvent::GlobalExtensions { consumed, .. }) => Ok(Event::GlobalExtensions(consumed)),
        Ok(ParseEvent::End { consumed }) => Ok(Event::End(consumed)),
        Err(ParseError::InvalidSize(_)) => Err(Refusal::InvalidSize),
        Err(e) => Err(Refusal::Other(e.to_string())),
    }
}

/// Reads what the headers of an entry say of it.
///
/// Calls `tar_core::parse::Parser::parse` in the same way as `parse`, and takes the
/// fields of the entry from what it returns. For an ordinary header they are the fields of the
/// header. A long path or link name in front of it takes the place of the one in the header. Pax
/// extensions in front of it are kept as they are, and the last path, link name, owner, group
/// and size among them take the place of all others.
#[verifier::external_body]
pub(crate) fn describe(input: &[u8]) -> (r: Option<Description>)
    requires
        !overflows(input@),
    ensures
        is_description(r, parsed(input@)),
        chained(input@, no_front()) matches Some((_, d)) ==> describes(r, d),
{
    let mut parser = Parser::new(Limits::default());
    parser.set_allow_empty_path(true);
    let (e, sparse) = match parser.parse(input) {
        Ok(ParseEvent::Entry { entry, .. }) => (entry, None),
        Ok(ParseEvent::SparseEntry { entry, sparse_map, real_size, .. }) => {
            (entry, Some((sparse_map.iter().map(|c| (c.offset, c.length)).collect(), real_size)))
        },
        _ => return None,
    };
    Some(Description {
        header: *e.header.as_bytes(), uid: e.uid, gid: e.gid, size: e.size, sparse,
        path: e.path.into_owned(), pax: e.pax.map(Vec::from),
        link_target: e.link_target.map(Cow::into_owned),
    })
}

} // verus!
