//! The parts that a streamed archive is made of.

use crate::entry::{least, zeros};
use crate::header::Header;
use crate::parser::padded;
use crate::path::extend;
use crate::reader::{fill_at, zero_at};
use vstd::prelude::*;
use vstd::slice::slice_subrange;

verus! {

/// A file of the file system that is to be streamed.
///
/// What it holds is not known until it is read.
pub struct StreamFile {
    encoded_header: Vec<u8>,
    follow: bool,
    path: Vec<u8>,
    read_bytes: u64,
    padding_bytes: Option<u64>,
}

/// Bytes that are to be streamed.
pub struct StreamData {
    encoded_header: Vec<u8>,
    data: Vec<u8>,
    padding_bytes: Option<u64>,
    read_bytes: usize,
}

/// A device or a pipe that is to be streamed.
pub struct StreamSpecialFile {
    encoded_header: Vec<u8>,
}

/// A link that is to be streamed.
pub struct StreamLink {
    encoded_header: Vec<u8>,
}

/// One part of a streamed archive.
pub enum StreamItem {
    /// A file of the file system.
    File(StreamFile),
    /// Bytes.
    Data(StreamData),
    /// A device or a pipe.
    Special(StreamSpecialFile),
    /// A link.
    Link(StreamLink),
}

/// What comes behind a header.
pub enum Body {
    /// Nothing.
    Nothing,
    /// The given bytes.
    Stored(Seq<u8>),
    /// The bytes of the file at a path, which is followed if it is a link or not.
    OnDisk(Seq<u8>, bool),
}

/// One part of a streamed archive, as a mathematical value.
#[verifier::ext_equal]
pub struct Item {
    /// What is left of the headers.
    pub header: Seq<u8>,
    /// What comes behind them.
    pub body: Body,
    /// How many bytes of that were streamed.
    pub read: int,
    /// What is left of the zeros behind that, once they are reached.
    pub padding: Option<int>,
}

/// What the file system holds at a path: the bytes of a file, or no file.
///
/// The second argument says whether a link at the path is followed.
pub type Files = spec_fn(Seq<u8>, bool) -> Option<Seq<u8>>;

/// The zeros that fill up `n` bytes to whole blocks.
pub open spec fn gap(n: int) -> Seq<u8> {
    zeros(padded(n) - n)
}

/// The larger of two numbers.
pub open spec fn most(a: int, b: int) -> int {
    if a < b {
        b
    } else {
        a
    }
}

impl Item {
    /// What is left to be streamed behind the headers.
    pub open spec fn body_rest(self, files: Files) -> Seq<u8> {
        match self.padding {
            Some(n) => zeros(n),
            None => match self.body {
                Body::Nothing => Seq::empty(),
                Body::Stored(data) => data.skip(self.read) + gap(data.len() as int),
                Body::OnDisk(path, follow) => match files(path, follow) {
                    None => Seq::empty(),
                    Some(data) => data.skip(least(self.read, data.len() as int)) + gap(
                        most(self.read, data.len() as int),
                    ),
                },
            },
        }
    }

    /// What is left to be streamed.
    pub open spec fn rest(self, files: Files) -> Seq<u8> {
        self.header + self.body_rest(files)
    }

    /// Whether no byte can be streamed before a file is read.
    pub open spec fn is_waiting(self) -> bool {
        self.header.len() == 0 && self.padding is None && self.body is OnDisk
    }

    /// A part of which nothing was streamed.
    pub open spec fn fresh(header: Seq<u8>, body: Body) -> Item {
        Item { header, body, read: 0, padding: None }
    }
}

impl View for StreamItem {
    type V = Item;

    closed spec fn view(&self) -> Item {
        match self {
            StreamItem::File(f) => Item {
                header: f.encoded_header@,
                body: Body::OnDisk(f.path@, f.follow),
                read: f.read_bytes as int,
                padding: match f.padding_bytes {
                    Some(n) => Some(n as int),
                    None => None,
                },
            },
            StreamItem::Data(d) => Item {
                header: d.encoded_header@,
                body: Body::Stored(d.data@),
                read: d.read_bytes as int,
                padding: match d.padding_bytes {
                    Some(n) => Some(n as int),
                    None => None,
                },
            },
            StreamItem::Special(s) => Item::fresh(s.encoded_header@, Body::Nothing),
            StreamItem::Link(l) => Item::fresh(l.encoded_header@, Body::Nothing),
        }
    }
}

impl StreamItem {
    /// Whether no more bytes were streamed than there are.
    pub closed spec fn wf(self) -> bool {
        self matches StreamItem::Data(d) ==> d.read_bytes <= d.data@.len()
    }
}

impl StreamFile {
    /// Makes a file that is to be streamed behind the given headers.
    pub fn new_with_encoded_header(path: Vec<u8>, encoded_header: Vec<u8>, follow: bool) -> (r:
        StreamFile)
        ensures
            StreamItem::File(r)@ == Item::fresh(encoded_header@, Body::OnDisk(path@, follow)),
            StreamItem::File(r).wf(),
    {
        StreamFile { path, encoded_header, follow, read_bytes: 0, padding_bytes: None }
    }
}

impl StreamData {
    /// Makes bytes that are to be streamed behind a header.
    pub fn new(header: &Header, data: Vec<u8>) -> (r: StreamData)
        ensures
            StreamItem::Data(r)@ == Item::fresh(header@, Body::Stored(data@)),
            StreamItem::Data(r).wf(),
    {
        let mut encoded_header: Vec<u8> = Vec::new();
        extend(&mut encoded_header, header.bytes.as_slice());
        assert(encoded_header@ =~= header@);
        StreamData { encoded_header, data, padding_bytes: None, read_bytes: 0 }
    }

    /// Makes bytes that are to be streamed behind the given headers.
    pub fn new_with_encoded_header(encoded_header: Vec<u8>, data: Vec<u8>) -> (r: StreamData)
        ensures
            StreamItem::Data(r)@ == Item::fresh(encoded_header@, Body::Stored(data@)),
            StreamItem::Data(r).wf(),
    {
        StreamData { encoded_header, data, padding_bytes: None, read_bytes: 0 }
    }
}

impl StreamSpecialFile {
    /// Makes a device or a pipe that is to be streamed: its headers.
    pub fn new_with_encoded_header(encoded_header: Vec<u8>) -> (r: StreamSpecialFile)
        ensures
            StreamItem::Special(r)@ == Item::fresh(encoded_header@, Body::Nothing),
            StreamItem::Special(r).wf(),
    {
        StreamSpecialFile { encoded_header }
    }
}

impl StreamLink {
    /// Makes a link that is to be streamed: its headers.
    pub fn new_with_encoded_header(encoded_header: Vec<u8>) -> (r: StreamLink)
        ensures
            StreamItem::Link(r)@ == Item::fresh(encoded_header@, Body::Nothing),
            StreamItem::Link(r).wf(),
    {
        StreamLink { encoded_header }
    }
}

/// What came of streaming a part into a buffer.
pub enum Fed {
    /// All of the part was streamed, up to the given position.
    Over(usize),
    /// The buffer is full.
    Full,
    /// A file must be read into the buffer from the given position on.
    Wait(usize),
}

/// Whether `before` was streamed into `into` from `from` up to `to`, and `after` is left.
pub open spec fn is_fed(
    before: Item,
    after: Item,
    start: Seq<u8>,
    into: Seq<u8>,
    from: int,
    to: int,
) -> bool {
    &&& from <= to <= into.len()
    &&& start.len() == into.len()
    &&& start.take(from) == into.take(from)
    &&& start.skip(to) == into.skip(to)
    &&& forall|files: Files| #[trigger]
        before.rest(files) == into.subrange(from, to) + after.rest(files)
}

/// Streaming from `from` to `mid` and then to `to` is streaming from `from` to `to`.
proof fn lemma_fed_twice(
    a: Item,
    b: Item,
    c: Item,
    first: Seq<u8>,
    second: Seq<u8>,
    third: Seq<u8>,
    from: int,
    mid: int,
    to: int,
)
    requires
        0 <= from,
        is_fed(a, b, first, second, from, mid),
        is_fed(b, c, second, third, mid, to),
    ensures
        is_fed(a, c, first, third, from, to),
{
    assert(third.take(from) =~= third.take(mid).take(from));
    assert(second.take(from) =~= second.take(mid).take(from));
    assert(first.skip(to) =~= first.skip(mid).skip(to - mid));
    assert(second.skip(to) =~= second.skip(mid).skip(to - mid));
    assert(third.subrange(from, mid) =~= third.take(mid).subrange(from, mid));
    assert(second.subrange(from, mid) =~= second.take(mid).subrange(from, mid));
    assert forall|files: Files| #[trigger] a.rest(files) == third.subrange(from, to) + c.rest(files) by {
        assert(b.rest(files) == third.subrange(mid, to) + c.rest(files));
        assert(third.subrange(from, to) =~= third.subrange(from, mid) + third.subrange(mid, to));
        assert(third.subrange(from, mid) + (third.subrange(mid, to) + c.rest(files))
            =~= third.subrange(from, to) + c.rest(files));
    }
}

/// Bytes that were put into a buffer went from what was left.
proof fn lemma_fed(
    before: Item,
    after: Item,
    start: Seq<u8>,
    into: Seq<u8>,
    bytes: Seq<u8>,
    from: int,
)
    requires
        0 <= from,
        from + bytes.len() <= start.len(),
        into == start.take(from) + bytes + start.skip(from + bytes.len()),
        forall|files: Files| #[trigger] before.rest(files) == bytes + after.rest(files),
    ensures
        is_fed(before, after, start, into, from, from + bytes.len()),
{
    let to = from + bytes.len();
    assert(into.take(from) =~= start.take(from));
    assert(into.skip(to) =~= start.skip(to));
    assert(into.subrange(from, to) =~= bytes);
}

/// Nothing was put into a buffer, and what was left is left.
proof fn lemma_fed_nothing(before: Item, after: Item, into: Seq<u8>, at: int)
    requires
        0 <= at <= into.len(),
        forall|files: Files| #[trigger] before.rest(files) == after.rest(files),
    ensures
        is_fed(before, after, into, into, at, at),
{
    assert(into.subrange(at, at) =~= Seq::empty());
    assert forall|files: Files| #[trigger] before.rest(files) == into.subrange(at, at) + after.rest(
        files,
    ) by {
        assert(Seq::<u8>::empty() + after.rest(files) =~= after.rest(files));
    }
}

/// Takes bytes from the front of a header to a buffer.
fn feed_header(header: &mut Vec<u8>, into: &mut [u8], at: usize) -> (n: usize)
    requires
        at <= old(into)@.len(),
    ensures
        n == least(old(into)@.len() - at, old(header)@.len() as int),
        final(header)@ == old(header)@.skip(n as int),
        final(into)@ == old(into)@.take(at as int) + old(header)@.take(n as int) + old(into)@.skip(
            at + n,
        ),
{
    let room: usize = into.len() - at;
    let n: usize = if room < header.len() {
        room
    } else {
        header.len()
    };
    let ghost all = header@;
    let rest: Vec<u8> = header.split_off(n);
    assert(header@ =~= all.take(n as int));
    assert(rest@ =~= all.skip(n as int));
    fill_at(into, at, header.as_slice());
    *header = rest;
    n
}

/// Takes zeros to a buffer.
fn feed_zeros(left: u64, into: &mut [u8], at: usize) -> (n: usize)
    requires
        at <= old(into)@.len(),
    ensures
        n == least(old(into)@.len() - at, left as int),
        final(into)@ == old(into)@.take(at as int) + zeros(n as int) + old(into)@.skip(at + n),
{
    let room: usize = into.len() - at;
    let n: usize = if (room as u64) < left {
        room
    } else {
        left as usize
    };
    zero_at(into, at, n);
    n
}

proof fn lemma_gap(n: int)
    requires
        n >= 0,
    ensures
        padded(n) - n == (if n % 512 == 0 {
            0int
        } else {
            512 - n % 512
        }),
{
}

proof fn lemma_header_step(before: Item, after: Item, n: int)
    requires
        0 <= n <= before.header.len(),
        after == (Item { header: before.header.skip(n), ..before }),
    ensures
        forall|files: Files| #[trigger]
            before.rest(files) == before.header.take(n) + after.rest(files),
{
    assert forall|files: Files| #[trigger] before.rest(files) == before.header.take(n) + after.rest(
        files,
    ) by {
        assert(before.header =~= before.header.take(n) + before.header.skip(n));
        assert(before.header + before.body_rest(files) =~= before.header.take(n) + (
        before.header.skip(n) + before.body_rest(files)));
    }
}

proof fn lemma_zeros_step(before: Item, after: Item, n: int)
    requires
        before.header.len() == 0,
        before.padding matches Some(k) && 0 <= n <= k,
        after == (Item { padding: Some(before.padding->Some_0 - n), ..before }),
    ensures
        forall|files: Files| #[trigger] before.rest(files) == zeros(n) + after.rest(files),
{
    let k = before.padding->Some_0;
    assert forall|files: Files| #[trigger] before.rest(files) == zeros(n) + after.rest(files) by {
        assert(before.header + zeros(k) =~= zeros(n) + (before.header + zeros(k - n)));
    }
}

proof fn lemma_data_step(before: Item, after: Item, n: int)
    requires
        before.header.len() == 0,
        before.padding is None,
        before.body matches Body::Stored(data) && 0 <= before.read && 0 <= n && before.read + n
            <= data.len(),
        after == (Item { read: before.read + n, ..before }),
    ensures
        forall|files: Files| #[trigger]
            before.rest(files) == before.body->Stored_0.subrange(before.read, before.read + n)
                + after.rest(files),
{
    let data = before.body->Stored_0;
    let bytes = data.subrange(before.read, before.read + n);
    assert forall|files: Files| #[trigger] before.rest(files) == bytes + after.rest(files) by {
        let g = gap(data.len() as int);
        assert(data.skip(before.read) =~= bytes + data.skip(before.read + n));
        assert(before.header + (data.skip(before.read) + g) =~= bytes + (before.header + (
        data.skip(before.read + n) + g)));
    }
}

proof fn lemma_data_end(before: Item, after: Item)
    requires
        before.padding is None,
        before.body matches Body::Stored(data) && before.read == data.len(),
        after == (Item { padding: Some(padded(before.read) - before.read), ..before }),
    ensures
        forall|files: Files| #[trigger] before.rest(files) == after.rest(files),
{
    let data = before.body->Stored_0;
    assert forall|files: Files| #[trigger] before.rest(files) == after.rest(files) by {
        let g = gap(data.len() as int);
        assert(data.skip(before.read) + g =~= g);
    }
}

impl StreamItem {
    /// Streams headers into a buffer, as far as there is room.
    fn feed_headers(&mut self, into: &mut [u8], at: usize) -> (n: usize)
        requires
            at <= old(into)@.len(),
            old(self).wf(),
        ensures
            final(self).wf(),
            final(self)@ == (Item { header: final(self)@.header, ..old(self)@ }),
            is_fed(old(self)@, final(self)@, old(into)@, final(into)@, at as int, at + n),
            final(self)@.header.len() > 0 ==> at + n == old(into)@.len(),
    {
        let ghost before = self@;
        let ghost start = into@;
        let n: usize = match self {
            StreamItem::File(f) => feed_header(&mut f.encoded_header, into, at),
            StreamItem::Data(d) => feed_header(&mut d.encoded_header, into, at),
            StreamItem::Special(s) => feed_header(&mut s.encoded_header, into, at),
            StreamItem::Link(l) => feed_header(&mut l.encoded_header, into, at),
        };
        proof {
            lemma_header_step(before, self@, n as int);
            lemma_fed(before, self@, start, into@, before.header.take(n as int), at as int);
        }
        n
    }

    /// Streams the zeros behind the bytes of a part into a buffer.
    fn feed_padding(&mut self, into: &mut [u8], at: usize) -> (r: Fed)
        requires
            at <= old(into)@.len(),
            old(self).wf(),
            old(self)@.header.len() == 0,
            old(self)@.padding is Some,
            old(self)@.padding->Some_0 >= 0,
        ensures
            final(self).wf(),
            final(self)@.padding is Some,
            !(r is Wait),
            is_fed(
                old(self)@,
                final(self)@,
                old(into)@,
                final(into)@,
                at as int,
                fed_to(r, old(into)@.len() as int),
            ),
            r is Over ==> forall|files: Files| (#[trigger] final(self)@.rest(files)).len() == 0,
    {
        let ghost before = self@;
        let ghost start = into@;
        let left: u64 = match self {
            StreamItem::File(f) => f.padding(),
            StreamItem::Data(d) => d.padding(),
            _ => 0,
        };
        let len: usize = into.len();
        let n: usize = feed_zeros(left, into, at);
        match self {
            StreamItem::File(f) => {
                f.padding_bytes = Some(left - n as u64);
            },
            StreamItem::Data(d) => {
                d.padding_bytes = Some(left - n as u64);
            },
            _ => {},
        }
        proof {
            lemma_zeros_step(before, self@, n as int);
            lemma_fed(before, self@, start, into@, zeros(n as int), at as int);
        }
        if n as u64 == left {
            assert(at + n <= len);
            Fed::Over(at + n)
        } else {
            Fed::Full
        }
    }
}

impl StreamItem {
    /// Streams the bytes of a part into a buffer, and the zeros behind them.
    fn feed_data(&mut self, into: &mut [u8], at: usize) -> (r: Fed)
        requires
            at < old(into)@.len(),
            old(self).wf(),
            old(self)@.header.len() == 0,
            old(self)@.padding is None,
            old(self)@.body is Stored,
        ensures
            final(self).wf(),
            !(r is Wait),
            is_fed(
                old(self)@,
                final(self)@,
                old(into)@,
                final(into)@,
                at as int,
                fed_to(r, old(into)@.len() as int),
            ),
            r is Over ==> forall|files: Files| (#[trigger] final(self)@.rest(files)).len() == 0,
    {
        let ghost before = self@;
        let ghost start = into@;
        let len: usize = into.len();
        let n: usize = match self {
            StreamItem::Data(d) => {
                let n: usize = if len - at < d.data.len() - d.read_bytes {
                    len - at
                } else {
                    d.data.len() - d.read_bytes
                };
                fill_at(
                    into,
                    at,
                    slice_subrange(d.data.as_slice(), d.read_bytes, d.read_bytes + n),
                );
                d.read_bytes = d.read_bytes + n;
                n
            },
            _ => 0,
        };
        let ghost between = self@;
        let ghost filled = into@;
        proof {
            lemma_data_step(before, between, n as int);
            lemma_fed(
                before,
                between,
                start,
                filled,
                before.body->Stored_0.subrange(before.read, before.read + n),
                at as int,
            );
        }
        if at + n == len {
            return Fed::Full;
        }
        match self {
            StreamItem::Data(d) => {
                proof {
                    lemma_gap(d.read_bytes as int);
                }
                let remaining: usize = 512 - d.read_bytes % 512;
                let padding: u64 = if remaining < 512 {
                    remaining as u64
                } else {
                    0
                };
                d.padding_bytes = Some(padding);
            },
            _ => {},
        }
        let ghost ended = self@;
        proof {
            lemma_data_end(between, ended);
            lemma_fed_nothing(between, ended, filled, at + n);
            lemma_fed_twice(
                before,
                between,
                ended,
                start,
                filled,
                filled,
                at as int,
                at + n,
                at + n,
            );
        }
        let r: Fed = self.feed_padding(into, at + n);
        proof {
            lemma_fed_twice(
                before,
                ended,
                self@,
                start,
                filled,
                into@,
                at as int,
                at + n,
                fed_to(r, len as int),
            );
        }
        r
    }

    /// Streams a part into a buffer from a position on, as far as there is room and no file
    /// must be read.
    pub fn feed(&mut self, into: &mut [u8], at: usize) -> (r: Fed)
        requires
            at <= old(into)@.len(),
            old(self).wf(),
        ensures
            final(self).wf(),
            is_fed(
                old(self)@,
                final(self)@,
                old(into)@,
                final(into)@,
                at as int,
                fed_to(r, old(into)@.len() as int),
            ),
            r is Over ==> forall|files: Files| (#[trigger] final(self)@.rest(files)).len() == 0,
            r matches Fed::Wait(n) ==> n < old(into)@.len() && final(self)@.is_waiting(),
            old(self)@.padding is Some ==> !(r is Wait),
    {
        let ghost before = self@;
        let ghost start = into@;
        let len: usize = into.len();
        let n: usize = self.feed_headers(into, at);
        let now: usize = at + n;
        let ghost between = self@;
        let ghost filled = into@;
        let (has_header, has_body, is_file, has_padding): (bool, bool, bool, bool) = match self {
            StreamItem::File(f) => (
                f.encoded_header.len() > 0,
                true,
                true,
                f.padding_bytes.is_some(),
            ),
            StreamItem::Data(d) => (
                d.encoded_header.len() > 0,
                true,
                false,
                d.padding_bytes.is_some(),
            ),
            StreamItem::Special(s) => (s.encoded_header.len() > 0, false, false, false),
            StreamItem::Link(l) => (l.encoded_header.len() > 0, false, false, false),
        };
        if has_header {
            return Fed::Full;
        }
        if !has_body {
            return Fed::Over(now);
        }
        if now == len {
            return Fed::Full;
        }
        if is_file && !has_padding {
            return Fed::Wait(now);
        }
        let r: Fed = if has_padding {
            self.feed_padding(into, now)
        } else {
            self.feed_data(into, now)
        };
        proof {
            lemma_fed_twice(
                before,
                between,
                self@,
                start,
                filled,
                into@,
                at as int,
                now as int,
                fed_to(r, len as int),
            );
        }
        r
    }
}

impl Item {
    /// The part once `n` bytes of its file were read. No bytes mean that the file has ended.
    pub open spec fn fetched(self, n: int) -> Item {
        if n > 0 {
            Item { read: self.read + n, ..self }
        } else {
            Item { padding: Some(padded(self.read) - self.read), ..self }
        }
    }
}

impl StreamItem {
    /// Returns the file that must be read: its path, whether a link is followed, and from where.
    pub fn wanted(&self) -> (r: (&[u8], bool, u64))
        requires
            self@.is_waiting(),
        ensures
            self@.body == Body::OnDisk(r.0@, r.1),
            r.2 == self@.read,
    {
        match self {
            StreamItem::File(f) => (f.path.as_slice(), f.follow, f.read_bytes),
            StreamItem::Data(d) => (d.data.as_slice(), false, 0),
            StreamItem::Special(s) => (s.encoded_header.as_slice(), false, 0),
            StreamItem::Link(l) => (l.encoded_header.as_slice(), false, 0),
        }
    }

    /// Returns whether the zeros behind the bytes of the part are reached.
    pub fn is_padded(&self) -> (r: bool)
        ensures
            r == (self@.padding is Some),
    {
        match self {
            StreamItem::File(f) => f.padding_bytes.is_some(),
            StreamItem::Data(d) => d.padding_bytes.is_some(),
            _ => false,
        }
    }

    /// Takes note that `n` bytes of the file were read. No bytes mean that the file has ended.
    pub fn fetched(&mut self, n: usize)
        requires
            old(self).wf(),
            old(self)@.is_waiting(),
            old(self)@.read + n <= u64::MAX,
        ensures
            final(self).wf(),
            final(self)@ == old(self)@.fetched(n as int),
    {
        if let StreamItem::File(f) = self {
            if n > 0 {
                f.read_bytes = f.read_bytes + n as u64;
            } else {
                proof {
                    lemma_gap(f.read_bytes as int);
                }
                let remaining: u64 = 512 - f.read_bytes % 512;
                let padding: u64 = if remaining < 512 {
                    remaining
                } else {
                    0
                };
                f.padding_bytes = Some(padding);
            }
        }
    }
}

/// The bytes that are read of a file are the next that are streamed.
pub proof fn lemma_fetched(it: Item, files: Files, n: int)
    requires
        it.is_waiting(),
        it.read >= 0,
        it.body matches Body::OnDisk(path, follow) && files(path, follow) matches Some(data) && if n > 0 {
            it.read + n <= data.len()
        } else {
            n == 0 && it.read >= data.len()
        },
    ensures
        ({
            let data = files(it.body->OnDisk_0, it.body->OnDisk_1)->Some_0;
            it.rest(files) == (if n > 0 {
                data.subrange(it.read, it.read + n)
            } else {
                Seq::empty()
            }) + it.fetched(n).rest(files)
        }),
{
    let data = files(it.body->OnDisk_0, it.body->OnDisk_1)->Some_0;
    let after = it.fetched(n);
    let len = data.len() as int;
    if n > 0 {
        let g = gap(len);
        let bytes = data.subrange(it.read, it.read + n);
        assert(data.skip(it.read) =~= bytes + data.skip(it.read + n));
        assert(it.header + (data.skip(it.read) + g) =~= bytes + (after.header + (data.skip(
            it.read + n,
        ) + g)));
    } else {
        let g = gap(it.read);
        assert(data.skip(len) + g =~= g);
        assert(it.header + g =~= Seq::<u8>::empty() + (after.header + g));
    }
}

/// The position up to which a buffer was filled.
pub open spec fn fed_to(r: Fed, len: int) -> int {
    match r {
        Fed::Over(n) => n as int,
        Fed::Full => len,
        Fed::Wait(n) => n as int,
    }
}

impl StreamFile {
    fn padding(&self) -> (r: u64)
        ensures
            r == (match self.padding_bytes {
                Some(n) => n,
                None => 0,
            }),
    {
        match self.padding_bytes {
            Some(n) => n,
            None => 0,
        }
    }
}

impl StreamData {
    fn padding(&self) -> (r: u64)
        ensures
            r == (match self.padding_bytes {
                Some(n) => n,
                None => 0,
            }),
    {
        match self.padding_bytes {
            Some(n) => n,
            None => 0,
        }
    }
}

} // verus!
