//! Archives that are streamed while they are made.

use crate::entry::{least, zeros};
use crate::error::TarError;
use crate::header::HeaderMode;
use crate::path::same_bytes;
use crate::reader::{fill_at, zero_at};
use crate::stream_item::{fed_to, is_fed, lemma_fetched, Body, Fed, Files, Item, StreamItem};
use vstd::prelude::*;
use vstd::slice::{slice_subrange, slice_to_vec};

verus! {

/// How far an archive was streamed.
pub struct StreamerReadMetadata {
    /// The part that is streamed.
    pub current_index: usize,
    /// Whether the end was reached and no part was added since.
    pub is_past: bool,
    /// How many zeros at the end are still to be streamed.
    pub finish_bytes_remaining: usize,
}

impl Default for StreamerReadMetadata {
    fn default() -> (r: StreamerReadMetadata)
        ensures
            r.current_index == 0,
            !r.is_past,
            r.finish_bytes_remaining == 1024,
    {
        StreamerReadMetadata { current_index: 0, is_past: false, finish_bytes_remaining: 1024 }
    }
}

/// An archive that is put together and streamed.
pub struct Streamer {
    mode: HeaderMode,
    follow: bool,
    streamer_metadata: StreamerReadMetadata,
    items: Vec<StreamItem>,
}

/// What is left of some parts from part `i` on.
pub open spec fn items_rest(items: Seq<Item>, i: int, files: Files) -> Seq<u8>
    decreases items.len() - i,
{
    if i >= items.len() {
        Seq::empty()
    } else {
        items[i].rest(files) + items_rest(items, i + 1, files)
    }
}

/// An archive that is streamed, as a mathematical value.
#[verifier::ext_equal]
pub struct Streaming {
    /// What is taken from the metadata of files.
    pub mode: HeaderMode,
    /// Whether links are followed.
    pub follow: bool,
    /// The parts of the archive.
    pub items: Seq<Item>,
    /// The part that is streamed. It is one past the last once the end is streamed.
    pub current: int,
    /// How many zeros at the end are still to be streamed.
    pub finish: int,
}

impl Streaming {
    /// What is left to be streamed, when `files` says what the files hold.
    pub open spec fn rest(self, files: Files) -> Seq<u8> {
        items_rest(self.items, self.current, files) + zeros(self.finish)
    }

    /// Whether no byte can be streamed before a file is read.
    pub open spec fn is_waiting(self) -> bool {
        0 <= self.current < self.items.len() && self.items[self.current].is_waiting()
    }

    /// Whether all was streamed.
    pub open spec fn is_over(self) -> bool {
        self.current >= self.items.len() && self.finish == 0
    }

    /// The archive once `n` bytes of a file were read. No bytes mean that the file has ended.
    pub open spec fn fetched(self, n: int) -> Streaming {
        Streaming {
            items: self.items.update(self.current, self.items[self.current].fetched(n)),
            ..self
        }
    }

    /// The archive once the part that is streamed was given up.
    pub open spec fn skipped(self) -> Streaming {
        Streaming { current: self.current + 1, ..self }
    }

    /// The archive with one more part.
    pub open spec fn with_item(self, it: Item) -> Streaming {
        Streaming { items: self.items.push(it), ..self }
    }
}

/// The parts as mathematical values.
pub open spec fn items_of(items: Seq<StreamItem>) -> Seq<Item> {
    items.map_values(|it: StreamItem| it@)
}

impl View for Streamer {
    type V = Streaming;

    closed spec fn view(&self) -> Streaming {
        Streaming {
            mode: self.mode,
            follow: self.follow,
            items: items_of(self.items@),
            current: if self.streamer_metadata.is_past {
                self.items@.len() + 1int
            } else {
                self.streamer_metadata.current_index as int
            },
            finish: self.streamer_metadata.finish_bytes_remaining as int,
        }
    }
}

/// What came of streaming into a buffer.
pub enum Fill {
    /// The buffer was filled up to the given position, as far as there is something to stream.
    Filled(usize),
    /// A file must be read: the one at `path`, from `offset` on, into the buffer from `at` on.
    Fetch {
        /// The path.
        path: Vec<u8>,
        /// Whether a link at the path is followed.
        follow: bool,
        /// Where to read from.
        offset: u64,
        /// Where to read to.
        at: usize,
    },
}

/// The position up to which a buffer was filled.
pub open spec fn filled_to(r: Fill) -> int {
    match r {
        Fill::Filled(n) => n as int,
        Fill::Fetch { at, .. } => at as int,
    }
}

/// Whether `before` was streamed into `into` from `from` up to `to`, and `after` is left.
pub open spec fn is_streamed(
    before: Streaming,
    after: Streaming,
    start: Seq<u8>,
    into: Seq<u8>,
    from: int,
    to: int,
) -> bool {
    &&& from <= to <= into.len()
    &&& start.len() == into.len()
    &&& start.take(from) == into.take(from)
    &&& start.skip(to) == into.skip(to)
    &&& forall|files: Files| #[trigger]
        before.rest(files) == into.subrange(from, to) + after.rest(files)
}

proof fn lemma_streamed_twice(
    a: Streaming,
    b: Streaming,
    c: Streaming,
    first: Seq<u8>,
    second: Seq<u8>,
    third: Seq<u8>,
    from: int,
    mid: int,
    to: int,
)
    requires
        0 <= from,
        is_streamed(a, b, first, second, from, mid),
        is_streamed(b, c, second, third, mid, to),
    ensures
        is_streamed(a, c, first, third, from, to),
{
    assert(third.take(from) =~= third.take(mid).take(from));
    assert(second.take(from) =~= second.take(mid).take(from));
    assert(first.skip(to) =~= first.skip(mid).skip(to - mid));
    assert(second.skip(to) =~= second.skip(mid).skip(to - mid));
    assert(third.subrange(from, mid) =~= third.take(mid).subrange(from, mid));
    assert(second.subrange(from, mid) =~= second.take(mid).subrange(from, mid));
    assert forall|files: Files| #[trigger] a.rest(files) == third.subrange(from, to) + c.rest(files) by {
        assert(b.rest(files) == third.subrange(mid, to) + c.rest(files));
        assert(third.subrange(from, to) =~= third.subrange(from, mid) + third.subrange(mid, to));
        assert(third.subrange(from, mid) + (third.subrange(mid, to) + c.rest(files))
            =~= third.subrange(from, to) + c.rest(files));
    }
}

/// What is left behind part `i` does not depend on the parts up to it.
proof fn lemma_rest_behind(a: Seq<Item>, b: Seq<Item>, i: int, files: Files)
    requires
        a.len() == b.len(),
        0 <= i,
        forall|k: int| i <= k < a.len() ==> a[k] == b[k],
    ensures
        items_rest(a, i, files) == items_rest(b, i, files),
    decreases a.len() - i,
{
    if i < a.len() {
        lemma_rest_behind(a, b, i + 1, files);
    }
}

/// Streaming the part that is current streams the archive.
proof fn lemma_item_streamed(
    before: Streaming,
    after: Streaming,
    start: Seq<u8>,
    into: Seq<u8>,
    from: int,
    to: int,
)
    requires
        0 <= before.current < before.items.len(),
        after.items == before.items.update(before.current, after.items[before.current]),
        after.finish == before.finish,
        is_fed(
            before.items[before.current],
            after.items[before.current],
            start,
            into,
            from,
            to,
        ),
        after.current == before.current || (after.current == before.current + 1
            && forall|files: Files|
            (#[trigger] after.items[before.current].rest(files)).len() == 0),
    ensures
        is_streamed(before, after, start, into, from, to),
{
    let c = before.current;
    assert forall|files: Files| #[trigger] before.rest(files) == into.subrange(from, to)
        + after.rest(files) by {
        let bytes = into.subrange(from, to);
        let was = before.items[c];
        let now = after.items[c];
        assert(was.rest(files) == bytes + now.rest(files));
        lemma_rest_behind(before.items, after.items, c + 1, files);
        let tail = items_rest(after.items, c + 1, files);
        let end = zeros(after.finish);
        assert((bytes + now.rest(files)) + tail + end =~= bytes + (now.rest(files) + tail + end));
        if after.current == c + 1 {
            assert(now.rest(files) =~= Seq::empty());
            assert(now.rest(files) + tail =~= tail);
        }
    }
}

/// Streaming zeros at the end streams the archive.
proof fn lemma_end_streamed(
    before: Streaming,
    after: Streaming,
    start: Seq<u8>,
    into: Seq<u8>,
    from: int,
    n: int,
)
    requires
        before.current >= before.items.len(),
        after.items == before.items,
        after.current >= before.items.len(),
        0 <= n <= before.finish,
        after.finish == before.finish - n,
        0 <= from,
        from + n <= start.len(),
        into == start.take(from) + zeros(n) + start.skip(from + n),
    ensures
        is_streamed(before, after, start, into, from, from + n),
{
    assert(into.take(from) =~= start.take(from));
    assert(into.skip(from + n) =~= start.skip(from + n));
    assert(into.subrange(from, from + n) =~= zeros(n));
    assert forall|files: Files| #[trigger] before.rest(files) == into.subrange(from, from + n)
        + after.rest(files) by {
        assert(before.rest(files) =~= zeros(before.finish));
        assert(after.rest(files) =~= zeros(after.finish));
        assert(zeros(n) + zeros(before.finish - n) =~= zeros(before.finish));
    }
}

proof fn lemma_streamed_nothing(s: Streaming, into: Seq<u8>, at: int)
    requires
        0 <= at <= into.len(),
    ensures
        is_streamed(s, s, into, into, at, at),
{
    assert(into.subrange(at, at) =~= Seq::empty());
    assert forall|files: Files| #[trigger] s.rest(files) == into.subrange(at, at) + s.rest(files) by {
        assert(Seq::<u8>::empty() + s.rest(files) =~= s.rest(files));
    }
}

impl Streamer {
    /// Whether no part was streamed further than it goes.
    pub closed spec fn wf(self) -> bool {
        &&& forall|k: int| 0 <= k < self.items@.len() ==> (#[trigger] self.items@[k]).wf()
        &&& self.streamer_metadata.current_index <= self.items@.len()
        &&& self.streamer_metadata.is_past ==> self.streamer_metadata.current_index
            == self.items@.len()
    }

    /// Creates a new empty archive.
    ///
    /// All supported metadata of files is taken: see `HeaderMode::Complete`.
    pub fn new() -> (r: Streamer)
        ensures
            r.wf(),
            r@ == (Streaming {
                mode: HeaderMode::Complete,
                follow: true,
                items: Seq::empty(),
                current: 0,
                finish: 1024,
            }),
    {
        let r: Streamer = Streamer {
            mode: HeaderMode::Complete,
            follow: true,
            streamer_metadata: StreamerReadMetadata {
                current_index: 0,
                is_past: false,
                finish_bytes_remaining: 1024,
            },
            items: Vec::new(),
        };
        assert(items_of(r.items@) =~= Seq::empty());
        r
    }

    /// Sets what is taken from the metadata of files.
    pub fn mode(&mut self, mode: HeaderMode)
        requires
            old(self).wf(),
        ensures
            final(self).wf(),
            final(self)@ == (Streaming { mode, ..old(self)@ }),
    {
        self.mode = mode;
    }

    /// Sets whether links are followed: a link is then streamed as what it leads to.
    ///
    /// They are by default.
    pub fn follow_symlinks(&mut self, follow: bool)
        requires
            old(self).wf(),
        ensures
            final(self).wf(),
            final(self)@ == (Streaming { follow, ..old(self)@ }),
    {
        self.follow = follow;
    }

    /// Adds a part.
    pub(crate) fn push_item(&mut self, it: StreamItem)
        requires
            old(self).wf(),
            it.wf(),
        ensures
            final(self).wf(),
            final(self)@ == old(self)@.with_item(it@),
    {
        let ghost before = self.items@;
        self.items.push(it);
        if self.streamer_metadata.is_past {
            self.streamer_metadata.current_index = self.items.len();
            self.streamer_metadata.is_past = false;
        }
        assert(items_of(self.items@) =~= items_of(before).push(it@));
    }

    /// Returns what is taken from the metadata of files.
    pub(crate) fn header_mode(&self) -> (r: HeaderMode)
        ensures
            r == self@.mode,
    {
        self.mode
    }

    /// Returns whether links are followed.
    pub(crate) fn follows(&self) -> (r: bool)
        ensures
            r == self@.follow,
    {
        self.follow
    }

    /// Goes on to the next part.
    fn go_on(&mut self)
        requires
            old(self).wf(),
            0 <= old(self)@.current < old(self)@.items.len(),
        ensures
            final(self).wf(),
            final(self)@ == old(self)@.skipped(),
            final(self).items == old(self).items,
            final(self).streamer_metadata.current_index == old(
                self,
            ).streamer_metadata.current_index + 1,
    {
        let count: usize = self.items.len();
        assert(self.streamer_metadata.current_index < count);
        self.streamer_metadata.current_index = self.streamer_metadata.current_index + 1;
    }

    /// Streams the part that is current.
    fn feed(&mut self, into: &mut [u8], at: usize) -> (r: Fed)
        requires
            old(self).wf(),
            0 <= old(self)@.current < old(self)@.items.len(),
            at <= old(into)@.len(),
        ensures
            final(self).wf(),
            final(self).streamer_metadata == old(self).streamer_metadata,
            final(self).items@.len() == old(self).items@.len(),
            ({
                let c = old(self)@.current;
                let it = final(self)@.items[c];
                &&& final(self)@ == (Streaming {
                    items: old(self)@.items.update(c, it),
                    ..old(self)@
                })
                &&& is_fed(
                    old(self)@.items[c],
                    it,
                    old(into)@,
                    final(into)@,
                    at as int,
                    fed_to(r, old(into)@.len() as int),
                )
                &&& r is Over ==> forall|files: Files| (#[trigger] it.rest(files)).len() == 0
                &&& r matches Fed::Wait(n) ==> n < old(into)@.len() && it.is_waiting()
                &&& old(self)@.items[c].padding is Some ==> !(r is Wait)
            }),
    {
        let ghost before = self.items@;
        let i: usize = self.streamer_metadata.current_index;
        let r: Fed = self.items[i].feed(into, at);
        assert(items_of(self.items@) =~= items_of(before).update(i as int, self.items@[i as int]@));
        r
    }

    /// Streams into a buffer from a position on, as far as there is room and no file must be
    /// read.
    ///
    /// What comes of reading a file is said by `fetched` or `not_a_file`, and streaming then
    /// goes on behind the bytes that were read.
    pub fn fill(&mut self, into: &mut [u8], at: usize) -> (r: Fill)
        requires
            old(self).wf(),
            at <= old(into)@.len(),
        ensures
            final(self).wf(),
            is_streamed(
                old(self)@,
                final(self)@,
                old(into)@,
                final(into)@,
                at as int,
                filled_to(r),
            ),
            final(self)@.mode == old(self)@.mode,
            final(self)@.follow == old(self)@.follow,
            final(self)@.items.len() == old(self)@.items.len(),
            old(self)@.current <= final(self)@.current,
            match r {
                Fill::Filled(n) => n == old(into)@.len() || final(self)@.is_over(),
                Fill::Fetch { path, follow, offset, at } => {
                    let it = final(self)@.items[final(self)@.current];
                    &&& at < old(into)@.len()
                    &&& final(self)@.is_waiting()
                    &&& it.body == Body::OnDisk(path@, follow)
                    &&& it.read == offset
                },
            },
            (r is Fetch && old(self)@.current == final(self)@.current) ==> old(
                self,
            )@.items[old(self)@.current].padding is None,
    {
        let ghost before = self@;
        let ghost start = into@;
        let mut now: usize = at;
        proof {
            lemma_streamed_nothing(before, start, at as int);
        }
        while self.streamer_metadata.current_index < self.items.len()
            invariant
                self.wf(),
                before == old(self)@,
                start == old(into)@,
                at <= now <= into@.len(),
                is_streamed(before, self@, start, into@, at as int, now as int),
                self@.mode == before.mode,
                self@.follow == before.follow,
                self@.items.len() == before.items.len(),
                before.current <= self@.current,
                before.current == self@.current ==> self@ == before && now == at,
            decreases self.items@.len() - self.streamer_metadata.current_index,
        {
            let ghost was = self@;
            let ghost filled = into@;
            let r: Fed = self.feed(into, now);
            let ghost done = fed_to(r, into@.len() as int);
            match r {
                Fed::Over(n) => {
                    self.go_on();
                    proof {
                        lemma_item_streamed(was, self@, filled, into@, now as int, done);
                        lemma_streamed_twice(
                            before,
                            was,
                            self@,
                            start,
                            filled,
                            into@,
                            at as int,
                            now as int,
                            done,
                        );
                    }
                    now = n;
                },
                Fed::Full => {
                    proof {
                        lemma_item_streamed(was, self@, filled, into@, now as int, done);
                        lemma_streamed_twice(
                            before,
                            was,
                            self@,
                            start,
                            filled,
                            into@,
                            at as int,
                            now as int,
                            done,
                        );
                    }
                    return Fill::Filled(into.len());
                },
                Fed::Wait(n) => {
                    proof {
                        lemma_item_streamed(was, self@, filled, into@, now as int, done);
                        lemma_streamed_twice(
                            before,
                            was,
                            self@,
                            start,
                            filled,
                            into@,
                            at as int,
                            now as int,
                            done,
                        );
                    }
                    let i: usize = self.streamer_metadata.current_index;
                    assert(self@.items[i as int] == self.items@[i as int]@);
                    let (path, follow, offset): (&[u8], bool, u64) = self.items[i].wanted();
                    return Fill::Fetch { path: slice_to_vec(path), follow, offset, at: n };
                },
            }
        }
        let ghost was = self@;
        let ghost filled = into@;
        let left: usize = self.streamer_metadata.finish_bytes_remaining;
        let room: usize = into.len() - now;
        let n: usize = if room < left {
            room
        } else {
            left
        };
        zero_at(into, now, n);
        self.streamer_metadata.finish_bytes_remaining = left - n;
        self.streamer_metadata.is_past = true;
        proof {
            lemma_end_streamed(was, self@, filled, into@, now as int, n as int);
            lemma_streamed_twice(
                before,
                was,
                self@,
                start,
                filled,
                into@,
                at as int,
                now as int,
                now + n,
            );
        }
        Fill::Filled(now + n)
    }
}

impl Streamer {
    /// Takes note that `n` bytes of the file that had to be read were read to the buffer.
    ///
    /// No bytes mean that the file has ended.
    pub fn fetched(&mut self, n: usize)
        requires
            old(self).wf(),
            old(self)@.is_waiting(),
            old(self)@.items[old(self)@.current].read + n <= u64::MAX,
        ensures
            final(self).wf(),
            final(self)@ == old(self)@.fetched(n as int),
    {
        let ghost before = self.items@;
        let i: usize = self.streamer_metadata.current_index;
        self.items[i].fetched(n);
        assert(items_of(self.items@) =~= items_of(before).update(
            i as int,
            before[i as int]@.fetched(n as int),
        ));
    }

    /// Takes note that there is no file where one had to be read. Nothing is streamed of it.
    pub fn not_a_file(&mut self)
        requires
            old(self).wf(),
            old(self)@.is_waiting(),
        ensures
            final(self).wf(),
            final(self)@ == old(self)@.skipped(),
    {
        self.go_on();
    }
}

/// The bytes of a file that are read where they are asked for are the next that are streamed.
pub proof fn law_fetched(s: Streaming, files: Files, n: int)
    requires
        s.is_waiting(),
        s.items[s.current].read >= 0,
        s.items[s.current].body matches Body::OnDisk(path, follow) && files(
            path,
            follow,
        ) matches Some(data) && if n > 0 {
            s.items[s.current].read + n <= data.len()
        } else {
            n == 0 && s.items[s.current].read >= data.len()
        },
    ensures
        ({
            let it = s.items[s.current];
            let data = files(it.body->OnDisk_0, it.body->OnDisk_1)->Some_0;
            s.rest(files) == (if n > 0 {
                data.subrange(it.read, it.read + n)
            } else {
                Seq::empty()
            }) + s.fetched(n).rest(files)
        }),
{
    let c = s.current;
    let it = s.items[c];
    let data = files(it.body->OnDisk_0, it.body->OnDisk_1)->Some_0;
    let bytes = if n > 0 {
        data.subrange(it.read, it.read + n)
    } else {
        Seq::empty()
    };
    let after = s.fetched(n);
    lemma_fetched(it, files, n);
    lemma_rest_behind(s.items, after.items, c + 1, files);
    let tail = items_rest(after.items, c + 1, files);
    let end = zeros(s.finish);
    let now = it.fetched(n).rest(files);
    assert((bytes + now) + tail + end =~= bytes + (now + tail + end));
}

/// Nothing is streamed of a path where there is no file.
pub proof fn law_not_a_file(s: Streaming, files: Files)
    requires
        s.is_waiting(),
        s.items[s.current].body matches Body::OnDisk(path, follow) && files(path, follow) is None,
    ensures
        s.rest(files) == s.skipped().rest(files),
{
    let tail = items_rest(s.items, s.current + 1, files);
    assert(s.items[s.current].rest(files) =~= Seq::empty());
    assert(s.items[s.current].rest(files) + tail =~= tail);
}

/// What a file system holds at a path.
pub struct FileBody {
    /// The path.
    pub path: Vec<u8>,
    /// Whether there is a link at the path, to a file.
    pub is_link: bool,
    /// The bytes of the file.
    pub data: Vec<u8>,
}

/// What a table says of a path: the bytes of the first file that has it.
pub open spec fn body_at(table: Seq<FileBody>, path: Seq<u8>, follow: bool) -> Option<Seq<u8>>
    decreases table.len(),
{
    if table.len() == 0 {
        None
    } else if table[0].path@ == path && (follow || !table[0].is_link) {
        Some(table[0].data@)
    } else {
        body_at(table.skip(1), path, follow)
    }
}

/// What the files of a table hold.
pub open spec fn files_in(table: Seq<FileBody>) -> Files {
    |path: Seq<u8>, follow: bool| body_at(table, path, follow)
}

/// Finds the bytes of a file in a table.
fn find_body<'a>(table: &'a Vec<FileBody>, path: &[u8], follow: bool) -> (r: Option<&'a [u8]>)
    ensures
        match body_at(table@, path@, follow) {
            Some(data) => r matches Some(d) && d@ == data,
            None => r is None,
        },
{
    let mut i: usize = 0;
    assert(table@.skip(0) =~= table@);
    while i < table.len()
        invariant
            i <= table@.len(),
            body_at(table@, path@, follow) == body_at(table@.skip(i as int), path@, follow),
        decreases table@.len() - i,
    {
        assert(table@.skip(i as int).skip(1) =~= table@.skip(i + 1));
        if same_bytes(table[i].path.as_slice(), path) && (follow || !table[i].is_link) {
            return Some(table[i].data.as_slice());
        }
        i = i + 1;
    }
    None
}

/// Streaming and then going on with the same bytes left is streaming.
proof fn lemma_streamed_for(
    goal: Seq<u8>,
    rest: Seq<u8>,
    bytes: Seq<u8>,
    left: Seq<u8>,
    start: Seq<u8>,
    now: Seq<u8>,
    into: Seq<u8>,
    at: int,
)
    requires
        0 <= at,
        at + bytes.len() <= now.len(),
        start.len() == now.len(),
        now.take(at) + rest == goal,
        rest == bytes + left,
        now.skip(at) == start.skip(at),
        into == now.take(at) + bytes + now.skip(at + bytes.len()),
    ensures
        into.take(at + bytes.len()) + left == goal,
        into.skip(at + bytes.len()) == start.skip(at + bytes.len()),
{
    let n = at + bytes.len();
    assert(into.take(n) =~= now.take(at) + bytes);
    assert(into.take(n) + left =~= now.take(at) + (bytes + left));
    assert(into.skip(n) =~= now.skip(at).skip(bytes.len() as int));
    assert(start.skip(n) =~= start.skip(at).skip(bytes.len() as int));
}

impl Streamer {
    /// Answers a request to read a file from a table.
    fn fetch(
        &mut self,
        into: &mut [u8],
        at: usize,
        path: &[u8],
        follow: bool,
        offset: u64,
        table: &Vec<FileBody>,
    ) -> (n: usize)
        requires
            old(self).wf(),
            old(self)@.is_waiting(),
            old(self)@.items[old(self)@.current].body == Body::OnDisk(path@, follow),
            old(self)@.items[old(self)@.current].read == offset,
            at < old(into)@.len(),
        ensures
            final(self).wf(),
            at <= n <= old(into)@.len(),
            final(into)@.len() == old(into)@.len(),
            ({
                let files = files_in(table@);
                let bytes = final(into)@.subrange(at as int, n as int);
                &&& old(self)@.rest(files) == bytes + final(self)@.rest(files)
                &&& final(into)@ == old(into)@.take(at as int) + bytes + old(into)@.skip(n as int)
            }),
            final(self)@.mode == old(self)@.mode,
            final(self)@.follow == old(self)@.follow,
            final(self)@.items.len() == old(self)@.items.len(),
            n == at ==> final(self)@.current == old(self)@.current + 1 || (final(self)@.current
                == old(self)@.current && final(self)@.items[final(self)@.current].padding is Some),
            final(self)@.current >= old(self)@.current,
    {
        let ghost before = self@;
        let ghost start = into@;
        let ghost files = files_in(table@);
        let len: usize = into.len();
        match find_body(table, path, follow) {
            None => {
                proof {
                    law_not_a_file(before, files);
                    assert(start.subrange(at as int, at as int) =~= Seq::empty());
                    assert(Seq::<u8>::empty() + before.skipped().rest(files)
                        =~= before.skipped().rest(files));
                    assert(start =~= start.take(at as int) + start.subrange(at as int, at as int)
                        + start.skip(at as int));
                }
                self.not_a_file();
                at
            },
            Some(data) => {
                let n: usize = if offset >= data.len() as u64 {
                    0
                } else if ((len - at) as u64) < data.len() as u64 - offset {
                    len - at
                } else {
                    (data.len() as u64 - offset) as usize
                };
                proof {
                    law_fetched(before, files, n as int);
                }
                if n > 0 {
                    let bytes: &[u8] = slice_subrange(data, offset as usize, offset as usize + n);
                    fill_at(into, at, bytes);
                    assert(into@.subrange(at as int, at + n) =~= bytes@);
                } else {
                    assert(start.subrange(at as int, at as int) =~= Seq::empty());
                    assert(start =~= start.take(at as int) + start.subrange(at as int, at as int)
                        + start.skip(at as int));
                }
                self.fetched(n);
                at + n
            },
        }
    }

    /// Streams into a buffer: as much of the archive as has room.
    ///
    /// `files` says what the files hold. Reading with buffers of whatever sizes gives the
    /// archive, bit by bit.
    pub fn read(&mut self, into: &mut [u8], files: &Vec<FileBody>) -> (r: Result<usize, TarError>)
        requires
            old(self).wf(),
        ensures
            final(self).wf(),
            final(self)@.mode == old(self)@.mode,
            final(self)@.follow == old(self)@.follow,
            final(self)@.items.len() == old(self)@.items.len(),
            ({
                let rest = old(self)@.rest(files_in(files@));
                let n = least(old(into)@.len() as int, rest.len() as int);
                &&& r matches Ok(m) && m == n
                &&& final(into)@ == rest.take(n) + old(into)@.skip(n)
                &&& final(self)@.rest(files_in(files@)) == rest.skip(n)
            }),
    {
        let ghost all = files_in(files@);
        let ghost goal = self@.rest(all);
        let ghost start = into@;
        let mut at: usize = 0;
        assert(start.take(0) + goal =~= goal);
        let mut padded: bool = false;
        loop
            invariant
                self.wf(),
                all == files_in(files@),
                at <= into@.len() == start.len(),
                into@.take(at as int) + self@.rest(all) == goal,
                into@.skip(at as int) == start.skip(at as int),
                padded ==> 0 <= self@.current < self@.items.len()
                    && self@.items[self@.current].padding is Some,
                start == old(into)@,
                goal == old(self)@.rest(all),
                self@.mode == old(self)@.mode,
                self@.follow == old(self)@.follow,
                self@.items.len() == old(self)@.items.len(),
            decreases
                    into@.len() - at,
                    self@.items.len() + 1 - self@.current,
                    (if padded {
                        0int
                    } else {
                        1
                    }),
        {
            let ghost before = self@;
            let ghost now = into@;
            let r: Fill = self.fill(into, at);
            let ghost to = filled_to(r);
            let ghost between = self@;
            let ghost filled = into@;
            proof {
                let bytes = filled.subrange(at as int, to);
                assert(filled =~= filled.take(at as int) + bytes + filled.skip(to));
                lemma_streamed_for(
                    goal,
                    before.rest(all),
                    bytes,
                    between.rest(all),
                    start,
                    now,
                    filled,
                    at as int,
                );
            }
            match r {
                Fill::Filled(n) => {
                    proof {
                        let rest = self@.rest(all);
                        if self@.is_over() {
                            assert(items_rest(self@.items, self@.current, all) =~= Seq::empty());
                            assert(rest =~= Seq::empty());
                        }
                        let t = into@.take(n as int);
                        assert((t + rest).skip(n as int) =~= rest);
                        assert((t + rest).take(n as int) =~= t);
                        assert(into@ =~= t + into@.skip(n as int));
                    }
                    return Ok(n);
                },
                Fill::Fetch { path, follow, offset, at: to } => {
                    let n: usize = self.fetch(into, to, path.as_slice(), follow, offset, files);
                    proof {
                        lemma_streamed_for(
                            goal,
                            between.rest(all),
                            into@.subrange(to as int, n as int),
                            self@.rest(all),
                            start,
                            filled,
                            into@,
                            to as int,
                        );
                    }
                    padded = self.is_padded();
                    at = n;
                },
            }
        }
    }

    /// Returns whether zeros are streamed next.
    fn is_padded(&self) -> (r: bool)
        requires
            self.wf(),
        ensures
            r == (0 <= self@.current < self@.items.len() && self@.items[self@.current].padding is Some),
    {
        let i: usize = self.streamer_metadata.current_index;
        i < self.items.len() && self.items[i].is_padded()
    }
}

} // verus!
