//! The walk from entry to entry, without any reading or seeking of its own.
//!
//! The walk asks for bytes to be skipped or read, and is told what came of it. It is then
//! either at an entry, at the end of the archive, or stuck.

use crate::bytes::{truncate, truncated};
use crate::entry::{optional, zeros, EntryFields, EntryIo, EntryView, Options};
use crate::error::{Fault, TarError};
use crate::gathering::{lemma_no_overflow, overflows, sizes_overflow};
use crate::header::{checksum, octal_u32, with_octal, Header};
use crate::number::octal;
use crate::parser::{
    describe, padded, parse, parsed, reads_plainly, Described, Description, Event, Parsed, Refusal,
};
use crate::path::{extend, same_bytes};
use vstd::prelude::*;
use vstd::slice::{slice_subrange, slice_to_vec};

verus! {

/// The walk over the entries of an archive.
pub struct EntriesFields {
    /// Where the next header stands, or the first byte behind what was read of it.
    pub next: u64,
    /// Whether the walk is over.
    pub done: bool,
    /// Whether extension records are entries like any other.
    pub raw: bool,
    /// Whether the archive is skipped over by seeking.
    pub seekable: bool,
    /// Where the headers of the entry that is looked for start, if the walk is raw.
    pub header_pos: u64,
    /// The bytes that were read in front of the entry that is looked for, if it is not.
    pub buf: Vec<u8>,
    /// The options of the archive.
    pub options: Options,
}

/// The walk over the entries of an archive, as a mathematical value.
#[verifier::ext_equal]
pub struct Walk {
    /// Where the next header stands, or the first byte behind what was read of it.
    pub next: u64,
    /// Whether the walk is over.
    pub done: bool,
    /// Whether extension records are entries like any other.
    pub raw: bool,
    /// Whether the archive is skipped over by seeking.
    pub seekable: bool,
    /// Where the headers of the entry that is looked for start, if the walk is raw.
    pub header_pos: u64,
    /// The bytes that were read in front of the entry that is looked for, if it is not.
    pub buf: Seq<u8>,
    /// The options of the archive.
    pub options: Options,
}

impl View for EntriesFields {
    type V = Walk;

    open spec fn view(&self) -> Walk {
        Walk {
            next: self.next,
            done: self.done,
            raw: self.raw,
            seekable: self.seekable,
            header_pos: self.header_pos,
            buf: self.buf@,
            options: self.options,
        }
    }
}

/// What the walk asks for, or where it has got to.
pub enum Action {
    /// So many bytes of the archive are to be skipped.
    Skip(u64),
    /// So many bytes of the archive are to be read.
    Fill(usize),
    /// An entry; its data is what stands next in the archive.
    Entry(EntryFields),
    /// The end of the archive.
    End,
    /// The archive cannot be read any further.
    Error(TarError),
}

/// What the walk asks for, or where it has got to, as a mathematical value.
#[verifier::ext_equal]
pub enum Asked {
    /// So many bytes of the archive are to be skipped.
    Skip(int),
    /// So many bytes of the archive are to be read.
    Fill(int),
    /// An entry; its data is what stands next in the archive.
    Entry(EntryView),
    /// The end of the archive.
    End,
    /// The archive cannot be read any further.
    Fail(Fault),
}

impl View for Action {
    type V = Asked;

    open spec fn view(&self) -> Asked {
        match self {
            Action::Skip(n) => Asked::Skip(*n as int),
            Action::Fill(n) => Asked::Fill(*n as int),
            Action::Entry(e) => Asked::Entry(e@),
            Action::End => Asked::End,
            Action::Error(e) => Asked::Fail(e@),
        }
    }
}

/// An error that its name alone describes.
pub open spec fn known(e: TarError) -> Asked {
    Asked::Fail(Fault::Known(e))
}

impl Walk {
    /// The walk, once it is over.
    pub open spec fn over(self) -> Walk {
        Walk { done: true, ..self }
    }
}

/// How far the blocks of a sparse file were laid out.
pub struct Layout {
    /// The runs of the file so far.
    pub data: Seq<EntryIo>,
    /// The length of the file so far.
    pub end: int,
    /// How many bytes of the archive they use.
    pub used: int,
}

/// The runs that a list of blocks of a sparse file stands for: zeros up to each block, and
/// then its bytes.
pub open spec fn layout(map: Seq<(u64, u64)>, on_disk: int) -> Result<Layout, TarError>
    decreases map.len(),
{
    if map.len() == 0 {
        Ok(Layout { data: Seq::empty(), end: 0, used: 0 })
    } else {
        match layout(map.drop_last(), on_disk) {
            Err(e) => Err(e),
            Ok(before) => {
                let (offset, length) = map.last();
                if length != 0 && before.used % 512 != 0 {
                    Err(TarError::SparseUnaligned)
                } else if offset < before.end {
                    Err(TarError::SparseOverlap)
                } else if offset + length > u64::MAX {
                    Err(TarError::SparseTooLong)
                } else if before.used + length > on_disk {
                    Err(TarError::SparseOverrun)
                } else {
                    let gap = if before.end < offset {
                        seq![EntryIo::Pad((offset - before.end) as u64)]
                    } else {
                        Seq::empty()
                    };
                    Ok(
                        Layout {
                            data: before.data + gap + seq![EntryIo::Data(length)],
                            end: offset + length,
                            used: before.used + length,
                        },
                    )
                }
            },
        }
    }
}

/// The runs of a sparse file: its blocks must end where the file does and use all
/// bytes that the archive holds.
pub open spec fn sparse_runs(map: Seq<(u64, u64)>, real_size: u64, on_disk: u64) -> Result<
    Seq<EntryIo>,
    TarError,
> {
    match layout(map, on_disk as int) {
        Err(e) => Err(e),
        Ok(all) => if all.end != real_size {
            Err(TarError::SparseSizeMismatch)
        } else if all.used < on_disk {
            Err(TarError::SparseDataMismatch)
        } else {
            Ok(all.data)
        },
    }
}

/// The entry that a description stands for, when its headers end at `next`, and where the
/// header behind it stands.
pub open spec fn described_entry(next: u64, consumed: int, d: Described, options: Options) -> Result<
    (EntryView, u64),
    TarError,
> {
    let runs = match d.sparse {
        Some((map, real_size)) => sparse_runs(map, real_size, d.size),
        None => Ok(seq![EntryIo::Data(d.size)]),
    };
    if d.size + 511 > u64::MAX {
        Err(TarError::SizeOverflow)
    } else if consumed > next {
        Err(TarError::PositionOverflow)
    } else if runs is Err {
        Err(runs->Err_0)
    } else if next + padded(d.size as int) > u64::MAX {
        Err(TarError::SizeOverflow)
    } else {
        Ok(
            (
                EntryView {
                    long_pathname: if d.path == truncated(d.header.subrange(0, 100)) {
                        None
                    } else {
                        Some(d.path)
                    },
                    long_linkname: match d.link_target {
                        Some(link) => if link == truncated(d.header.subrange(157, 257)) {
                            None
                        } else {
                            Some(link)
                        },
                        None => None,
                    },
                    pax_extensions: d.pax,
                    header: with_octal(
                        with_octal(d.header, 108, 116, d.uid as int),
                        116,
                        124,
                        d.gid as int,
                    ),
                    size: match d.sparse {
                        Some((map, real_size)) => real_size,
                        None => d.size,
                    },
                    header_pos: (next - consumed) as u64,
                    file_pos: next,
                    data: runs->Ok_0,
                    options,
                },
                (next + padded(d.size as int)) as u64,
            ),
        )
    }
}

/// Whether a block of zeros is followed by a block that is none.
pub open spec fn lone_zero_block(buf: Seq<u8>) -> bool {
    buf.len() >= 1024 && buf.take(512) == zeros(512) && buf.subrange(512, 1024) != zeros(512)
}

/// The walk and what it asks for, once the parser has seen all bytes that were read.
///
/// The sizes of the extension records in front of an entry must add up. Extensions for all
/// entries are passed over. So is the end of an archive, if zeros are to be ignored.
pub open spec fn settled(w: Walk) -> (Walk, Asked)
    decreases w.buf.len(),
{
    let buf = w.buf;
    if overflows(buf) {
        (w.over(), known(TarError::SizeOverflow))
    } else if !w.options.ignore_zeros && lone_zero_block(buf) {
        (w.over(), known(TarError::LoneZeroBlock))
    } else {
        match parsed(buf) {
            Parsed::NeedData(n) => if n <= buf.len() {
                (w.over(), known(TarError::ShortRequest))
            } else {
                (w, Asked::Fill(n - buf.len()))
            },
            Parsed::End(n) => if !w.options.ignore_zeros {
                (w.over(), Asked::End)
            } else if 0 < n <= buf.len() {
                settled(Walk { buf: buf.skip(n), ..w })
            } else {
                (w.over(), known(TarError::ShortRequest))
            },
            Parsed::GlobalExtensions(n) => if 0 < n <= buf.len() {
                settled(Walk { buf: buf.skip(n), ..w })
            } else {
                (w.over(), known(TarError::ShortRequest))
            },
            Parsed::Entry(n, d) => match described_entry(w.next, n, d, w.options) {
                Ok((entry, next)) => (Walk { next, ..w }, Asked::Entry(entry)),
                Err(e) => (w.over(), known(e)),
            },
            Parsed::InvalidSize => (w.over(), known(TarError::SizeOverflow)),
            Parsed::Refused(text) => (w.over(), Asked::Fail(Fault::Parser(text))),
        }
    }
}

/// The entry that a header stands for by itself, when it ends at `next`, and where the header
/// behind it stands.
pub open spec fn raw_entry(next: int, header_pos: u64, h: Seq<u8>, options: Options) -> Result<
    (EntryView, u64),
    TarError,
> {
    let cksum = octal_u32(h.subrange(148, 156));
    let size = octal(h.subrange(124, 136));
    if next > u64::MAX {
        Err(TarError::PositionOverflow)
    } else if cksum is Err {
        Err(cksum->Err_0)
    } else if cksum->Ok_0 != checksum(h) {
        Err(TarError::ChecksumMismatch)
    } else if size is Err {
        Err(size->Err_0)
    } else if size->Ok_0 + 511 > u64::MAX || next + padded(size->Ok_0 as int) > u64::MAX {
        Err(TarError::SizeOverflow)
    } else {
        let n = size->Ok_0;
        Ok(
            (
                EntryView {
                    long_pathname: None,
                    long_linkname: None,
                    pax_extensions: None,
                    header: h,
                    size: n,
                    header_pos,
                    file_pos: next as u64,
                    data: seq![EntryIo::Data(n)],
                    options,
                },
                (next + padded(n as int)) as u64,
            ),
        )
    }
}

/// The walk and what it asks for, once a raw walk has read the block at `next`.
pub open spec fn raw_settled(w: Walk, block: Seq<u8>) -> (Walk, Asked) {
    if block == zeros(512) {
        if !w.options.ignore_zeros {
            (w.over(), Asked::End)
        } else if w.next + 512 > u64::MAX {
            (w.over(), known(TarError::PositionOverflow))
        } else {
            let next = (w.next + 512) as u64;
            (Walk { next, header_pos: next, ..w }, Asked::Fill(512))
        }
    } else {
        match raw_entry(w.next + 512, w.header_pos, block, w.options) {
            Ok((entry, next)) => (Walk { next, ..w }, Asked::Entry(entry)),
            Err(e) => (w.over(), known(e)),
        }
    }
}

/// The walk and what it asks for, when the next entry is looked for and the archive stands at
/// `pos`.
pub open spec fn begun(w: Walk, pos: u64) -> (Walk, Asked) {
    if w.done {
        (w, Asked::End)
    } else if pos > w.next {
        (w.over(), known(TarError::PositionOverflow))
    } else if w.seekable && w.next - pos > i64::MAX {
        (w.over(), known(TarError::SeekOutOfBounds))
    } else {
        (
            Walk { header_pos: w.next, buf: Seq::empty(), ..w },
            Asked::Skip(w.next - pos),
        )
    }
}

/// The walk and what it asks for, once the archive stands at the next header.
pub open spec fn after_skip(w: Walk) -> (Walk, Asked) {
    if w.raw {
        (w, Asked::Fill(512))
    } else {
        settled(w)
    }
}

/// The walk and what it asks for, once the bytes it asked for were read.
pub open spec fn after_fill(w: Walk, block: Seq<u8>) -> (Walk, Asked) {
    if w.raw {
        raw_settled(w, block)
    } else if w.next + block.len() > u64::MAX {
        (w.over(), known(TarError::PositionOverflow))
    } else {
        settled(Walk { next: (w.next + block.len()) as u64, buf: w.buf + block, ..w })
    }
}

/// The walk and what it asks for, once the archive ended where bytes were to be read.
pub open spec fn after_end(w: Walk) -> (Walk, Asked) {
    if w.raw || w.buf.len() == 0 || w.options.ignore_zeros {
        (w.over(), Asked::End)
    } else {
        (w.over(), known(TarError::UnexpectedEof))
    }
}

/// The runs as a mathematical value.
pub open spec fn runs_of(r: Result<Vec<EntryIo>, TarError>) -> Result<Seq<EntryIo>, TarError> {
    match r {
        Ok(v) => Ok(v@),
        Err(e) => Err(e),
    }
}

/// An error in the middle of a list is the error of the whole list.
proof fn lemma_layout_error(map: Seq<(u64, u64)>, n: int, on_disk: int)
    requires
        0 <= n <= map.len(),
        layout(map.take(n), on_disk) is Err,
    ensures
        layout(map, on_disk) == layout(map.take(n), on_disk),
    decreases map.len(),
{
    if n == map.len() {
        assert(map.take(n) =~= map);
    } else {
        assert(map.drop_last().take(n) =~= map.take(n));
        lemma_layout_error(map.drop_last(), n, on_disk);
    }
}

/// Every error of a layout is described by its name alone.
proof fn lemma_layout_known(map: Seq<(u64, u64)>, on_disk: int)
    ensures
        layout(map, on_disk) matches Err(e) ==> !(e is Parse),
    decreases map.len(),
{
    if map.len() > 0 {
        lemma_layout_known(map.drop_last(), on_disk);
    }
}

/// Lays out the runs of a sparse file.
pub fn build_sparse_io(map: &Vec<(u64, u64)>, real_size: u64, on_disk_size: u64) -> (r: Result<
    Vec<EntryIo>,
    TarError,
>)
    ensures
        runs_of(r) == sparse_runs(map@, real_size, on_disk_size),
{
    let mut data: Vec<EntryIo> = Vec::new();
    let mut cur: u64 = 0;
    let mut remaining: u64 = on_disk_size;
    let mut i: usize = 0;
    let ghost disk = on_disk_size as int;
    assert(map@.take(0) =~= Seq::empty());
    while i < map.len()
        invariant
            i <= map@.len(),
            disk == on_disk_size,
            remaining <= on_disk_size,
            layout(map@.take(i as int), disk) == Ok::<Layout, TarError>(
                Layout { data: data@, end: cur as int, used: on_disk_size - remaining },
            ),
        decreases map@.len() - i,
    {
        let ghost before = data@;
        let ghost done = map@.take(i + 1);
        assert(done.drop_last() =~= map@.take(i as int));
        assert(done.last() == map@[i as int]);
        let (off, len) = map[i];
        if len != 0 && (on_disk_size - remaining) % 512 != 0 {
            proof {
                lemma_layout_error(map@, i + 1, disk);
            }
            return Err(TarError::SparseUnaligned);
        }
        if off < cur {
            proof {
                lemma_layout_error(map@, i + 1, disk);
            }
            return Err(TarError::SparseOverlap);
        }
        if cur < off {
            data.push(EntryIo::Pad(off - cur));
        }
        cur = match off.checked_add(len) {
            Some(end) => end,
            None => {
                proof {
                    lemma_layout_error(map@, i + 1, disk);
                }
                return Err(TarError::SparseTooLong);
            },
        };
        remaining = match remaining.checked_sub(len) {
            Some(left) => left,
            None => {
                proof {
                    lemma_layout_error(map@, i + 1, disk);
                }
                return Err(TarError::SparseOverrun);
            },
        };
        data.push(EntryIo::Data(len));
        assert(layout(done, disk)->Ok_0.data =~= data@);
        i = i + 1;
    }
    assert(map@.take(i as int) =~= map@);
    if cur != real_size {
        return Err(TarError::SparseSizeMismatch);
    }
    if remaining > 0 {
        return Err(TarError::SparseDataMismatch);
    }
    Ok(data)
}

/// Rounds a size up to whole blocks.
pub(crate) fn round_up(size: u64) -> (r: Option<u64>)
    ensures
        match r {
            Some(n) => size + 511 <= u64::MAX && n == padded(size as int),
            None => size + 511 > u64::MAX,
        },
{
    match size.checked_add(511) {
        Some(n) => Some(n / 512 * 512),
        None => None,
    }
}

/// Returns whether some bytes are all zero.
pub(crate) fn all_zero(b: &[u8]) -> (r: bool)
    ensures
        r == (b@ == zeros(b@.len() as int)),
{
    let mut i: usize = 0;
    while i < b.len()
        invariant
            i <= b@.len(),
            forall|k: int| 0 <= k < i ==> b@[k] == 0,
        decreases b@.len() - i,
    {
        if b[i] != 0 {
            assert(zeros(b@.len() as int)[i as int] == 0);
            return false;
        }
        i = i + 1;
    }
    assert(b@ =~= zeros(b@.len() as int));
    true
}

/// What is kept of the description of an entry.
pub struct EntryMeta {
    consumed: usize,
    header: Header,
    content_size: u64,
    padded_content_size: u64,
    long_pathname: Option<Vec<u8>>,
    long_linkname: Option<Vec<u8>>,
    pax_extensions: Option<Vec<u8>>,
    sparse: Option<(Vec<(u64, u64)>, u64)>,
}

impl EntryMeta {
    /// Whether this is what is kept of a description.
    pub closed spec fn is_of(self, consumed: int, d: Described) -> bool {
        &&& self.consumed == consumed
        &&& self.header@ == with_octal(
            with_octal(d.header, 108, 116, d.uid as int),
            116,
            124,
            d.gid as int,
        )
        &&& self.content_size == d.size
        &&& self.padded_content_size == padded(d.size as int)
        &&& optional(self.long_pathname) == if d.path == truncated(d.header.subrange(0, 100)) {
            None
        } else {
            Some(d.path)
        }
        &&& optional(self.long_linkname) == match d.link_target {
            Some(link) => if link == truncated(d.header.subrange(157, 257)) {
                None
            } else {
                Some(link)
            },
            None => None,
        }
        &&& optional(self.pax_extensions) == d.pax
        &&& match (self.sparse, d.sparse) {
            (Some((map, size)), Some((m, s))) => map@ == m && size == s,
            (None, None) => true,
            _ => false,
        }
    }

    /// Keeps what is needed of the description of an entry whose headers take `consumed` bytes.
    ///
    /// The header takes over owner and group. Path and link name are kept apart only where the
    /// header does not hold them.
    pub fn from_parsed(consumed: usize, d: Description) -> (r: Result<EntryMeta, TarError>)
        ensures
            match r {
                Ok(meta) => d.size + 511 <= u64::MAX && meta.is_of(consumed as int, d@),
                Err(e) => d.size + 511 > u64::MAX && e == TarError::SizeOverflow,
            },
    {
        let mut header: Header = Header { bytes: d.header };
        let padded_content_size: u64 = match round_up(d.size) {
            Some(n) => n,
            None => {
                return Err(TarError::SizeOverflow);
            },
        };
        let long_pathname: Option<Vec<u8>> = if same_bytes(
            d.path.as_slice(),
            truncate(header.field(0, 100)),
        ) {
            None
        } else {
            Some(d.path)
        };
        let long_linkname: Option<Vec<u8>> = match d.link_target {
            Some(link) => if same_bytes(link.as_slice(), truncate(header.field(157, 257))) {
                None
            } else {
                Some(link)
            },
            None => None,
        };
        header.set_octal(108, 116, d.uid);
        header.set_octal(116, 124, d.gid);
        Ok(
            EntryMeta {
                consumed,
                header,
                content_size: d.size,
                padded_content_size,
                long_pathname,
                long_linkname,
                pax_extensions: d.pax,
                sparse: d.sparse,
            },
        )
    }
}

/// Returns the error that a refusal of the parser stands for.
pub fn parse_error_to_io(e: Refusal) -> (r: TarError)
    ensures
        r@ == match e {
            Refusal::InvalidSize => Fault::Known(TarError::SizeOverflow),
            Refusal::Other(text) => Fault::Parser(text@),
        },
{
    match e {
        Refusal::InvalidSize => TarError::SizeOverflow,
        Refusal::Other(text) => TarError::Parse(text),
    }
}

impl EntriesFields {
    /// Starts a walk at the first byte of an archive.
    pub fn new(options: Options, seekable: bool) -> (r: EntriesFields)
        ensures
            r@ == (Walk {
                next: 0,
                done: false,
                raw: false,
                seekable,
                header_pos: 0,
                buf: Seq::empty(),
                options,
            }),
    {
        let r: EntriesFields = EntriesFields {
            next: 0,
            done: false,
            raw: false,
            seekable,
            header_pos: 0,
            buf: Vec::new(),
            options,
        };
        assert(r@.buf =~= Seq::empty());
        r
    }

    /// Gives up, because of an error or at the end of the archive.
    fn stop(&mut self, action: Action) -> (r: Action)
        ensures
            r == action,
            final(self)@ == old(self)@.over(),
    {
        self.done = true;
        action
    }

    /// Looks for the next entry of an archive that stands at `pos`.
    pub fn begin(&mut self, pos: u64) -> (r: Action)
        ensures
            (final(self)@, r@) == begun(old(self)@, pos),
    {
        if self.done {
            return Action::End;
        }
        let delta: u64 = match self.next.checked_sub(pos) {
            Some(delta) => delta,
            None => {
                return self.stop(Action::Error(TarError::PositionOverflow));
            },
        };
        if self.seekable && delta > i64::MAX as u64 {
            return self.stop(Action::Error(TarError::SeekOutOfBounds));
        }
        self.header_pos = self.next;
        self.buf.clear();
        assert(self@.buf =~= Seq::empty());
        Action::Skip(delta)
    }

    /// Goes on once the bytes that were to be skipped are skipped.
    pub fn skipped(&mut self) -> (r: Action)
        ensures
            (final(self)@, r@) == after_skip(old(self)@),
            !old(self).raw ==> reads_plainly(old(self).buf@),
    {
        if self.raw {
            Action::Fill(512)
        } else {
            self.next_entry()
        }
    }

    /// Goes on once the bytes that were to be read are read.
    pub fn filled(&mut self, block: &[u8]) -> (r: Action)
        requires
            old(self).raw ==> block@.len() == 512,
        ensures
            (final(self)@, r@) == after_fill(old(self)@, block@),
            !old(self).raw && old(self).next + block@.len() <= u64::MAX ==> reads_plainly(
                old(self).buf@ + block@,
            ),
    {
        if self.raw {
            return self.next_entry_raw(block);
        }
        match self.next.checked_add(block.len() as u64) {
            Some(next) => {
                self.next = next;
            },
            None => {
                return self.stop(Action::Error(TarError::PositionOverflow));
            },
        }
        extend(&mut self.buf, block);
        self.next_entry()
    }

    /// Goes on once the archive ended where bytes were to be read.
    pub fn ended(&mut self) -> (r: Action)
        ensures
            (final(self)@, r@) == after_end(old(self)@),
    {
        if self.raw || self.buf.len() == 0 || self.options.ignore_zeros {
            self.stop(Action::End)
        } else {
            self.stop(Action::Error(TarError::UnexpectedEof))
        }
    }

    /// Ends the walk because the archive could not be read.
    pub fn failed(&mut self)
        ensures
            final(self)@ == old(self)@.over(),
    {
        self.done = true;
    }

    /// Parses what was read in front of the next entry, until it is an entry, the end, or not
    /// enough.
    fn next_entry(&mut self) -> (r: Action)
        ensures
            (final(self)@, r@) == settled(old(self)@),
            reads_plainly(old(self).buf@),
    {
        let ghost start = self@;
        loop
            invariant
                start == old(self)@,
                self@ == start || reads_plainly(start.buf),
                settled(self@) == settled(start),
            decreases self.buf@.len(),
        {
            let ghost w = self@;
            if sizes_overflow(self.buf.as_slice()) {
                proof {
                    lemma_no_overflow(w.buf);
                }
                return self.stop(Action::Error(TarError::SizeOverflow));
            }
            let event: Result<Event, Refusal> = parse(self.buf.as_slice());
            let description: Option<Description> = match &event {
                Ok(Event::Entry(_)) => describe(self.buf.as_slice()),
                _ => None,
            };
            assert(reads_plainly(w.buf));
            if !self.options.ignore_zeros && self.has_lone_zero_block() {
                return self.stop(Action::Error(TarError::LoneZeroBlock));
            }
            match event {
                Ok(Event::NeedData(n)) => {
                    if n <= self.buf.len() {
                        return self.stop(Action::Error(TarError::ShortRequest));
                    }
                    return Action::Fill(n - self.buf.len());
                },
                Ok(Event::End(n)) => {
                    if !self.options.ignore_zeros {
                        return self.stop(Action::End);
                    }
                    self.drop_front(n);
                },
                Ok(Event::GlobalExtensions(n)) => {
                    self.drop_front(n);
                },
                Ok(Event::Entry(n)) => {
                    match description {
                        Some(d) => {
                            return self.finish_entry(n, d);
                        },
                        // The parser describes every entry that it finds.
                        None => {
                            return Action::End;
                        },
                    }
                },
                Err(e) => {
                    let error: TarError = parse_error_to_io(e);
                    return self.stop(Action::Error(error));
                },
            }
        }
    }

    /// Drops bytes that the parser is done with.
    fn drop_front(&mut self, n: usize)
        requires
            n <= old(self).buf@.len(),
        ensures
            final(self)@ == (Walk { buf: old(self).buf@.skip(n as int), ..old(self)@ }),
    {
        let ghost before = self.buf@;
        let rest: Vec<u8> = slice_to_vec(
            slice_subrange(self.buf.as_slice(), n, self.buf.len()),
        );
        self.buf = rest;
        assert(self.buf@ =~= before.skip(n as int));
    }

    fn has_lone_zero_block(&self) -> (r: bool)
        ensures
            r == lone_zero_block(self.buf@),
    {
        if self.buf.len() < 1024 {
            return false;
        }
        let first: &[u8] = slice_subrange(self.buf.as_slice(), 0, 512);
        assert(first@ =~= self.buf@.take(512));
        all_zero(first) && !all_zero(slice_subrange(self.buf.as_slice(), 512, 1024))
    }

    /// Makes an entry of its description, and moves on to the header behind it.
    fn finish_entry(&mut self, consumed: usize, d: Description) -> (r: Action)
        ensures
            match described_entry(old(self).next, consumed as int, d@, old(self).options) {
                Ok((entry, next)) => r@ == Asked::Entry(entry) && final(self)@ == (Walk {
                    next,
                    ..old(self)@
                }),
                Err(e) => r@ == known(e) && final(self)@ == old(self)@.over(),
            },
    {
        let meta: EntryMeta = match EntryMeta::from_parsed(consumed, d) {
            Ok(meta) => meta,
            Err(e) => {
                return self.stop(Action::Error(e));
            },
        };
        let header_pos: u64 = match self.next.checked_sub(meta.consumed as u64) {
            Some(pos) => pos,
            None => {
                return self.stop(Action::Error(TarError::PositionOverflow));
            },
        };
        let file_pos: u64 = self.next;
        let (data, size): (Vec<EntryIo>, u64) = match meta.sparse {
            Some((map, real_size)) => match build_sparse_io(&map, real_size, meta.content_size) {
                Ok(data) => (data, real_size),
                Err(e) => {
                    proof {
                        lemma_layout_known(map@, meta.content_size as int);
                    }
                    return self.stop(Action::Error(e));
                },
            },
            None => {
                let mut data: Vec<EntryIo> = Vec::new();
                data.push(EntryIo::Data(meta.content_size));
                assert(data@ =~= seq![EntryIo::Data(meta.content_size)]);
                (data, meta.content_size)
            },
        };
        match file_pos.checked_add(meta.padded_content_size) {
            Some(next) => {
                self.next = next;
            },
            None => {
                return self.stop(Action::Error(TarError::SizeOverflow));
            },
        }
        Action::Entry(
            EntryFields {
                long_pathname: meta.long_pathname,
                long_linkname: meta.long_linkname,
                pax_extensions: meta.pax_extensions,
                header: meta.header,
                size,
                header_pos,
                file_pos,
                data,
                options: self.options,
            },
        )
    }

    /// Makes a raw entry of the block at the place of the next header, or passes over it.
    fn next_entry_raw(&mut self, block: &[u8]) -> (r: Action)
        requires
            block@.len() == 512,
        ensures
            (final(self)@, r@) == raw_settled(old(self)@, block@),
    {
        let next: u64 = match self.next.checked_add(512) {
            Some(next) => next,
            None => {
                if all_zero(block) && !self.options.ignore_zeros {
                    return self.stop(Action::End);
                }
                return self.stop(Action::Error(TarError::PositionOverflow));
            },
        };
        if all_zero(block) {
            if !self.options.ignore_zeros {
                return self.stop(Action::End);
            }
            self.next = next;
            self.header_pos = next;
            return Action::Fill(512);
        }
        let header: Header = Header::from_block(block);
        let sum: u32 = header.compute_cksum();
        match header.cksum() {
            Ok(cksum) => {
                if sum != cksum {
                    return self.stop(Action::Error(TarError::ChecksumMismatch));
                }
            },
            Err(e) => {
                return self.stop(Action::Error(e));
            },
        }
        let size: u64 = match header.entry_size() {
            Ok(size) => size,
            Err(e) => {
                return self.stop(Action::Error(e));
            },
        };
        let behind: u64 = match round_up(size) {
            Some(rounded) => match next.checked_add(rounded) {
                Some(behind) => behind,
                None => {
                    return self.stop(Action::Error(TarError::SizeOverflow));
                },
            },
            None => {
                return self.stop(Action::Error(TarError::SizeOverflow));
            },
        };
        let mut data: Vec<EntryIo> = Vec::new();
        data.push(EntryIo::Data(size));
        let entry: EntryFields = EntryFields {
            long_pathname: None,
            long_linkname: None,
            pax_extensions: None,
            header,
            size,
            header_pos: self.header_pos,
            file_pos: next,
            data,
            options: self.options,
        };
        assert(entry.data@ =~= seq![EntryIo::Data(size)]);
        self.next = behind;
        Action::Entry(entry)
    }
}

/// How many bytes are read at once when bytes are skipped by reading.
pub fn skip_chunk(amt: u64) -> (r: usize)
    ensures
        r == if amt < 32768 {
            amt as int
        } else {
            32768
        },
{
    if amt < 32768 {
        amt as usize
    } else {
        32768
    }
}

/// Tells how many bytes are left to be skipped once `n` of them were read.
///
/// To read none means that the archive has ended.
pub fn skip_progress(amt: u64, n: usize) -> (r: Result<u64, TarError>)
    requires
        n <= amt,
    ensures
        r == if n == 0 {
            Err(TarError::EofInSkip)
        } else {
            Ok((amt - n) as u64)
        },
{
    if n == 0 {
        Err(TarError::EofInSkip)
    } else {
        Ok(amt - n as u64)
    }
}

/// How far the reading of a block has got.
#[derive(Clone, Copy, PartialEq, Eq, Debug, Structural)]
pub enum Progress {
    /// So many bytes are there, and more are needed.
    Partial(usize),
    /// All bytes are there.
    Full,
    /// The archive ended in front of the block.
    Ended,
}

/// Tells how far the reading of a block of `len` bytes has got once `n` more bytes were read.
///
/// To read none means that the archive has ended.
pub fn fill_progress(read: usize, len: usize, n: usize) -> (r: Result<Progress, TarError>)
    requires
        read < len,
        read + n <= len,
    ensures
        r == if n == 0 && read == 0 {
            Ok(Progress::Ended)
        } else if n == 0 {
            Err(TarError::EofInBlock)
        } else if read + n < len {
            Ok(Progress::Partial((read + n) as usize))
        } else {
            Ok(Progress::Full)
        },
{
    if n == 0 {
        if read == 0 {
            Ok(Progress::Ended)
        } else {
            Err(TarError::EofInBlock)
        }
    } else if read + n < len {
        Ok(Progress::Partial(read + n))
    } else {
        Ok(Progress::Full)
    }
}

} // verus!
