//! Archives that are held in memory.

use crate::entry::{zeros, Entry, EntryView, Options};
use crate::error::{Fault, TarError};
use crate::gathering::{lemma_no_overflow, overflows};
use crate::header::{byte_sum, without_cksum};
use crate::header_laws::lemma_sum_bound;
use crate::machine::{
    after_end, after_fill, after_skip, begun, described_entry, lone_zero_block, settled, Action,
    Asked, EntriesFields, Walk,
};
use crate::parser::{
    announces, behind_record, chained, is_ordinary, no_front, parsed, plain_number, reads_plainly,
    record_at_front, wanted, Described, Front, Parsed,
};
use vstd::prelude::*;
use vstd::slice::slice_subrange;

verus! {

/// What an archive is and how it is unpacked.
pub struct ArchiveInner {
    /// How many bytes were read.
    pub pos: u64,
    /// How entries are unpacked.
    pub options: Options,
    /// The bytes.
    pub obj: Vec<u8>,
}

/// An archive.
pub struct Archive {
    /// What it is and how it is unpacked.
    pub inner: ArchiveInner,
}

/// The options that an archive starts out with.
pub open spec fn default_options() -> Options {
    Options {
        mask: 0,
        unpack_xattrs: false,
        preserve_permissions: false,
        preserve_ownerships: false,
        preserve_mtime: true,
        overwrite: true,
        ignore_zeros: false,
    }
}

/// The entries of an archive, in order.
pub struct Entries<'a> {
    /// The walk over the archive.
    pub fields: EntriesFields,
    /// The archive.
    pub obj: &'a [u8],
    /// How many bytes were read.
    pub pos: &'a mut u64,
}

/// Where a walk and its archive have got to.
#[verifier::ext_equal]
pub struct Place {
    /// The walk.
    pub walk: Walk,
    /// How many bytes of the archive were read.
    pub pos: int,
}

/// What a walk comes to next.
#[verifier::ext_equal]
pub enum Found {
    /// An entry.
    Entry(EntryView),
    /// The end of the archive.
    End,
    /// The archive cannot be read any further.
    Fail(Fault),
}

/// What a walk over `obj` comes to when it has asked for `want` bytes.
///
/// The bytes are read where the archive stands. If there are none the archive has ended; if
/// there are too few it is cut off.
pub open spec fn read_on(obj: Seq<u8>, at: Place, want: int) -> (Place, Found)
    decreases obj.len() - at.pos,
{
    if at.pos >= obj.len() {
        let (walk, asked) = after_end(at.walk);
        (
            Place { walk, ..at },
            match asked {
                Asked::Fail(f) => Found::Fail(f),
                _ => Found::End,
            },
        )
    } else if at.pos + want > obj.len() {
        (
            Place { walk: at.walk.over(), pos: obj.len() as int },
            Found::Fail(Fault::Known(TarError::EofInBlock)),
        )
    } else {
        let (walk, asked) = after_fill(at.walk, obj.subrange(at.pos, at.pos + want));
        let next = Place { walk, pos: at.pos + want };
        match asked {
            Asked::Fill(n) => if want > 0 {
                read_on(obj, next, n)
            } else {
                (next, Found::End)
            },
            Asked::Entry(e) => (next, Found::Entry(e)),
            Asked::Fail(f) => (next, Found::Fail(f)),
            _ => (next, Found::End),
        }
    }
}

/// What a walk over `obj` comes to from where it asks for something.
pub open spec fn carried_on(obj: Seq<u8>, at: Place, asked: Asked) -> (Place, Found) {
    match asked {
        Asked::Fill(n) => read_on(obj, at, n),
        Asked::Entry(e) => (at, Found::Entry(e)),
        Asked::Fail(f) => (at, Found::Fail(f)),
        _ => (at, Found::End),
    }
}

/// What a walk over `obj` comes to next.
pub open spec fn look(obj: Seq<u8>, at: Place) -> (Place, Found) {
    let (walk, asked) = begun(at.walk, at.pos as u64);
    match asked {
        Asked::Skip(n) => {
            if !walk.seekable && at.pos + n > obj.len() {
                (
                    Place {
                        walk: walk.over(),
                        pos: if at.pos < obj.len() {
                            obj.len() as int
                        } else {
                            at.pos
                        },
                    },
                    Found::Fail(Fault::Known(TarError::EofInSkip)),
                )
            } else {
                let (walk, asked) = after_skip(walk);
                carried_on(obj, Place { walk, pos: at.pos + n }, asked)
            }
        },
        Asked::Fail(f) => (Place { walk, ..at }, Found::Fail(f)),
        _ => (Place { walk, ..at }, Found::End),
    }
}

/// Where a walk starts.
pub open spec fn start(options: Options, seekable: bool) -> Place {
    Place {
        walk: Walk {
            next: 0,
            done: false,
            raw: false,
            seekable,
            header_pos: 0,
            buf: Seq::empty(),
            options,
        },
        pos: 0,
    }
}

impl Archive {
    /// Creates a new archive of the given bytes.
    pub fn new(obj: Vec<u8>) -> (r: Archive)
        ensures
            r.inner.pos == 0,
            r.inner.options == default_options(),
            r.inner.obj@ == obj@,
    {
        Archive {
            inner: ArchiveInner {
                pos: 0,
                options: Options {
                    mask: 0,
                    unpack_xattrs: false,
                    preserve_permissions: false,
                    preserve_ownerships: false,
                    preserve_mtime: true,
                    overwrite: true,
                    ignore_zeros: false,
                },
                obj,
            },
        }
    }

    /// Starts to go through the entries of this archive.
    ///
    /// Fails if the archive was read from before.
    pub fn entries(&mut self) -> (r: Result<Entries<'_>, TarError>)
        ensures
            final(self).inner.obj == old(self).inner.obj,
            final(self).inner.options == old(self).inner.options,
            match r {
                Ok(entries) => old(self).inner.pos == 0 && entries.obj@ == old(self).inner.obj@
                    && entries.place() == start(old(self).inner.options, false)
                    && final(self).inner.pos == *final(entries.pos),
                Err(e) => old(self).inner.pos != 0 && e == TarError::NotAtStart
                    && final(self).inner.pos == old(self).inner.pos,
            },
    {
        self.start_entries(false)
    }

    /// Starts to go through the entries of this archive, seeking over their data.
    ///
    /// Fails if the archive was read from before.
    pub fn entries_with_seek(&mut self) -> (r: Result<Entries<'_>, TarError>)
        ensures
            final(self).inner.obj == old(self).inner.obj,
            final(self).inner.options == old(self).inner.options,
            match r {
                Ok(entries) => old(self).inner.pos == 0 && entries.obj@ == old(self).inner.obj@
                    && entries.place() == start(old(self).inner.options, true)
                    && final(self).inner.pos == *final(entries.pos),
                Err(e) => old(self).inner.pos != 0 && e == TarError::NotAtStart
                    && final(self).inner.pos == old(self).inner.pos,
            },
    {
        self.start_entries(true)
    }

    fn start_entries(&mut self, seekable: bool) -> (r: Result<Entries<'_>, TarError>)
        ensures
            final(self).inner.obj == old(self).inner.obj,
            final(self).inner.options == old(self).inner.options,
            match r {
                Ok(entries) => old(self).inner.pos == 0 && entries.obj@ == old(self).inner.obj@
                    && entries.place() == start(old(self).inner.options, seekable)
                    && final(self).inner.pos == *final(entries.pos),
                Err(e) => old(self).inner.pos != 0 && e == TarError::NotAtStart
                    && final(self).inner.pos == old(self).inner.pos,
            },
    {
        if self.inner.pos != 0 {
            return Err(TarError::NotAtStart);
        }
        Ok(
            Entries {
                fields: EntriesFields::new(self.inner.options, seekable),
                obj: self.inner.obj.as_slice(),
                pos: &mut self.inner.pos,
            },
        )
    }

    /// Sets the permission bits that are taken away from every file.
    ///
    /// There are none by default. The new mode is the old one without these bits.
    pub fn set_mask(&mut self, mask: u32)
        ensures
            final(self).inner.pos == old(self).inner.pos,
            final(self).inner.obj == old(self).inner.obj,
            final(self).inner.options == (Options { mask, ..old(self).inner.options }),
    {
        self.inner.options.mask = mask;
    }

    /// Sets whether extended attributes are restored.
    ///
    /// They are not by default.
    pub fn set_unpack_xattrs(&mut self, unpack_xattrs: bool)
        ensures
            final(self).inner.pos == old(self).inner.pos,
            final(self).inner.obj == old(self).inner.obj,
            final(self).inner.options == (Options { unpack_xattrs, ..old(self).inner.options }),
    {
        self.inner.options.unpack_xattrs = unpack_xattrs;
    }

    /// Sets whether all mode bits are restored, and not just the permissions.
    ///
    /// They are not by default.
    pub fn set_preserve_permissions(&mut self, preserve: bool)
        ensures
            final(self).inner.pos == old(self).inner.pos,
            final(self).inner.obj == old(self).inner.obj,
            final(self).inner.options == (Options {
                preserve_permissions: preserve,
                ..old(self).inner.options
            }),
    {
        self.inner.options.preserve_permissions = preserve;
    }

    /// Sets whether owner and group are restored.
    ///
    /// They are not by default.
    pub fn set_preserve_ownerships(&mut self, preserve: bool)
        ensures
            final(self).inner.pos == old(self).inner.pos,
            final(self).inner.obj == old(self).inner.obj,
            final(self).inner.options == (Options {
                preserve_ownerships: preserve,
                ..old(self).inner.options
            }),
    {
        self.inner.options.preserve_ownerships = preserve;
    }

    /// Sets whether files that exist are overwritten.
    ///
    /// They are by default.
    pub fn set_overwrite(&mut self, overwrite: bool)
        ensures
            final(self).inner.pos == old(self).inner.pos,
            final(self).inner.obj == old(self).inner.obj,
            final(self).inner.options == (Options { overwrite, ..old(self).inner.options }),
    {
        self.inner.options.overwrite = overwrite;
    }

    /// Sets whether modification times are restored.
    ///
    /// They are by default.
    pub fn set_preserve_mtime(&mut self, preserve: bool)
        ensures
            final(self).inner.pos == old(self).inner.pos,
            final(self).inner.obj == old(self).inner.obj,
            final(self).inner.options == (Options {
                preserve_mtime: preserve,
                ..old(self).inner.options
            }),
    {
        self.inner.options.preserve_mtime = preserve;
    }

    /// Sets whether blocks of zeros between entries are passed over.
    ///
    /// They end the archive by default. Passed over, they allow for archives one behind the other.
    pub fn set_ignore_zeros(&mut self, ignore_zeros: bool)
        ensures
            final(self).inner.pos == old(self).inner.pos,
            final(self).inner.obj == old(self).inner.obj,
            final(self).inner.options == (Options { ignore_zeros, ..old(self).inner.options }),
    {
        self.inner.options.ignore_zeros = ignore_zeros;
    }

    /// Returns the bytes of the archive.
    pub fn into_inner(self) -> (r: Vec<u8>)
        ensures
            r@ == self.inner.obj@,
    {
        self.inner.obj
    }
}

/// The bytes of an archive from a position on.
pub open spec fn rest_of(obj: Seq<u8>, pos: int) -> Seq<u8> {
    if pos < obj.len() {
        obj.skip(pos)
    } else {
        Seq::empty()
    }
}

/// Whether a result is what a walk came to, when `source` is left of the archive.
pub open spec fn is_found(
    r: Option<Result<Entry<'_>, TarError>>,
    found: Found,
    source: Seq<u8>,
) -> bool {
    match found {
        Found::Entry(e) => r matches Some(Ok(entry)) && entry.fields@ == e && entry.source@
            == source,
        Found::End => r is None,
        Found::Fail(f) => r matches Some(Err(e)) && e@ == f,
    }
}

/// What a plain entry at a position says of itself, and how many bytes its headers take.
///
/// An entry is plain if it is an ordinary header, alone or behind records that the parser takes.
pub open spec fn plain_ahead(obj: Seq<u8>, next: int) -> Option<(int, Described)> {
    if 0 <= next <= obj.len() {
        chained(obj.skip(next), no_front())
    } else {
        None
    }
}

/// What stands at a position, if it is a plain entry or the end of the archive.
///
/// Two blocks of zeros are the end, unless zeros are to be ignored: they are then passed over.
/// An archive may also just end.
pub open spec fn expected_at(obj: Seq<u8>, next: int, options: Options) -> Option<Found>
    decreases obj.len() - next,
{
    match plain_ahead(obj, next) {
        Some((n, d)) => match described_entry((next + n) as u64, n, d, options) {
            Ok((e, _)) => Some(Found::Entry(e)),
            Err(e) => Some(Found::Fail(Fault::Known(e))),
        },
        None => if 0 <= next && next + 1024 <= obj.len() && obj.subrange(next, next + 1024) == zeros(
            1024,
        ) {
            if options.ignore_zeros {
                expected_at(obj, next + 1024, options)
            } else {
                Some(Found::End)
            }
        } else if next == obj.len() {
            Some(Found::End)
        } else {
            None
        },
    }
}

/// What a walk comes to when a plain entry, or the end of the archive, is ahead of it.
pub open spec fn expected(obj: Seq<u8>, at: Place) -> Option<Found> {
    let w = at.walk;
    if w.done || w.raw || at.pos > w.next || w.next > obj.len() || obj.len() > u64::MAX || (w.seekable
        && w.next - at.pos > i64::MAX) {
        None
    } else {
        expected_at(obj, w.next as int, w.options)
    }
}

/// Whether the parser read all that a walk was given as plain bytes are read.
spec fn plain_along(obj: Seq<u8>, at: Place, want: int) -> bool
    decreases obj.len() - at.pos,
{
    if at.pos >= obj.len() || at.pos + want > obj.len() {
        true
    } else {
        let block = obj.subrange(at.pos, at.pos + want);
        let (walk, asked) = after_fill(at.walk, block);
        &&& at.walk.raw || at.walk.next + want > u64::MAX || reads_plainly(at.walk.buf + block)
        &&& asked matches Asked::Fill(n) ==> want > 0 ==> plain_along(
            obj,
            Place { walk, pos: at.pos + want },
            n,
        )
    }
}

/// The same of whatever the walk asks for.
spec fn plain_on(obj: Seq<u8>, at: Place, asked: Asked) -> bool {
    asked matches Asked::Fill(n) ==> plain_along(obj, at, n)
}

/// A block that announces a record or an ordinary entry is no block of zeros.
pub proof fn lemma_not_zeros(h: Seq<u8>)
    requires
        h.len() == 512,
        is_ordinary(h) || announces(h),
    ensures
        h != zeros(512),
{
    if h == zeros(512) {
        reveal(plain_number);
        assert(h[156] == 0);
        assert(h.subrange(148, 156)[0] == 0);
        assert(without_cksum(h).len() == 512);
        lemma_sum_at_least(without_cksum(h), 148);
    }
}

proof fn lemma_sum_at_least(s: Seq<u8>, k: int)
    requires
        0 <= k < s.len(),
    ensures
        byte_sum(s) >= s[k],
    decreases s.len(),
{
    lemma_sum_bound(s.drop_last());
    if k < s.len() - 1 {
        lemma_sum_at_least(s.drop_last(), k);
    }
}

/// A walk that has read what it asked for.
spec fn fed(w: Walk, block: Seq<u8>) -> Walk {
    Walk { next: (w.next + block.len()) as u64, buf: w.buf + block, ..w }
}

/// One step of a walk that is given the bytes that it asks for.
proof fn lemma_step(obj: Seq<u8>, at: Place, want: int)
    requires
        0 <= at.pos,
        0 < want,
        at.pos + want <= obj.len(),
        !at.walk.raw,
        at.walk.next + want <= u64::MAX,
        plain_along(obj, at, want),
    ensures
        ({
            let w = fed(at.walk, obj.subrange(at.pos, at.pos + want));
            let (walk, asked) = settled(w);
            let next = Place { walk, pos: at.pos + want };
            &&& reads_plainly(w.buf)
            &&& plain_on(obj, next, asked)
            &&& !(asked is Skip) ==> read_on(obj, at, want) == carried_on(obj, next, asked)
        }),
{
    let block = obj.subrange(at.pos, at.pos + want);
    assert(block.len() == want);
    assert(after_fill(at.walk, block) == settled(fed(at.walk, block)));
}

proof fn lemma_settled_need(w: Walk, n: int)
    requires
        parsed(w.buf) == Parsed::NeedData(n),
        n > w.buf.len(),
        !overflows(w.buf),
        !lone_zero_block(w.buf),
    ensures
        settled(w) == (w, Asked::Fill(n - w.buf.len())),
{
}

proof fn lemma_settled_entry(w: Walk, n: int, d: Described)
    requires
        parsed(w.buf) == Parsed::Entry(n, d),
        !overflows(w.buf),
        !lone_zero_block(w.buf),
    ensures
        settled(w).1 == match described_entry(w.next, n, d, w.options) {
            Ok((e, _)) => Asked::Entry(e),
            Err(e) => Asked::Fail(Fault::Known(e)),
        },
{
}

/// What is expected is what a walk comes to, if the parser reads plain bytes as it does.
proof fn lemma_expected(obj: Seq<u8>, at: Place)
    requires
        expected(obj, at) is Some,
        at.pos >= 0,
        reads_plainly(Seq::<u8>::empty()),
        ({
            let walk = begun(at.walk, at.pos as u64).0;
            plain_on(
                obj,
                Place { walk: after_skip(walk).0, pos: at.walk.next as int },
                after_skip(walk).1,
            )
        }),
    ensures
        look(obj, at).1 == expected(obj, at)->Some_0,
{
    let w = begun(at.walk, at.pos as u64).0;
    assert(w.buf =~= Seq::<u8>::empty());
    lemma_wanted_first(w.buf);
    lemma_no_overflow(w.buf);
    lemma_settled_need(w, 512);
    let p0 = Place { walk: w, pos: at.walk.next as int };
    assert(look(obj, at) == read_on(obj, p0, 512));
    lemma_expected_at(obj, p0);
}

/// The same for a walk that has read nothing yet of what is ahead.
#[verifier::rlimit(30)]
proof fn lemma_expected_at(obj: Seq<u8>, p0: Place)
    requires
        0 <= p0.pos <= obj.len() <= u64::MAX,
        p0.walk.next == p0.pos,
        p0.walk.buf == Seq::<u8>::empty(),
        !p0.walk.raw,
        reads_plainly(Seq::<u8>::empty()),
        plain_along(obj, p0, 512),
        expected_at(obj, p0.pos, p0.walk.options) is Some,
    ensures
        read_on(obj, p0, 512).1 == expected_at(obj, p0.pos, p0.walk.options)->Some_0,
    decreases obj.len() - p0.pos,
{
    let next = p0.pos;
    let w = p0.walk;
    if plain_ahead(obj, next) is Some {
        assert(obj.skip(next).take(0) =~= Seq::<u8>::empty());
        lemma_wanted_first(Seq::<u8>::empty());
        lemma_chain_len(obj.skip(next), no_front());
        lemma_chain(obj, p0, obj.skip(next), 0);
    } else if next < obj.len() {
        let block = obj.subrange(next, next + 512);
        assert(w.buf + block =~= block);
        lemma_step(obj, p0, 512);
        let w1 = fed(w, block);
        let p1 = Place { walk: w1, pos: next + 512 };
        assert(block =~= obj.subrange(next, next + 1024).take(512));
        assert(block =~= zeros(512));
        assert(block.take(512) =~= block);
        lemma_no_overflow(block);
        lemma_settled_need(w1, 1024);
        lemma_end_chain(obj, p1);
        if w.options.ignore_zeros {
            lemma_expected_at(obj, behind_zeros(p1));
        }
    }
}

/// A walk that has passed over two blocks of zeros, of which it had read one.
spec fn behind_zeros(p1: Place) -> Place {
    Place {
        walk: Walk { next: (p1.walk.next + 512) as u64, buf: Seq::empty(), ..p1.walk },
        pos: p1.pos + 512,
    }
}

/// The part of a walk behind the first block of zeros at the end of an archive.
proof fn lemma_end_chain(obj: Seq<u8>, p1: Place)
    requires
        0 <= p1.pos - 512,
        p1.pos + 512 <= obj.len() <= u64::MAX,
        obj.subrange(p1.pos - 512, p1.pos + 512) == zeros(1024),
        !p1.walk.raw,
        p1.walk.next == p1.pos,
        p1.walk.buf == zeros(512),
        reads_plainly(Seq::<u8>::empty()),
        plain_along(obj, p1, 512),
    ensures
        !p1.walk.options.ignore_zeros ==> read_on(obj, p1, 512).1 == Found::End,
        p1.walk.options.ignore_zeros ==> read_on(obj, p1, 512) == read_on(
            obj,
            behind_zeros(p1),
            512,
        ) && plain_along(obj, behind_zeros(p1), 512),
{
    let both = obj.subrange(p1.pos - 512, p1.pos + 512);
    let w2 = fed(p1.walk, obj.subrange(p1.pos, p1.pos + 512));
    assert(both.subrange(512, 1024) =~= obj.subrange(p1.pos, p1.pos + 512));
    assert(both.subrange(512, 1024) =~= zeros(512));
    assert(w2.buf =~= both);
    assert(both.take(1024) =~= both);
    lemma_step(obj, p1, 512);
    lemma_no_overflow(both);
    if p1.walk.options.ignore_zeros {
        let w3 = behind_zeros(p1).walk;
        assert(w2.buf.skip(1024) =~= Seq::<u8>::empty());
        lemma_wanted_first(w3.buf);
        lemma_no_overflow(w3.buf);
        lemma_settled_need(w3, 512);
        assert(settled(w2) == settled(w3));
    }
}

/// Less than a block is no entry, and a whole block is wanted.
pub proof fn lemma_wanted_first(b: Seq<u8>)
    requires
        b.len() < 512,
    ensures
        wanted(b, no_front()) == Some(512int),
        chained(b, no_front()) is None,
{
    reveal(wanted);
    reveal(chained);
}

/// A block of zeros is no entry.
pub proof fn lemma_zeros_no_entry(b: Seq<u8>)
    requires
        b.len() >= 512,
        b.take(512) == zeros(512),
    ensures
        chained(b, no_front()) is None,
{
    reveal(chained);
    if is_ordinary(b.take(512)) || announces(b.take(512)) {
        lemma_not_zeros(b.take(512));
    }
}

/// The headers of an entry are at least a block, and no more than there is.
proof fn lemma_chain_len(rest: Seq<u8>, f: Front)
    requires
        chained(rest, f) is Some,
    ensures
        512 <= chained(rest, f)->Some_0.0 <= rest.len(),
    decreases rest.len(),
{
    reveal(chained);
    let h = rest.take(512);
    if !is_ordinary(h) {
        lemma_chain_len(
            rest.skip(behind_record(rest)),
            f.with(h[156], record_at_front(rest)),
        );
    }
}

/// The first bytes of an entry ask for more of them, and its headers alone say of it what all
/// bytes say.
proof fn lemma_chain_front(rest: Seq<u8>, f: Front, k: int)
    requires
        chained(rest, f) is Some,
        0 <= k <= chained(rest, f)->Some_0.0,
    ensures
        ({
            let n = chained(rest, f)->Some_0.0;
            &&& 512 <= n <= rest.len()
            &&& k < n ==> (wanted(rest.take(k), f) matches Some(m) && k < m <= n)
            &&& k == n ==> chained(rest.take(k), f) == chained(rest, f)
            &&& !lone_zero_block(rest.take(k))
        }),
    decreases rest.len(),
{
    reveal(chained);
    reveal(wanted);
    let h = rest.take(512);
    let n = chained(rest, f)->Some_0.0;
    let b = rest.take(k);
    lemma_not_zeros(h);
    if is_ordinary(h) {
        if k == 512 {
            assert(b.take(512) =~= h);
        }
    } else {
        let at = behind_record(rest);
        let g = f.with(h[156], record_at_front(rest));
        let behind = rest.skip(at);
        lemma_chain_len(behind, g);
        lemma_chain_front(
            behind,
            g,
            if k < at {
                0
            } else {
                k - at
            },
        );
        if k >= 512 {
            assert(b.take(512) =~= h);
        }
        if k >= at {
            assert(record_at_front(b) =~= record_at_front(rest));
            assert(b.skip(at) =~= behind.take(k - at));
        }
    }
    if k >= 1024 {
        assert(b.take(512) =~= h);
    }
}

/// The part of a walk behind the first bytes of a plain entry.
proof fn lemma_chain(obj: Seq<u8>, at: Place, rest: Seq<u8>, k: int)
    requires
        0 <= at.pos - k,
        at.pos <= obj.len() <= u64::MAX,
        rest == obj.skip(at.pos - k),
        chained(rest, no_front()) is Some,
        0 <= k < chained(rest, no_front())->Some_0.0,
        !at.walk.raw,
        at.walk.next == at.pos,
        at.walk.buf == rest.take(k),
        wanted(rest.take(k), no_front()) is Some,
        plain_along(obj, at, wanted(rest.take(k), no_front())->Some_0 - k),
    ensures
        ({
            let (n, d) = chained(rest, no_front())->Some_0;
            read_on(obj, at, wanted(rest.take(k), no_front())->Some_0 - k).1
                == match described_entry((at.pos - k + n) as u64, n, d, at.walk.options) {
                Ok((e, _)) => Found::Entry(e),
                Err(e) => Found::Fail(Fault::Known(e)),
            }
        }),
    decreases chained(rest, no_front())->Some_0.0 - k,
{
    let (n, d) = chained(rest, no_front())->Some_0;
    let m = wanted(rest.take(k), no_front())->Some_0;
    let start = at.pos - k;
    lemma_chain_front(rest, no_front(), k);
    lemma_chain_front(rest, no_front(), m);
    let block = obj.subrange(at.pos, at.pos + (m - k));
    assert(at.walk.buf + block =~= rest.take(m));
    lemma_step(obj, at, m - k);
    let w = fed(at.walk, block);
    lemma_no_overflow(w.buf);
    if m < n {
        lemma_settled_need(w, wanted(rest.take(m), no_front())->Some_0);
        lemma_chain(obj, Place { walk: w, pos: start + m }, rest, m);
    } else {
        lemma_settled_entry(w, n, d);
    }
}

/// A walk always asks for at least one more byte, and for whole blocks if it is raw.
proof fn lemma_settled_more(w: Walk)
    ensures
        settled(w).1 matches Asked::Fill(n) ==> n > 0,
        !(settled(w).1 is Skip),
        settled(w).0.raw == w.raw,
    decreases w.buf.len(),
{
    match parsed(w.buf) {
        Parsed::End(n) => if 0 < n <= w.buf.len() {
            lemma_settled_more(Walk { buf: w.buf.skip(n), ..w });
        },
        Parsed::GlobalExtensions(n) => if 0 < n <= w.buf.len() {
            lemma_settled_more(Walk { buf: w.buf.skip(n), ..w });
        },
        _ => {},
    }
}

proof fn lemma_fill_more(w: Walk, block: Seq<u8>)
    ensures
        !(after_fill(w, block).1 is Skip),
        after_fill(w, block).1 matches Asked::Fill(n) ==> n > 0 && (w.raw ==> n == 512),
        after_fill(w, block).0.raw == w.raw,
{
    lemma_settled_more(
        Walk { next: (w.next + block.len()) as u64, buf: w.buf + block, ..w },
    );
}

proof fn lemma_skip_more(w: Walk)
    ensures
        !(after_skip(w).1 is Skip),
        after_skip(w).1 matches Asked::Fill(n) ==> n > 0 && (w.raw ==> n == 512),
        after_skip(w).0.raw == w.raw,
{
    lemma_settled_more(w);
}

impl<'a> Entries<'a> {
    /// Where the walk and its archive have got to.
    pub open spec fn place(self) -> Place {
        Place { walk: self.fields@, pos: *self.pos as int }
    }

    /// Sets whether extension records are entries like any other.
    ///
    /// They are not by default: what they say is made part of the entry behind them.
    pub fn raw(self, raw: bool) -> (r: Entries<'a>)
        ensures
            r.obj@ == self.obj@,
            r.place() == (Place { walk: Walk { raw, ..self.fields@ }, ..self.place() }),
            *final(r.pos) == *final(self.pos),
    {
        let mut r: Entries<'a> = self;
        r.fields.raw = raw;
        r
    }

    /// Returns the next entry.
    ///
    /// After the end of the archive, or an error, there are no more entries.
    pub fn next(&mut self) -> (r: Option<Result<Entry<'a>, TarError>>)
        ensures
            final(self).obj@ == old(self).obj@,
            *final(final(self).pos) == *final(old(self).pos),
            ({
                let (place, found) = look(old(self).obj@, old(self).place());
                &&& final(self).place() == place
                &&& is_found(r, found, rest_of(old(self).obj@, place.pos))
            }),
            expected(old(self).obj@, old(self).place()) matches Some(found) ==> look(
                old(self).obj@,
                old(self).place(),
            ).1 == found,
            r matches Some(Ok(_)) ==> old(self).place().pos < final(self).place().pos
                <= old(self).obj@.len(),
    {
        let pos: u64 = *self.pos;
        let ghost place = self.place();
        match self.fields.begin(pos) {
            Action::Skip(n) => {
                let len: u64 = self.obj.len() as u64;
                if !self.fields.seekable && (pos > len || n > len - pos) {
                    if pos < len {
                        *self.pos = len;
                    }
                    self.fields.failed();
                    return Some(Err(TarError::EofInSkip));
                }
                *self.pos = pos + n;
                let ghost walk = self.fields@;
                let action: Action = self.fields.skipped();
                proof {
                    lemma_skip_more(walk);
                    lemma_wanted_first(walk.buf);
                    lemma_no_overflow(walk.buf);
                }
                let r: Option<Result<Entry<'a>, TarError>> = self.go_on(action);
                proof {
                    if expected(old(self).obj@, place) is Some {
                        lemma_expected(old(self).obj@, place);
                    }
                }
                r
            },
            Action::Error(e) => Some(Err(e)),
            _ => None,
        }
    }

    /// Does what the walk asks for until it has got somewhere.
    fn go_on(&mut self, first: Action) -> (r: Option<Result<Entry<'a>, TarError>>)
        requires
            !(first is Skip),
            first matches Action::Fill(n) ==> n > 0 && (old(self).fields.raw ==> n == 512),
        ensures
            final(self).obj@ == old(self).obj@,
            *final(final(self).pos) == *final(old(self).pos),
            ({
                let (place, found) = carried_on(old(self).obj@, old(self).place(), first@);
                &&& final(self).place() == place
                &&& is_found(r, found, rest_of(old(self).obj@, place.pos))
            }),
            plain_on(old(self).obj@, old(self).place(), first@),
            first is Fill && (r matches Some(Ok(_))) ==> old(self).place().pos
                < final(self).place().pos <= old(self).obj@.len(),
    {
        let mut action: Action = first;
        loop
            invariant
                self.obj@ == old(self).obj@,
                *final(self.pos) == *final(old(self).pos),
                !(action is Skip),
                action matches Action::Fill(n) ==> n > 0 && (self.fields.raw ==> n == 512),
                carried_on(self.obj@, self.place(), action@) == carried_on(
                    old(self).obj@,
                    old(self).place(),
                    first@,
                ),
                plain_on(self.obj@, self.place(), action@) ==> plain_on(
                    old(self).obj@,
                    old(self).place(),
                    first@,
                ),
                old(self).place().pos <= self.place().pos,
                old(self).place().pos < self.place().pos ==> self.place().pos <= self.obj@.len(),
                first is Fill && !(action is Fill) ==> old(self).place().pos < self.place().pos,
            decreases self.obj@.len() - self.place().pos,
        {
            match action {
                Action::Fill(n) => {
                    let pos: u64 = *self.pos;
                    let len: u64 = self.obj.len() as u64;
                    if pos >= len {
                        return match self.fields.ended() {
                            Action::Error(e) => Some(Err(e)),
                            _ => None,
                        };
                    }
                    if n as u64 > len - pos {
                        *self.pos = len;
                        self.fields.failed();
                        return Some(Err(TarError::EofInBlock));
                    }
                    let block: &'a [u8] = slice_subrange(
                        self.obj,
                        pos as usize,
                        pos as usize + n,
                    );
                    proof {
                        lemma_fill_more(self.fields@, block@);
                    }
                    *self.pos = pos + n as u64;
                    action = self.fields.filled(block);
                },
                Action::Entry(fields) => {
                    let pos: u64 = *self.pos;
                    let len: usize = self.obj.len();
                    let from: usize = if pos < len as u64 {
                        pos as usize
                    } else {
                        len
                    };
                    let source: &'a [u8] = slice_subrange(self.obj, from, len);
                    assert(source@ =~= rest_of(self.obj@, pos as int));
                    return Some(Ok(fields.into_entry(source)));
                },
                Action::Error(e) => {
                    return Some(Err(e));
                },
                _ => {
                    return None;
                },
            }
        }
    }
}

} // verus!
