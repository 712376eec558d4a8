//! Writing headers and padding piece by piece, to whatever takes only some bytes at a time.

use crate::builder::{long_header, long_link_header};
use crate::error::TarError;
use crate::header::{header_path_stored, Header};
use vstd::prelude::*;
use vstd::slice::slice_subrange;

verus! {

/// The headers that an entry needs.
pub enum NeededHeaders {
    /// Its own.
    One(Header),
    /// That of a record with a long path, and its own.
    Two(Header, Header),
}

/// The headers that an entry needs, as a mathematical value.
#[verifier::ext_equal]
pub enum Needed {
    /// Its own.
    One(Seq<u8>),
    /// That of a record with a long path, and its own.
    Two(Seq<u8>, Seq<u8>),
}

impl View for NeededHeaders {
    type V = Needed;

    open spec fn view(&self) -> Needed {
        match self {
            NeededHeaders::One(h) => Needed::One(h@),
            NeededHeaders::Two(a, b) => Needed::Two(a@, b@),
        }
    }
}

/// The headers that an entry with a header and a path needs.
///
/// A path that the header cannot hold goes to a record in front of the entry, unless it is
/// short: it is then refused for another reason. The header holds the start of a long path.
pub open spec fn needed_for(h: Seq<u8>, path: Seq<u8>) -> Result<Needed, TarError> {
    let (header, result) = header_path_stored(h, path);
    match result {
        Ok(()) => Ok(Needed::One(header)),
        Err(e) => if path.len() < 100 {
            Err(e)
        } else if path.len() + 1 > u64::MAX {
            Err(TarError::ValueTooLong)
        } else {
            let (header, result) = header_path_stored(header, path.take(100));
            match result {
                Ok(()) => Ok(Needed::Two(long_header(path.len() + 1int, 76), header)),
                Err(e) => Err(e),
            }
        },
    }
}

impl NeededHeaders {
    /// Finds out what headers an entry with the given header and path needs.
    pub fn new(header: Header, path: &[u8]) -> (r: Result<NeededHeaders, TarError>)
        ensures
            match needed_for(header@, path@) {
                Ok(n) => r matches Ok(m) && m@ == n,
                Err(e) => r == Err::<NeededHeaders, TarError>(e),
            },
    {
        let mut header: Header = header;
        match header.set_path(path) {
            Ok(()) => Ok(NeededHeaders::One(header)),
            Err(e) => {
                if path.len() < 100 {
                    return Err(e);
                }
                let size: u64 = match (path.len() as u64).checked_add(1) {
                    Some(size) => size,
                    None => {
                        return Err(TarError::ValueTooLong);
                    },
                };
                let record: Header = long_link_header(size, 76);
                let start: &[u8] = slice_subrange(path, 0, 100);
                assert(start@ =~= path@.take(100));
                match header.set_path(start) {
                    Ok(()) => Ok(NeededHeaders::Two(record, header)),
                    Err(e) => Err(e),
                }
            },
        }
    }
}

/// A header that is being written.
pub struct HeaderBlockWriter {
    header: Header,
    written: usize,
}

impl HeaderBlockWriter {
    /// The bytes that are still to be written.
    pub closed spec fn left(self) -> Seq<u8> {
        self.header@.skip(self.written as int)
    }

    /// Whether no more was written than there is.
    pub closed spec fn wf(self) -> bool {
        self.written <= 512
    }

    /// Starts to write a header.
    pub fn new(header: Header) -> (r: HeaderBlockWriter)
        ensures
            r.wf(),
            r.left() == header@,
    {
        assert(header@.skip(0) =~= header@);
        HeaderBlockWriter { header, written: 0 }
    }

    /// Returns the bytes that are still to be written.
    pub fn pending(&self) -> (r: &[u8])
        requires
            self.wf(),
        ensures
            r@ == self.left(),
    {
        let r: &[u8] = slice_subrange(self.header.bytes.as_slice(), self.written, 512);
        assert(r@ =~= self.left());
        r
    }

    /// Takes note that `n` bytes were written, and returns whether that were all.
    pub fn poll(&mut self, n: usize) -> (r: bool)
        requires
            old(self).wf(),
            n <= old(self).left().len(),
        ensures
            final(self).wf(),
            final(self).left() == old(self).left().skip(n as int),
            r == (final(self).left().len() == 0),
    {
        let ghost before = self.left();
        assert(before.len() == 512 - self.written);
        self.written = self.written + n;
        assert(self.left() =~= before.skip(n as int));
        self.written == 512
    }
}

/// The headers of an entry, which are being written one behind the other.
pub struct HeaderWriter {
    first: HeaderBlockWriter,
    second: Option<HeaderBlockWriter>,
}

/// The bytes of the headers that an entry needs.
pub open spec fn needed_bytes(n: Needed) -> Seq<u8> {
    match n {
        Needed::One(h) => h,
        Needed::Two(a, b) => a + b,
    }
}

impl HeaderWriter {
    /// The bytes that are still to be written.
    pub closed spec fn left(self) -> Seq<u8> {
        self.first.left() + match self.second {
            Some(second) => second.left(),
            None => Seq::empty(),
        }
    }

    /// Whether no more was written than there is.
    pub closed spec fn wf(self) -> bool {
        self.first.wf() && (self.second matches Some(second) ==> second.wf() && (
        second.left().len() > 0 || self.first.left().len() == 0))
    }

    /// Starts to write the headers of an entry.
    pub fn new(n: NeededHeaders) -> (r: HeaderWriter)
        ensures
            r.wf(),
            r.left() == needed_bytes(n@),
    {
        let r: HeaderWriter = match n {
            NeededHeaders::One(h) => HeaderWriter {
                first: HeaderBlockWriter::new(h),
                second: None,
            },
            NeededHeaders::Two(a, b) => HeaderWriter {
                first: HeaderBlockWriter::new(a),
                second: Some(HeaderBlockWriter::new(b)),
            },
        };
        assert(r.left() =~= needed_bytes(n@));
        r
    }

    /// Returns the bytes that are to be written next: the rest of a header.
    ///
    /// There are none once all was written.
    pub fn pending(&self) -> (r: &[u8])
        requires
            self.wf(),
        ensures
            r@.len() <= self.left().len(),
            r@ == self.left().take(r@.len() as int),
            r@.len() == 0 ==> self.left().len() == 0,
    {
        let first: &[u8] = self.first.pending();
        if first.len() > 0 {
            assert(first@ =~= self.left().take(first@.len() as int));
            return first;
        }
        match &self.second {
            Some(second) => {
                let r: &[u8] = second.pending();
                assert(r@ =~= self.left().take(r@.len() as int));
                r
            },
            None => {
                assert(first@ =~= self.left().take(first@.len() as int));
                first
            },
        }
    }

    /// Takes note that `n` of the bytes that were to be written next were written.
    ///
    /// Returns whether that were all of all headers.
    pub fn poll(&mut self, n: usize) -> (r: bool)
        requires
            old(self).wf(),
            n <= old(self).pending_len(),
        ensures
            final(self).wf(),
            final(self).left() == old(self).left().skip(n as int),
            r == (final(self).left().len() == 0),
    {
        let ghost before = self.left();
        if self.first.pending().len() > 0 {
            let done: bool = self.first.poll(n);
            assert(self.left() =~= before.skip(n as int));
            done && self.second.is_none()
        } else {
            match &mut self.second {
                Some(second) => {
                    let done: bool = second.poll(n);
                    assert(self.left() =~= before.skip(n as int));
                    done
                },
                None => true,
            }
        }
    }

    /// How many bytes are to be written next.
    pub closed spec fn pending_len(self) -> nat {
        if self.first.left().len() > 0 {
            self.first.left().len()
        } else {
            self.left().len()
        }
    }
}

/// Zeros that are being written.
pub struct Pad {
    /// How many zeros are still to be written.
    pub remaining: u64,
}

impl Pad {
    /// Starts to write zeros, at most a block.
    pub fn new(length: u64) -> (r: Pad)
        ensures
            r.remaining == length,
    {
        Pad { remaining: length }
    }

    /// Takes note that `n` zeros were written, and returns whether that were all.
    pub fn poll(&mut self, n: u64) -> (r: bool)
        requires
            n <= old(self).remaining,
        ensures
            final(self).remaining == old(self).remaining - n,
            r == (final(self).remaining == 0),
    {
        self.remaining = self.remaining - n;
        self.remaining == 0
    }
}

/// Starts to write zeros behind the data of an entry, of which `written` bytes were written.
///
/// Behind whole blocks another block of zeros is written.
pub fn pad_block(written: u64) -> (r: Pad)
    ensures
        r.remaining == 512 - written % 512,
{
    Pad::new(512 - written % 512)
}

/// Starts to write a block of zeros at the end of an archive.
pub fn pad_archive() -> (r: Pad)
    ensures
        r.remaining == 512,
{
    Pad::new(512)
}

} // verus!
