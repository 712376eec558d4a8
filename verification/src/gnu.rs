//! Entries whose path stands in a GNU long name entry of its own.

use crate::archive::{look, rest_of, Entries, Found, Place};
use crate::entry::{content, optional, read_step, Entry, EntryView};
use crate::error::{Fault, TarError};
use crate::header::{header_path, Header};
use crate::unpack::{acted, is_acted, is_spent, Acted, UnpackAction};
use vstd::prelude::*;
use vstd::slice::slice_to_vec;

verus! {

/// The entries of an archive, each with the name in the long name entry before it.
pub struct GnuEntries<'a> {
    /// The entries of the archive, long name entries among them.
    pub inner: Entries<'a>,
}

/// An entry, with its name if that stood in a long name entry.
pub struct GnuEntry<'a> {
    /// The entry.
    pub inner: Entry<'a>,
    /// The name.
    pub name: Option<Vec<u8>>,
}

/// What comes next among entries with their names.
#[verifier::ext_equal]
pub enum Named {
    /// An entry, and its name if that stood in a long name entry.
    Entry(EntryView, Option<Seq<u8>>),
    /// The end of the archive.
    End,
    /// The archive cannot be read any further.
    Fail(Fault),
}

/// What comes next among entries with their names, and where the archive then stands.
///
/// A long name entry is read, and what it holds is the name of the entry behind it.
pub open spec fn look_named(obj: Seq<u8>, at: Place) -> (Place, Named) {
    let (first, found) = look(obj, at);
    match found {
        Found::End => (first, Named::End),
        Found::Fail(f) => (first, Named::Fail(f)),
        Found::Entry(e) => if e.header[156] != 76 {
            (first, Named::Entry(e, None))
        } else {
            let name = content(e.data, rest_of(obj, first.pos));
            let (second, found) = look(obj, first);
            match found {
                Found::End => (second, Named::Fail(Fault::Known(TarError::LongnameNotFollowed))),
                Found::Fail(f) => (second, Named::Fail(f)),
                Found::Entry(e) => (second, Named::Entry(e, Some(name))),
            }
        },
    }
}

/// Whether a result is what comes next, when `source` is left of the archive.
pub open spec fn is_named(
    r: Option<Result<GnuEntry<'_>, TarError>>,
    named: Named,
    source: Seq<u8>,
) -> bool {
    match named {
        Named::Entry(e, name) => r matches Some(Ok(entry)) && entry.inner.fields@ == e
            && entry.inner.source@ == source && optional(entry.name) == name,
        Named::End => r is None,
        Named::Fail(f) => r matches Some(Err(e)) && e@ == f,
    }
}

impl<'a> GnuEntries<'a> {
    /// Starts to go through entries, of which long name entries must be some.
    pub fn new(i: Entries<'a>) -> (r: GnuEntries<'a>)
        ensures
            r.inner == i,
    {
        GnuEntries { inner: i }
    }

    /// Returns the next entry, with its name.
    ///
    /// Fails if a long name entry is the last one.
    pub fn next(&mut self) -> (r: Option<Result<GnuEntry<'a>, TarError>>)
        ensures
            final(self).inner.obj@ == old(self).inner.obj@,
            *final(final(self).inner.pos) == *final(old(self).inner.pos),
            ({
                let (place, named) = look_named(old(self).inner.obj@, old(self).inner.place());
                &&& final(self).inner.place() == place
                &&& is_named(r, named, rest_of(old(self).inner.obj@, place.pos))
            }),
    {
        let mut entry: Entry<'a> = match self.inner.next() {
            Some(Ok(e)) => e,
            Some(Err(e)) => {
                return Some(Err(e));
            },
            None => {
                return None;
            },
        };
        if !entry.header().entry_type().is_gnu_longname() {
            return Some(Ok(GnuEntry { inner: entry, name: None }));
        }
        let filename: Vec<u8> = match entry.read_all() {
            Ok(bytes) => bytes,
            Err(e) => {
                return Some(Err(e));
            },
        };
        match self.inner.next() {
            Some(Ok(e)) => Some(Ok(GnuEntry { inner: e, name: Some(filename) })),
            Some(Err(e)) => Some(Err(e)),
            None => Some(Err(TarError::LongnameNotFollowed)),
        }
    }
}

impl<'a> GnuEntry<'a> {
    /// The path of the entry: its name, or else the path in the header.
    pub open spec fn gnu_path(self) -> Seq<u8> {
        match self.name {
            Some(bytes) => bytes@,
            None => header_path(self.inner.fields.header@),
        }
    }

    /// Returns the header of this entry.
    pub fn header(&self) -> (r: &Header)
        ensures
            *r == self.inner.fields.header,
    {
        self.inner.header()
    }

    /// Finds out what is to be done for this entry when it is put at `dst`.
    pub fn unpack(&mut self, dst: &[u8]) -> (r: Result<UnpackAction, TarError>)
        ensures
            final(self).name == old(self).name,
            is_acted(r, acted(old(self).inner.fields@, old(self).inner.source@, dst@, None)),
            is_spent(
                final(self).inner,
                old(self).inner.fields@,
                old(self).inner.source@,
                match r {
                    Ok(action) => action@,
                    Err(_) => Acted::Nothing,
                },
            ),
    {
        self.inner.unpack(dst)
    }

    /// Returns the path of this entry.
    pub fn path(&self) -> (r: Result<Vec<u8>, TarError>)
        ensures
            r matches Ok(p) && p@ == self.gnu_path(),
    {
        Ok(self.path_bytes())
    }

    /// Returns the path of this entry.
    pub fn path_bytes(&self) -> (r: Vec<u8>)
        ensures
            r@ == self.gnu_path(),
    {
        match &self.name {
            Some(bytes) => slice_to_vec(bytes.as_slice()),
            None => self.inner.header().path_bytes(),
        }
    }

    /// Reads some bytes of the file, at most as many as the buffer has room for.
    pub fn read(&mut self, into: &mut [u8]) -> (r: Result<usize, TarError>)
        ensures
            final(self).name == old(self).name,
            ({
                let step = read_step(
                    old(self).inner.fields.data@,
                    old(self).inner.source@,
                    old(into)@.len() as int,
                );
                &&& r matches Ok(n) && n == step.bytes.len()
                &&& final(into)@ == step.bytes + old(into)@.skip(step.bytes.len() as int)
                &&& final(self).inner.source@ == step.source
                &&& final(self).inner.fields@ == (EntryView {
                    data: step.data,
                    ..old(self).inner.fields@
                })
            }),
    {
        self.inner.read(into)
    }
}

} // verus!
