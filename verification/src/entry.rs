//! Entries: what an archive says of one file, and the bytes it holds for it.

use crate::bytes::{extend_slashed, slashed};
use crate::error::TarError;
use crate::header::{header_link, header_path, Header};
use crate::path::extend;
use crate::pax::PaxExtensions;
use vstd::prelude::*;
use vstd::slice::{slice_subrange, slice_to_vec};

verus! {

/// How entries are unpacked.
#[derive(Clone, Copy, PartialEq, Eq, Debug, Structural)]
pub struct Options {
    /// The permission bits that are taken away from every file.
    pub mask: u32,
    /// Whether extended attributes are restored.
    pub unpack_xattrs: bool,
    /// Whether all mode bits are restored, and not just the permissions.
    pub preserve_permissions: bool,
    /// Whether owner and group are restored.
    pub preserve_ownerships: bool,
    /// Whether modification times are restored.
    pub preserve_mtime: bool,
    /// Whether files that exist are overwritten.
    pub overwrite: bool,
    /// Whether blocks of zeros between entries are passed over.
    pub ignore_zeros: bool,
}

/// One run of bytes of a file.
#[derive(Clone, Copy, PartialEq, Eq, Debug, Structural)]
pub enum EntryIo {
    /// So many zeros, which the archive does not hold.
    Pad(u64),
    /// So many bytes, which the archive holds.
    Data(u64),
}

/// What an archive says of one file.
pub struct EntryFields {
    /// The path, if the header has no room for it.
    pub long_pathname: Option<Vec<u8>>,
    /// The link name, if the header has no room for it.
    pub long_linkname: Option<Vec<u8>>,
    /// The data of the pax extensions that belong to the entry.
    pub pax_extensions: Option<Vec<u8>>,
    /// The header.
    pub header: Header,
    /// The size of the file.
    pub size: u64,
    /// Where the headers of the entry start in the archive.
    pub header_pos: u64,
    /// Where the data of the entry starts in the archive.
    pub file_pos: u64,
    /// The runs of bytes that are still to be read.
    pub data: Vec<EntryIo>,
    /// How the entry is unpacked.
    pub options: Options,
}

/// What an archive says of one file, as a mathematical value.
#[verifier::ext_equal]
pub struct EntryView {
    /// The path, if the header has no room for it.
    pub long_pathname: Option<Seq<u8>>,
    /// The link name, if the header has no room for it.
    pub long_linkname: Option<Seq<u8>>,
    /// The data of the pax extensions that belong to the entry.
    pub pax_extensions: Option<Seq<u8>>,
    /// The header.
    pub header: Seq<u8>,
    /// The size of the file.
    pub size: u64,
    /// Where the headers of the entry start in the archive.
    pub header_pos: u64,
    /// Where the data of the entry starts in the archive.
    pub file_pos: u64,
    /// The runs of bytes that are still to be read.
    pub data: Seq<EntryIo>,
    /// How the entry is unpacked.
    pub options: Options,
}

/// The view of optional bytes.
pub open spec fn optional(v: Option<Vec<u8>>) -> Option<Seq<u8>> {
    match v {
        Some(b) => Some(b@),
        None => None,
    }
}

impl View for EntryFields {
    type V = EntryView;

    open spec fn view(&self) -> EntryView {
        EntryView {
            long_pathname: optional(self.long_pathname),
            long_linkname: optional(self.long_linkname),
            pax_extensions: optional(self.pax_extensions),
            header: self.header@,
            size: self.size,
            header_pos: self.header_pos,
            file_pos: self.file_pos,
            data: self.data@,
            options: self.options,
        }
    }
}

/// Bytes without the nul at their end, if there is one.
pub open spec fn without_nul(b: Seq<u8>) -> Seq<u8> {
    if b.len() > 0 && b.last() == 0 {
        b.drop_last()
    } else {
        b
    }
}

/// Cuts one nul from the end of some bytes.
fn strip_nul(b: &[u8]) -> (r: &[u8])
    ensures
        r@ == without_nul(b@),
{
    if b.len() > 0 && b[b.len() - 1] == 0 {
        let r: &[u8] = slice_subrange(b, 0, b.len() - 1);
        assert(r@ =~= b@.drop_last());
        r
    } else {
        b
    }
}

impl EntryView {
    /// The path of the entry. Backslashes are read as slashes.
    pub open spec fn path(self) -> Seq<u8> {
        match self.long_pathname {
            Some(b) => slashed(without_nul(b)),
            None => header_path(self.header),
        }
    }

    /// The link name of the entry, if there is one. Only backslashes in the header are read as
    /// slashes.
    pub open spec fn link_bytes(self) -> Option<Seq<u8>> {
        match self.long_linkname {
            Some(b) => Some(without_nul(b)),
            None => header_link(self.header),
        }
    }

    /// The link name of the entry, if there is one. Backslashes are read as slashes.
    pub open spec fn link(self) -> Option<Seq<u8>> {
        match self.long_linkname {
            Some(b) => Some(slashed(without_nul(b))),
            None => header_link(self.header),
        }
    }

    /// Whether the entry is itself a list of extensions.
    pub open spec fn is_extensions(self) -> bool {
        self.header[156] == 103 || self.header[156] == 120
    }

    /// What the entry is once its extensions were asked for, with the data that is read.
    pub open spec fn with_extensions(self, data: Seq<u8>) -> EntryView {
        if self.pax_extensions is None && self.is_extensions() {
            EntryView { pax_extensions: Some(data), data: Seq::empty(), ..self }
        } else {
            self
        }
    }
}

/// The smaller of two numbers.
pub open spec fn least(a: int, b: int) -> int {
    if a < b {
        a
    } else {
        b
    }
}

/// A run of zeros.
pub open spec fn zeros(n: int) -> Seq<u8> {
    Seq::new(n as nat, |k: int| 0u8)
}

/// The bytes of a file that is made of some runs, when the archive holds `source` for it.
///
/// A run is cut short where the archive ends.
pub open spec fn content(data: Seq<EntryIo>, source: Seq<u8>) -> Seq<u8>
    decreases data.len(),
{
    if data.len() == 0 {
        Seq::empty()
    } else {
        match data[0] {
            EntryIo::Pad(n) => zeros(n as int) + content(data.skip(1), source),
            EntryIo::Data(n) => {
                let k = least(n as int, source.len() as int);
                source.take(k) + content(data.skip(1), source.skip(k))
            },
        }
    }
}

/// Whether the archive holds all bytes of a file that is made of some runs.
pub open spec fn is_complete(data: Seq<EntryIo>, source: Seq<u8>) -> bool
    decreases data.len(),
{
    if data.len() == 0 {
        true
    } else {
        match data[0] {
            EntryIo::Pad(n) => is_complete(data.skip(1), source),
            EntryIo::Data(n) => n <= source.len() && is_complete(
                data.skip(1),
                source.skip(n as int),
            ),
        }
    }
}

/// What one read gives, and what it leaves to be read.
pub struct ReadStep {
    /// The bytes.
    pub bytes: Seq<u8>,
    /// The runs that are left.
    pub data: Seq<EntryIo>,
    /// What is left of the archive.
    pub source: Seq<u8>,
}

/// What a read into a buffer of `room` bytes gives: as much of the first run as has room.
///
/// A run that gives nothing is dropped, and the next one is tried.
pub open spec fn read_step(data: Seq<EntryIo>, source: Seq<u8>, room: int) -> ReadStep
    decreases data.len(),
{
    if data.len() == 0 {
        ReadStep { bytes: Seq::empty(), data, source }
    } else {
        match data[0] {
            EntryIo::Pad(n) => {
                let k = least(n as int, room);
                if k == 0 {
                    read_step(data.skip(1), source, room)
                } else {
                    ReadStep {
                        bytes: zeros(k),
                        data: data.update(0, EntryIo::Pad((n - k) as u64)),
                        source,
                    }
                }
            },
            EntryIo::Data(n) => {
                let k = least(least(n as int, room), source.len() as int);
                if k == 0 {
                    read_step(data.skip(1), source, room)
                } else {
                    ReadStep {
                        bytes: source.take(k),
                        data: data.update(0, EntryIo::Data((n - k) as u64)),
                        source: source.skip(k),
                    }
                }
            },
        }
    }
}

pub(crate) proof fn lemma_content_pad(data: Seq<EntryIo>, source: Seq<u8>, n: u64, k: int)
    requires
        data.len() > 0,
        data[0] == EntryIo::Pad(n),
        0 <= k <= n,
    ensures
        zeros(k) + content(data.update(0, EntryIo::Pad((n - k) as u64)), source) == content(
            data,
            source,
        ),
{
    let after = data.update(0, EntryIo::Pad((n - k) as u64));
    assert(after.skip(1) =~= data.skip(1));
    let rest = content(data.skip(1), source);
    assert(zeros(k) + (zeros(n - k) + rest) =~= zeros(n as int) + rest);
}

pub(crate) proof fn lemma_content_data(data: Seq<EntryIo>, source: Seq<u8>, n: u64, k: int)
    requires
        data.len() > 0,
        data[0] == EntryIo::Data(n),
        0 <= k <= n,
        k <= source.len(),
    ensures
        source.take(k) + content(
            data.update(0, EntryIo::Data((n - k) as u64)),
            source.skip(k),
        ) == content(data, source),
{
    let after = data.update(0, EntryIo::Data((n - k) as u64));
    assert(after.skip(1) =~= data.skip(1));
    let all = least(n as int, source.len() as int);
    let left = source.skip(k);
    assert(left.skip(all - k) =~= source.skip(all));
    let rest = content(data.skip(1), source.skip(all));
    assert(source.take(k) + (left.take(all - k) + rest) =~= source.take(all) + rest);
}

/// Reading with any buffer that is not empty gives the bytes of the file, bit by bit: what a
/// read gives and what is left to be read make up what there was to be read.
pub proof fn law_read_in_order(data: Seq<EntryIo>, source: Seq<u8>, room: int)
    requires
        room > 0,
    ensures
        ({
            let step = read_step(data, source, room);
            &&& step.bytes + content(step.data, step.source) == content(data, source)
            &&& step.bytes.len() <= room
            &&& step.bytes.len() == 0 ==> content(data, source).len() == 0
        }),
    decreases data.len(),
{
    if data.len() == 0 {
        assert(Seq::<u8>::empty() + content(data, source) =~= content(data, source));
    } else {
        match data[0] {
            EntryIo::Pad(n) => {
                let k = least(n as int, room);
                if k == 0 {
                    law_read_in_order(data.skip(1), source, room);
                    assert(zeros(0) + content(data.skip(1), source) =~= content(
                        data.skip(1),
                        source,
                    ));
                } else {
                    lemma_content_pad(data, source, n, k);
                }
            },
            EntryIo::Data(n) => {
                let k = least(least(n as int, room), source.len() as int);
                if k == 0 {
                    law_read_in_order(data.skip(1), source, room);
                    assert(source.skip(0) =~= source);
                    assert(source.take(0) + content(data.skip(1), source) =~= content(
                        data.skip(1),
                        source,
                    ));
                } else {
                    lemma_content_data(data, source, n, k);
                }
            },
        }
    }
}

/// What is read next of a file.
#[derive(Clone, Copy, PartialEq, Eq, Debug, Structural)]
pub enum Run {
    /// Nothing: the file has ended.
    End,
    /// So many zeros, which the archive does not hold.
    Zeros(usize),
    /// At most so many bytes, from where the archive stands.
    Bytes(usize),
}

/// Runs without those at their front of which nothing fits in a buffer of `room` bytes.
pub open spec fn front(data: Seq<EntryIo>, room: int) -> Seq<EntryIo>
    decreases data.len(),
{
    if data.len() == 0 {
        data
    } else {
        let n = match data[0] {
            EntryIo::Pad(n) => n,
            EntryIo::Data(n) => n,
        };
        if least(n as int, room) == 0 {
            front(data.skip(1), room)
        } else {
            data
        }
    }
}

/// What is read next of some runs into a buffer of `room` bytes.
pub open spec fn next_run(data: Seq<EntryIo>, room: int) -> Run {
    if data.len() == 0 {
        Run::End
    } else {
        match data[0] {
            EntryIo::Pad(n) => Run::Zeros(least(n as int, room) as usize),
            EntryIo::Data(n) => Run::Bytes(least(n as int, room) as usize),
        }
    }
}

/// Runs once `k` bytes of the first one were read. It is given up if there were none.
pub open spec fn taken(data: Seq<EntryIo>, k: int) -> Seq<EntryIo> {
    if k == 0 {
        data.skip(1)
    } else {
        match data[0] {
            EntryIo::Pad(n) => data.update(0, EntryIo::Pad((n - k) as u64)),
            EntryIo::Data(n) => data.update(0, EntryIo::Data((n - k) as u64)),
        }
    }
}

/// A read takes what comes next of the runs.
proof fn lemma_front_step(data: Seq<EntryIo>, source: Seq<u8>, room: int)
    requires
        room >= 0,
    ensures
        front(data, room).len() <= data.len(),
        read_step(data, source, room) == read_step(front(data, room), source, room),
        front(data, room).len() > 0 ==> match front(data, room)[0] {
            EntryIo::Pad(n) => n > 0 && room > 0,
            EntryIo::Data(n) => n > 0 && room > 0,
        },
    decreases data.len(),
{
    if data.len() > 0 {
        lemma_front_step(data.skip(1), source, room);
    }
}

impl EntryFields {
    /// Finds out what is read next of the file into a buffer of `room` bytes.
    ///
    /// Runs of which nothing fits are given up.
    pub fn run(&mut self, room: usize) -> (r: Run)
        ensures
            final(self)@ == (EntryView {
                data: front(old(self).data@, room as int),
                ..old(self)@
            }),
            r == next_run(final(self).data@, room as int),
    {
        let ghost goal = front(self.data@, room as int);
        let ghost entry = self@;
        while self.data.len() > 0
            invariant
                front(self.data@, room as int) == goal,
                goal == front(old(self).data@, room as int),
                entry == old(self)@,
                self@ == (EntryView { data: self.data@, ..entry }),
            decreases self.data@.len(),
        {
            let ghost list = self.data@;
            let (n, is_pad): (u64, bool) = match self.data[0] {
                EntryIo::Pad(n) => (n, true),
                EntryIo::Data(n) => (n, false),
            };
            let k: usize = if n < room as u64 {
                n as usize
            } else {
                room
            };
            if k > 0 {
                return if is_pad {
                    Run::Zeros(k)
                } else {
                    Run::Bytes(k)
                };
            }
            let _: EntryIo = self.data.remove(0);
            assert(self.data@ =~= list.skip(1));
        }
        Run::End
    }

    /// Takes note that `k` bytes of the first run were read.
    ///
    /// The run is given up if there were none: the archive has ended.
    pub fn took(&mut self, k: usize)
        requires
            old(self).data@.len() > 0,
            match old(self).data@[0] {
                EntryIo::Pad(n) => k <= n,
                EntryIo::Data(n) => k <= n,
            },
        ensures
            final(self)@ == (EntryView { data: taken(old(self).data@, k as int), ..old(self)@ }),
    {
        let ghost list = self.data@;
        if k == 0 {
            let _: EntryIo = self.data.remove(0);
            assert(self.data@ =~= list.skip(1));
        } else {
            match self.data[0] {
                EntryIo::Pad(n) => {
                    self.data.set(0, EntryIo::Pad(n - k as u64));
                },
                EntryIo::Data(n) => {
                    self.data.set(0, EntryIo::Data(n - k as u64));
                },
            }
        }
    }
}

/// What is left of the archive once a file that is made of some runs was read.
pub open spec fn left_over(data: Seq<EntryIo>, source: Seq<u8>) -> Seq<u8>
    decreases data.len(),
{
    if data.len() == 0 {
        source
    } else {
        match data[0] {
            EntryIo::Pad(n) => left_over(data.skip(1), source),
            EntryIo::Data(n) => left_over(
                data.skip(1),
                source.skip(least(n as int, source.len() as int)),
            ),
        }
    }
}

/// An entry of an archive, with the bytes that the archive holds from its data on.
///
/// An entry is a handle on its data: what was read once is not read again.
pub struct Entry<'a> {
    /// What the archive says of the entry.
    pub fields: EntryFields,
    /// The archive from where the next byte of data stands.
    pub source: &'a [u8],
}

impl EntryFields {
    /// Takes what the archive says of an entry out of it.
    pub fn from(entry: Entry<'_>) -> (r: EntryFields)
        ensures
            r == entry.fields,
    {
        entry.fields
    }

    /// Makes an entry whose data stands in `source`.
    pub fn into_entry<'a>(self, source: &'a [u8]) -> (r: Entry<'a>)
        ensures
            r.fields == self,
            r.source@ == source@,
    {
        Entry { fields: self, source }
    }

    /// Returns the path of the entry.
    pub fn path_bytes(&self) -> (r: Vec<u8>)
        ensures
            r@ == self@.path(),
    {
        match &self.long_pathname {
            Some(bytes) => {
                let mut r: Vec<u8> = Vec::new();
                extend_slashed(&mut r, strip_nul(bytes.as_slice()));
                assert(r@ =~= slashed(without_nul(bytes@)));
                r
            },
            None => self.header.path_bytes(),
        }
    }

    /// Returns the link name of the entry, if there is one.
    pub fn link_name_bytes(&self) -> (r: Option<Vec<u8>>)
        ensures
            optional(r) == self@.link_bytes(),
    {
        match &self.long_linkname {
            Some(bytes) => Some(slice_to_vec(strip_nul(bytes.as_slice()))),
            None => self.header.link_name_bytes(),
        }
    }

    /// Returns the link name of the entry, with slashes for backslashes.
    pub fn link_name(&self) -> (r: Option<Vec<u8>>)
        ensures
            optional(r) == self@.link(),
    {
        match &self.long_linkname {
            Some(bytes) => {
                let mut r: Vec<u8> = Vec::new();
                extend_slashed(&mut r, strip_nul(bytes.as_slice()));
                assert(r@ =~= slashed(without_nul(bytes@)));
                Some(r)
            },
            None => self.header.link_name_bytes(),
        }
    }
}

/// Appends a run of zeros.
pub(crate) fn extend_zeros(v: &mut Vec<u8>, n: u64)
    ensures
        final(v)@ == old(v)@ + zeros(n as int),
{
    let ghost before = v@;
    let mut i: u64 = 0;
    while i < n
        invariant
            i <= n,
            v@ =~= before + zeros(i as int),
        decreases n - i,
    {
        v.push(0);
        i = i + 1;
    }
}

/// Copies bytes to the front of a buffer.
fn fill_front(into: &mut [u8], bytes: &[u8])
    requires
        bytes@.len() <= old(into)@.len(),
    ensures
        final(into)@ == bytes@ + old(into)@.skip(bytes@.len() as int),
{
    let ghost before = into@;
    let mut i: usize = 0;
    while i < bytes.len()
        invariant
            i <= bytes@.len() <= into@.len(),
            into@ =~= bytes@.take(i as int) + before.skip(i as int),
            before.len() == into@.len(),
        decreases bytes@.len() - i,
    {
        into[i] = bytes[i];
        i = i + 1;
    }
    assert(bytes@.take(i as int) =~= bytes@);
}

/// Fills the front of a buffer with zeros.
fn zero_front(into: &mut [u8], n: usize)
    requires
        n <= old(into)@.len(),
    ensures
        final(into)@ == zeros(n as int) + old(into)@.skip(n as int),
{
    let ghost before = into@;
    let mut i: usize = 0;
    while i < n
        invariant
            i <= n <= into@.len(),
            into@ =~= zeros(i as int) + before.skip(i as int),
            before.len() == into@.len(),
        decreases n - i,
    {
        into[i] = 0;
        i = i + 1;
    }
}

impl<'a> Entry<'a> {
    /// Returns the path of this entry, with slashes for backslashes.
    ///
    /// The path of the header is not always the whole path: some formats store long paths
    /// in entries of their own.
    pub fn path(&self) -> (r: Result<Vec<u8>, TarError>)
        ensures
            r matches Ok(p) && p@ == self.fields@.path(),
    {
        Ok(self.fields.path_bytes())
    }

    /// Returns the path of this entry, with slashes for backslashes.
    pub fn path_bytes(&self) -> (r: Vec<u8>)
        ensures
            r@ == self.fields@.path(),
    {
        self.fields.path_bytes()
    }

    /// Returns the link name of this entry, if there is one, with slashes for backslashes.
    pub fn link_name(&self) -> (r: Result<Option<Vec<u8>>, TarError>)
        ensures
            r matches Ok(link) && optional(link) == self.fields@.link(),
    {
        Ok(self.fields.link_name())
    }

    /// Returns the link name of this entry, if there is one.
    pub fn link_name_bytes(&self) -> (r: Option<Vec<u8>>)
        ensures
            optional(r) == self.fields@.link_bytes(),
    {
        self.fields.link_name_bytes()
    }

    /// Returns the header of this entry.
    pub fn header(&self) -> (r: &Header)
        ensures
            *r == self.fields.header,
    {
        &self.fields.header
    }

    /// Sets whether extended attributes are restored when this entry is unpacked.
    pub fn set_unpack_xattrs(&mut self, unpack_xattrs: bool)
        ensures
            final(self).source@ == old(self).source@,
            final(self).fields@ == (EntryView {
                options: Options { unpack_xattrs, ..old(self).fields.options },
                ..old(self).fields@
            }),
    {
        self.fields.options.unpack_xattrs = unpack_xattrs;
    }

    /// Sets whether all mode bits are restored when this entry is unpacked.
    pub fn set_preserve_permissions(&mut self, preserve: bool)
        ensures
            final(self).source@ == old(self).source@,
            final(self).fields@ == (EntryView {
                options: Options { preserve_permissions: preserve, ..old(self).fields.options },
                ..old(self).fields@
            }),
    {
        self.fields.options.preserve_permissions = preserve;
    }

    /// Reads some bytes of the file, at most as many as the buffer has room for.
    ///
    /// A read into an empty buffer gives up all that is left.
    pub fn read(&mut self, into: &mut [u8]) -> (r: Result<usize, TarError>)
        ensures
            ({
                let step = read_step(
                    old(self).fields.data@,
                    old(self).source@,
                    old(into)@.len() as int,
                );
                &&& r matches Ok(n) && n == step.bytes.len()
                &&& final(into)@ == step.bytes + old(into)@.skip(step.bytes.len() as int)
                &&& final(self).source@ == step.source
                &&& final(self).fields@ == (EntryView { data: step.data, ..old(self).fields@ })
            }),
    {
        let ghost before = into@;
        let ghost entry = self.fields@;
        let ghost start = self.source@;
        let ghost goal = read_step(self.fields.data@, self.source@, into@.len() as int);
        let room: usize = into.len();
        loop
            invariant
                room == into@.len(),
                into@ == before,
                self.source@ == start,
                self.fields@ == (EntryView { data: self.fields.data@, ..entry }),
                goal == read_step(self.fields.data@, start, room as int),
                entry == old(self).fields@,
                start == old(self).source@,
                before == old(into)@,
                goal == read_step(old(self).fields.data@, start, room as int),
            decreases self.fields.data@.len(),
        {
            let ghost list = self.fields.data@;
            proof {
                lemma_front_step(list, start, room as int);
            }
            match self.fields.run(room) {
                Run::End => {
                    assert(before.skip(0) =~= before);
                    assert(Seq::<u8>::empty() + before =~= before);
                    return Ok(0);
                },
                Run::Zeros(k) => {
                    zero_front(into, k);
                    self.fields.took(k);
                    return Ok(k);
                },
                Run::Bytes(most) => {
                    let source: &'a [u8] = self.source;
                    let k: usize = if most < source.len() {
                        most
                    } else {
                        source.len()
                    };
                    self.fields.took(k);
                    if k > 0 {
                        let bytes: &'a [u8] = slice_subrange(source, 0, k);
                        fill_front(into, bytes);
                        self.source = slice_subrange(source, k, source.len());
                        assert(bytes@ =~= start.take(k as int));
                        assert(self.source@ =~= start.skip(k as int));
                        return Ok(k);
                    }
                },
            }
        }
    }

    /// Reads all that is left of the file.
    pub fn read_all(&mut self) -> (r: Result<Vec<u8>, TarError>)
        ensures
            r matches Ok(v) && v@ == content(old(self).fields.data@, old(self).source@),
            final(self).source@ == left_over(old(self).fields.data@, old(self).source@),
            final(self).fields@ == (EntryView { data: Seq::empty(), ..old(self).fields@ }),
    {
        let ghost entry = self.fields@;
        let ghost whole = content(self.fields.data@, self.source@);
        let ghost over = left_over(self.fields.data@, self.source@);
        let mut r: Vec<u8> = Vec::new();
        assert(r@ + whole =~= whole);
        while self.fields.data.len() > 0
            invariant
                self.fields@ == (EntryView { data: self.fields.data@, ..entry }),
                r@ + content(self.fields.data@, self.source@) == whole,
                left_over(self.fields.data@, self.source@) == over,
            decreases self.fields.data@.len(),
        {
            let ghost list = self.fields.data@;
            let ghost done = r@;
            let ghost start = self.source@;
            match self.fields.data[0] {
                EntryIo::Pad(n) => {
                    extend_zeros(&mut r, n);
                    assert(done + (zeros(n as int) + content(list.skip(1), start)) =~= (done
                        + zeros(n as int)) + content(list.skip(1), start));
                },
                EntryIo::Data(n) => {
                    let source: &'a [u8] = self.source;
                    let k: usize = if n < source.len() as u64 {
                        n as usize
                    } else {
                        source.len()
                    };
                    extend(&mut r, slice_subrange(source, 0, k));
                    self.source = slice_subrange(source, k, source.len());
                    assert(source@.subrange(0, k as int) =~= start.take(k as int));
                    assert(self.source@ =~= start.skip(k as int));
                    let ghost rest = content(list.skip(1), self.source@);
                    assert(done + (start.take(k as int) + rest) =~= (done + start.take(k as int))
                        + rest);
                },
            }
            let _: EntryIo = self.fields.data.remove(0);
            assert(self.fields.data@ =~= list.skip(1));
        }
        assert(r@ =~= whole);
        assert(self.fields.data@ =~= Seq::empty());
        Ok(r)
    }

    /// Returns the pax extensions of this entry.
    ///
    /// There are none unless extensions stood in front of the entry, or the entry itself is a
    /// list of them: it is then read to its end. Otherwise nothing is read.
    pub fn pax_extensions(&mut self) -> (r: Result<Option<PaxExtensions<'_>>, TarError>)
        ensures
            final(self).fields@ == old(self).fields@.with_extensions(
                content(old(self).fields.data@, old(self).source@),
            ),
            final(self).source@ == if old(self).fields@.pax_extensions is None
                && old(self).fields@.is_extensions() {
                left_over(old(self).fields.data@, old(self).source@)
            } else {
                old(self).source@
            },
            match final(self).fields@.pax_extensions {
                Some(data) => r matches Ok(Some(list)) && list@ == Some(data),
                None => r matches Ok(None),
            },
    {
        if self.fields.pax_extensions.is_none() {
            let kind: crate::entry_type::EntryType = self.fields.header.entry_type();
            if !kind.is_pax_global_extensions() && !kind.is_pax_local_extensions() {
                return Ok(None);
            }
            let data: Vec<u8> = self.read_all()?;
            self.fields.pax_extensions = Some(data);
        }
        match &self.fields.pax_extensions {
            Some(data) => Ok(Some(PaxExtensions::new(data.as_slice()))),
            None => Ok(None),
        }
    }
}

} // verus!
