//! Archives that are written.

use crate::bytes::with_field;
use crate::entry::{extend_zeros, zeros};
use crate::entry_type::EntryType;
use crate::error::TarError;
use crate::header::{
    blank_gnu, blank_ustar, header_path_stored, with_cksum, with_metadata, with_octal, Header,
    HeaderMode, Metadata, S_IFDIR, S_IFMT, S_IFREG,
};
use crate::parser::padded;
use crate::path::{components, extend, join, joined, parts, span_parts, Span};
use crate::pax::{all_records, push_record};
use vstd::prelude::*;
use vstd::slice::{slice_subrange, slice_to_vec};
use vstd::utf8::encode_utf8;

verus! {

/// An archive with one more entry: its header, its data, and zeros up to a whole block.
pub open spec fn appended(out: Seq<u8>, header: Seq<u8>, data: Seq<u8>) -> Seq<u8> {
    out + header + data + zeros(padded(data.len() as int) - data.len())
}

/// The name of a record that holds a long path.
pub open spec fn long_link_name() -> Seq<u8> {
    seq![
        46u8, 47u8, 46u8, 47u8, 64u8, 76u8, 111u8, 110u8, 103u8, 76u8, 105u8, 110u8, 107u8,
    ]
}

/// The header of a record of `size` bytes that holds a long path or link name.
pub open spec fn long_header(size: int, kind: u8) -> Seq<u8> {
    let h = with_field(blank_gnu(), 0, long_link_name());
    let h = with_octal(h, 100, 108, 0o644);
    let h = with_octal(h, 108, 116, 0);
    let h = with_octal(h, 116, 124, 0);
    let h = with_octal(h, 136, 148, 0);
    let h = with_octal(h, 124, 136, size);
    with_cksum(with_field(h, 156, seq![kind]))
}

/// What preparing a header for a path makes of an archive and of the header.
pub struct Prepared {
    /// The archive.
    pub out: Seq<u8>,
    /// The header.
    pub header: Seq<u8>,
    /// The outcome.
    pub result: Result<(), TarError>,
}

/// An archive and a header after a path was set.
///
/// A path that the header cannot hold goes to a record in front of the entry, unless it is
/// short: it is then refused for another reason. The record holds the path and a nul, and the
/// header the start of the path.
pub open spec fn prepared(out: Seq<u8>, h: Seq<u8>, path: Seq<u8>) -> Prepared {
    let (header, result) = header_path_stored(h, path);
    if result is Ok || path.len() < 100 {
        Prepared { out, header, result }
    } else if path.len() + 1 > u64::MAX {
        Prepared { out, header, result: Err(TarError::ValueTooLong) }
    } else {
        let (header, result) = header_path_stored(header, path.take(100));
        Prepared {
            out: appended(out, long_header(path.len() + 1int, 76), path.push(0u8)),
            header,
            result,
        }
    }
}

/// An archive after a file was added to it, and the outcome.
pub open spec fn file_added(
    out: Seq<u8>,
    path: Seq<u8>,
    meta: Metadata,
    data: Seq<u8>,
    mode: HeaderMode,
) -> (Seq<u8>, Result<(), TarError>) {
    let p = prepared(out, blank_gnu(), path);
    if p.result is Ok {
        (appended(p.out, with_cksum(with_metadata(p.header, meta, mode)), data), Ok(()))
    } else {
        (p.out, p.result)
    }
}

/// Appends an entry: its header, its data, and zeros up to a whole block.
pub(crate) fn append(dst: &mut Vec<u8>, header: &Header, data: &[u8])
    ensures
        final(dst)@ == appended(old(dst)@, header@, data@),
{
    extend(dst, header.bytes.as_slice());
    extend(dst, data);
    extend_zeros(dst, padding(data.len() as u64));
}

/// Returns how many zeros fill up some bytes to whole blocks.
pub fn padding(len: u64) -> (r: u64)
    ensures
        r == padded(len as int) - len,
{
    let remaining: u64 = 512 - len % 512;
    if remaining < 512 {
        remaining
    } else {
        0
    }
}

/// Makes the header of a record that holds a long path or link name.
pub(crate) fn long_link_header(size: u64, kind: u8) -> (r: Header)
    ensures
        r@ == long_header(size as int, kind),
{
    let name: [u8; 13] = [46, 47, 46, 47, 64, 76, 111, 110, 103, 76, 105, 110, 107];
    let mut header: Header = Header::new_gnu();
    let ghost before = header@;
    let mut i: usize = 0;
    while i < 13
        invariant
            i <= 13,
            before.len() == 512,
            forall|k: int|
                0 <= k < 512 ==> #[trigger] header.bytes@[k] == if k < i {
                    name@[k]
                } else {
                    before[k]
                },
        decreases 13 - i,
    {
        header.bytes[i] = name[i];
        i = i + 1;
    }
    assert(name@ =~= long_link_name());
    assert(header@ =~= with_field(before, 0, long_link_name()));
    header.set_mode(0o644);
    header.set_uid(0);
    header.set_gid(0);
    header.set_mtime(0);
    header.set_size(size);
    let kind: EntryType = EntryType::new(kind);
    header.set_entry_type(kind);
    header.set_cksum();
    header
}

/// Sets the path of a header, and appends a record in front of the entry if the header cannot
/// hold the path.
pub fn prepare_header(dst: &mut Vec<u8>, header: &mut Header, path: &[u8]) -> (r: Result<
    (),
    TarError,
>)
    ensures
        (Prepared { out: final(dst)@, header: final(header)@, result: r }) == prepared(
            old(dst)@,
            old(header)@,
            path@,
        ),
{
    match header.set_path(path) {
        Ok(()) => {},
        Err(e) => {
            if path.len() < 100 {
                return Err(e);
            }
            let size: u64 = match (path.len() as u64).checked_add(1) {
                Some(size) => size,
                None => {
                    return Err(TarError::ValueTooLong);
                },
            };
            let record: Header = long_link_header(size, 76);
            let mut name: Vec<u8> = slice_to_vec(path);
            name.push(0);
            append(dst, &record, name.as_slice());
            let start: &[u8] = slice_subrange(path, 0, 100);
            assert(start@ =~= path@.take(100));
            return header.set_path(start);
        },
    }
    Ok(())
}

/// Appends a file with the given metadata.
fn append_fs(
    dst: &mut Vec<u8>,
    path: &[u8],
    meta: &Metadata,
    data: &[u8],
    mode: HeaderMode,
) -> (r: Result<(), TarError>)
    ensures
        (final(dst)@, r) == file_added(old(dst)@, path@, *meta, data@, mode),
{
    let mut header: Header = Header::new_gnu();
    match prepare_header(dst, &mut header, path) {
        Ok(()) => {},
        Err(e) => {
            return Err(e);
        },
    }
    header.set_metadata_in_mode(meta, mode);
    header.set_cksum();
    append(dst, &header, data);
    Ok(())
}

/// An archive that is being written.
pub struct Builder {
    mode: HeaderMode,
    finished: bool,
    obj: Vec<u8>,
}

/// An archive that is being written, as a mathematical value.
#[verifier::ext_equal]
pub struct Writing {
    /// What is taken from the metadata of files.
    pub mode: HeaderMode,
    /// Whether the end of the archive was written.
    pub finished: bool,
    /// The bytes that were written.
    pub out: Seq<u8>,
}

impl View for Builder {
    type V = Writing;

    closed spec fn view(&self) -> Writing {
        Writing { mode: self.mode, finished: self.finished, out: self.obj@ }
    }
}

impl Writing {
    /// The archive with other bytes.
    pub open spec fn with(self, out: Seq<u8>) -> Writing {
        Writing { out, ..self }
    }

    /// The archive once its end is written.
    pub open spec fn ended(self) -> Writing {
        if self.finished {
            self
        } else {
            Writing { finished: true, out: self.out + zeros(1024), ..self }
        }
    }
}

impl Builder {
    /// Starts to write an archive behind the given bytes.
    ///
    /// All supported metadata of files is taken: see `HeaderMode::Complete`.
    pub fn new(obj: Vec<u8>) -> (r: Builder)
        ensures
            r@ == (Writing { mode: HeaderMode::Complete, finished: false, out: obj@ }),
    {
        Builder { mode: HeaderMode::Complete, finished: false, obj }
    }

    /// Sets what is taken from the metadata of files.
    ///
    /// This has no effect on `append`.
    pub fn mode(&mut self, mode: HeaderMode)
        ensures
            final(self)@ == (Writing { mode, ..old(self)@ }),
    {
        self.mode = mode;
    }

    /// Returns the archive, with its end.
    pub fn into_inner(self) -> (r: Result<Vec<u8>, TarError>)
        ensures
            r matches Ok(v) && v@ == self@.ended().out,
    {
        let mut me: Builder = self;
        if !me.finished {
            me.finish()?;
        }
        Ok(me.obj)
    }

    /// Adds an entry: its header as it is, and its data.
    ///
    /// The archive is valid only if the header states the length of the data and has the right
    /// checksum.
    pub fn append(&mut self, header: &Header, data: &[u8]) -> (r: Result<(), TarError>)
        ensures
            r is Ok,
            final(self)@ == old(self)@.with(appended(old(self)@.out, header@, data@)),
    {
        append(&mut self.obj, header, data);
        Ok(())
    }

    /// Adds an entry with the given path and data.
    ///
    /// The path is set in the header, and its checksum is filled in. If the header cannot hold
    /// the path, a record that does is added first.
    pub fn append_data(&mut self, header: &mut Header, path: &[u8], data: &[u8]) -> (r: Result<
        (),
        TarError,
    >)
        ensures
            ({
                let p = prepared(old(self)@.out, old(header)@, path@);
                &&& r == p.result
                &&& if p.result is Ok {
                    final(header)@ == with_cksum(p.header) && final(self)@ == old(self)@.with(
                        appended(p.out, with_cksum(p.header), data@),
                    )
                } else {
                    final(header)@ == p.header && final(self)@ == old(self)@.with(p.out)
                }
            }),
    {
        match prepare_header(&mut self.obj, header, path) {
            Ok(()) => {},
            Err(e) => {
                return Err(e);
            },
        }
        header.set_cksum();
        append(&mut self.obj, header, data);
        Ok(())
    }

    /// Adds a file or a directory of the file system under its own path.
    ///
    /// `meta` and `data` are what the file system says of the path and holds there.
    pub fn append_path(&mut self, path: &[u8], meta: &Metadata, data: &[u8]) -> (r: Result<
        (),
        TarError,
    >)
        ensures
            ({
                let w = old(self)@;
                let kind = meta.file_type();
                if kind == S_IFREG || kind == S_IFDIR {
                    let (out, result) = file_added(
                        w.out,
                        path@,
                        *meta,
                        if kind == S_IFREG {
                            data@
                        } else {
                            Seq::empty()
                        },
                        w.mode,
                    );
                    r == result && final(self)@ == w.with(out)
                } else {
                    r == Err::<(), TarError>(TarError::UnknownFileType) && final(self)@ == w
                }
            }),
    {
        let kind: u32 = meta.mode & S_IFMT;
        if kind == S_IFREG {
            append_fs(&mut self.obj, path, meta, data, self.mode)
        } else if kind == S_IFDIR {
            let none: Vec<u8> = Vec::new();
            assert(none@ =~= Seq::empty());
            append_fs(&mut self.obj, path, meta, none.as_slice(), self.mode)
        } else {
            Err(TarError::UnknownFileType)
        }
    }

    /// Adds a file under the given path.
    ///
    /// `meta` and `data` are what the file system says of the file and holds in it.
    pub fn append_file(&mut self, path: &[u8], meta: &Metadata, data: &[u8]) -> (r: Result<
        (),
        TarError,
    >)
        ensures
            ({
                let w = old(self)@;
                let (out, result) = file_added(w.out, path@, *meta, data@, w.mode);
                r == result && final(self)@ == w.with(out)
            }),
    {
        append_fs(&mut self.obj, path, meta, data, self.mode)
    }

    /// Adds a directory under the given path.
    ///
    /// `meta` is what the file system says of the directory.
    pub fn append_dir(&mut self, path: &[u8], meta: &Metadata) -> (r: Result<(), TarError>)
        ensures
            ({
                let w = old(self)@;
                let (out, result) = file_added(w.out, path@, *meta, Seq::empty(), w.mode);
                r == result && final(self)@ == w.with(out)
            }),
    {
        let none: Vec<u8> = Vec::new();
        assert(none@ =~= Seq::empty());
        append_fs(&mut self.obj, path, meta, none.as_slice(), self.mode)
    }

    /// Adds a record of pax extensions for the next entry.
    ///
    /// Nothing is added if there are none.
    pub fn append_pax_extensions(&mut self, headers: &Vec<(&str, &[u8])>) -> (r: Result<
        (),
        TarError,
    >)
        ensures
            r is Ok,
            final(self)@ == if headers@.len() == 0 {
                old(self)@
            } else {
                let data = all_records(pairs(headers@));
                old(self)@.with(appended(old(self)@.out, pax_header(data.len() as int), data))
            },
    {
        let mut data: Vec<u8> = Vec::new();
        let ghost list = pairs(headers@);
        let mut i: usize = 0;
        assert(list.take(0) =~= Seq::empty());
        while i < headers.len()
            invariant
                i <= headers@.len(),
                list == pairs(headers@),
                list.len() == headers@.len(),
                data@ == all_records(list.take(i as int)),
                i > 0 ==> data@.len() > 0,
            decreases headers@.len() - i,
        {
            let (key, value) = headers[i];
            assert(list.take(i + 1).drop_last() =~= list.take(i as int));
            assert(list.take(i + 1).last() == (encode_utf8(key@), value@));
            push_record(&mut data, key, value);
            i = i + 1;
        }
        assert(list.take(i as int) =~= list);
        if data.len() == 0 {
            return Ok(());
        }
        let mut header: Header = Header::new_ustar();
        header.set_size(data.len() as u64);
        header.set_entry_type(EntryType::XHeader);
        header.set_cksum();
        append(&mut self.obj, &header, data.as_slice());
        Ok(())
    }

    /// Writes the end of the archive, unless that was done before.
    pub fn finish(&mut self) -> (r: Result<(), TarError>)
        ensures
            r is Ok,
            final(self)@ == old(self)@.ended(),
    {
        if self.finished {
            return Ok(());
        }
        self.finished = true;
        extend_zeros(&mut self.obj, 1024);
        Ok(())
    }
}

/// One file or directory that a walk over a directory came to.
pub struct DirStep {
    /// Where it stands in the file system.
    pub src: Vec<u8>,
    /// Where it stands below the directory that the walk started in.
    pub below: Vec<u8>,
    /// Whether it is a directory.
    pub is_dir: bool,
}

/// One file or directory that a walk over a directory came to, as a mathematical value.
#[verifier::ext_equal]
pub struct DirPlace {
    /// Where it stands in the file system.
    pub src: Seq<u8>,
    /// Where it stands below the directory that the walk started in.
    pub below: Seq<u8>,
    /// Whether it is a directory.
    pub is_dir: bool,
}

impl View for DirStep {
    type V = DirPlace;

    open spec fn view(&self) -> DirPlace {
        DirPlace { src: self.src@, below: self.below@, is_dir: self.is_dir }
    }
}

/// A walk over a directory and all that is in it.
///
/// The walk says where to look, and is told what is there.
pub struct DirWalk {
    stack: Vec<DirStep>,
}

impl View for DirWalk {
    type V = Seq<DirPlace>;

    /// What is still to be come to, the last first.
    closed spec fn view(&self) -> Seq<DirPlace> {
        self.stack@.map_values(|s: DirStep| s@)
    }
}

/// The places of what was found in a directory.
pub open spec fn found_in(dir: DirPlace, names: Seq<(Vec<u8>, bool)>) -> Seq<DirPlace> {
    names.map_values(
        |n: (Vec<u8>, bool)|
            DirPlace {
                src: joined(dir.src, n.0@),
                below: joined(dir.below, n.0@),
                is_dir: n.1,
            },
    )
}

/// Where what a walk came to goes below `path`. A directory whose place has no component goes
/// nowhere.
pub open spec fn dir_place(path: Seq<u8>, step: DirPlace) -> Option<Seq<u8>> {
    let dest = joined(path, step.below);
    if step.is_dir && parts(dest).len() == 0 {
        None
    } else {
        Some(dest)
    }
}

impl DirStep {
    /// Returns where this goes below `path`, unless it goes nowhere.
    pub fn place_in(&self, path: &[u8]) -> (r: Option<Vec<u8>>)
        ensures
            match dir_place(path@, self@) {
                Some(dest) => r matches Some(d) && d@ == dest,
                None => r is None,
            },
    {
        let dest: Vec<u8> = join(path, self.below.as_slice());
        if self.is_dir {
            let spans: Vec<Span<'_>> = components(dest.as_slice());
            assert(span_parts(spans@).len() == spans@.len());
            if spans.len() == 0 {
                return None;
            }
        }
        Some(dest)
    }
}

impl DirWalk {
    /// Returns the next file or directory: of what was found last, the last.
    pub fn next(&mut self) -> (r: Option<DirStep>)
        ensures
            match r {
                Some(step) => old(self)@.len() > 0 && step@ == old(self)@.last() && final(self)@
                    == old(self)@.drop_last(),
                None => old(self)@.len() == 0 && final(self)@ == old(self)@,
            },
    {
        let ghost before = self.stack@;
        let r: Option<DirStep> = self.stack.pop();
        assert(r is Some ==> self@ =~= before.map_values(|s: DirStep| s@).drop_last());
        r
    }

    /// Takes note of what was found in a directory: names, and whether they are directories.
    pub fn found(&mut self, dir: &DirStep, names: &Vec<(Vec<u8>, bool)>)
        ensures
            final(self)@ == old(self)@ + found_in(dir@, names@),
    {
        let ghost before = self@;
        let ghost all = found_in(dir@, names@);
        let mut i: usize = 0;
        while i < names.len()
            invariant
                i <= names@.len(),
                all == found_in(dir@, names@),
                self@ =~= before + all.take(i as int),
            decreases names@.len() - i,
        {
            let ghost now = self.stack@;
            let name: &[u8] = names[i].0.as_slice();
            let step: DirStep = DirStep {
                src: join(dir.src.as_slice(), name),
                below: join(dir.below.as_slice(), name),
                is_dir: names[i].1,
            };
            self.stack.push(step);
            assert(self@ =~= now.map_values(|s: DirStep| s@).push(step@));
            assert(step@ == all[i as int]);
            i = i + 1;
        }
        assert(all.take(i as int) =~= all);
    }
}

impl Builder {
    /// Starts to add a directory and all that is in it.
    ///
    /// The walk goes over the directory in the file system. What it comes to is added by
    /// `append_walked`.
    pub fn append_dir_all(&self, src_path: &[u8]) -> (r: DirWalk)
        ensures
            r@ == seq![DirPlace { src: src_path@, below: Seq::empty(), is_dir: true }],
    {
        let mut stack: Vec<DirStep> = Vec::new();
        let none: Vec<u8> = Vec::new();
        assert(none@ =~= Seq::empty());
        stack.push(DirStep { src: slice_to_vec(src_path), below: none, is_dir: true });
        let r: DirWalk = DirWalk { stack };
        assert(r@ =~= seq![DirPlace { src: src_path@, below: Seq::empty(), is_dir: true }]);
        r
    }

    /// Adds what a walk came to, at its place below `path`.
    ///
    /// A directory whose place has no component is not added. `meta` and `data` are what the
    /// file system says of the file and holds in it.
    pub fn append_walked(
        &mut self,
        path: &[u8],
        step: &DirStep,
        meta: &Metadata,
        data: &[u8],
    ) -> (r: Result<(), TarError>)
        ensures
            ({
                let w = old(self)@;
                match dir_place(path@, step@) {
                    None => r is Ok && final(self)@ == w,
                    Some(dest) => {
                        let (out, result) = file_added(
                            w.out,
                            dest,
                            *meta,
                            if step@.is_dir {
                                Seq::empty()
                            } else {
                                data@
                            },
                            w.mode,
                        );
                        r == result && final(self)@ == w.with(out)
                    },
                }
            }),
    {
        match step.place_in(path) {
            None => Ok(()),
            Some(dest) => if step.is_dir {
                self.append_dir(dest.as_slice(), meta)
            } else {
                self.append_file(dest.as_slice(), meta, data)
            },
        }
    }
}

/// Keys and values as mathematical values.
pub open spec fn pairs(headers: Seq<(&str, &[u8])>) -> Seq<(Seq<u8>, Seq<u8>)> {
    headers.map_values(|kv: (&str, &[u8])| (encode_utf8(kv.0@), kv.1@))
}

/// The header of a record of `size` bytes that holds pax extensions.
pub open spec fn pax_header(size: int) -> Seq<u8> {
    with_cksum(with_field(with_octal(blank_ustar(), 124, 136, size), 156, seq![120u8]))
}

} // verus!
