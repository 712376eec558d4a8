//! What holds of walks over whole archives.

use crate::archive::{
    expected, expected_at, lemma_zeros_no_entry, look, read_on, Found, Place,
};
use crate::archive_laws::{
    file_header, law_end_read_back, law_file_read_back, law_long_file_read_back,
};
use crate::builder::{file_added, prepared};
use crate::bytes::{slashed, store_error};
use crate::entry::{zeros, Options};
use crate::front_laws::reads_back;
use crate::header::{blank_gnu, header_path_stored, HeaderMode, Metadata, S_IFDIR};
use crate::machine::{after_fill, after_skip, begun, raw_settled, settled, Asked, Walk};
use crate::number::octal;
use crate::parser::{padded, parsed, Parsed};
use crate::stored_path::archive_path;
use vstd::prelude::*;

verus! {

/// A file that is added to an archive.
pub struct Added {
    /// Its path.
    pub path: Seq<u8>,
    /// Its metadata.
    pub meta: Metadata,
    /// Its data.
    pub data: Seq<u8>,
}

/// Whether a header can hold the path of a file.
pub open spec fn has_room(path: Seq<u8>) -> bool {
    archive_path(path, false) is Ok && store_error(100, archive_path(path, false)->Ok_0) is None
}

/// The path with which a file is read back: the spelling of archives if a header can hold it, and
/// the very path otherwise. Backslashes are read as slashes.
pub open spec fn read_path(path: Seq<u8>) -> Seq<u8> {
    if has_room(path) {
        slashed(archive_path(path, false)->Ok_0)
    } else {
        slashed(path)
    }
}

/// Whether a file can be added and read back: its path has room in a header or can go to a
/// record, the metadata states the length of its data, and that has room in its field.
///
/// A path that goes to a record must not end in a nul, nor be longer than the parser allows.
pub open spec fn is_addable(f: Added) -> bool {
    &&& has_room(f.path) || {
        &&& header_path_stored(blank_gnu(), f.path).1 is Err
        &&& 100 <= f.path.len() < 1048576
        &&& prepared(Seq::empty(), blank_gnu(), f.path).result is Ok
        &&& f.path.last() != 0
    }
    &&& f.data.len() == if f.meta.file_type() == S_IFDIR {
        0
    } else {
        f.meta.len as int
    }
    &&& f.data.len() < 8589934592
}

/// The archive that a file is added to.
#[verifier::opaque]
pub open spec fn with_file(out: Seq<u8>, f: Added, mode: HeaderMode) -> Seq<u8> {
    file_added(out, f.path, f.meta, f.data, mode).0
}

/// The archive that some files are added to, one after the other.
pub open spec fn files_added(files: Seq<Added>, mode: HeaderMode) -> Seq<u8>
    decreases files.len(),
{
    if files.len() == 0 {
        Seq::empty()
    } else {
        with_file(files_added(files.drop_last(), mode), files.last(), mode)
    }
}

/// What is added stands behind what was there.
proof fn lemma_added_behind(out: Seq<u8>, f: Added, mode: HeaderMode) -> (more: Seq<u8>)
    ensures
        with_file(out, f, mode) == out + more,
{
    reveal(with_file);
    let all = with_file(out, f, mode);
    let more = all.skip(out.len() as int);
    let p = prepared(out, blank_gnu(), f.path);
    assert(p.out.len() >= out.len());
    assert(p.out.take(out.len() as int) =~= out);
    assert(all.take(out.len() as int) =~= out);
    assert(all =~= out + more);
    more
}

/// The archive of the first files is the start of the archive of all.
proof fn lemma_files_behind(files: Seq<Added>, n: int, mode: HeaderMode) -> (more: Seq<u8>)
    requires
        0 <= n <= files.len(),
    ensures
        files_added(files, mode) == files_added(files.take(n), mode) + more,
    decreases files.len(),
{
    if n == files.len() {
        assert(files.take(n) =~= files);
        assert(files_added(files, mode) + Seq::<u8>::empty() =~= files_added(files, mode));
        Seq::empty()
    } else {
        let less = files.drop_last();
        assert(less.take(n) =~= files.take(n));
        let first = lemma_files_behind(less, n, mode);
        let second = lemma_added_behind(files_added(less, mode), files.last(), mode);
        let start = files_added(files.take(n), mode);
        assert((start + first) + second =~= start + (first + second));
        first + second
    }
}

/// All files that are added to an archive are read back in their order, each with its header, its
/// path and its data; behind the last one a walk comes to the end.
pub proof fn law_archive_read_back(
    files: Seq<Added>,
    mode: HeaderMode,
    options: Options,
    i: int,
)
    requires
        forall|k: int| 0 <= k < files.len() ==> is_addable(#[trigger] files[k]),
        files_added(files, mode).len() + 1024 <= u64::MAX,
        0 <= i <= files.len(),
        !options.ignore_zeros,
    ensures
        ({
            let obj = files_added(files, mode) + zeros(1024);
            let at = files_added(files.take(i), mode).len() as int;
            if i < files.len() {
                reads_back(
                    obj,
                    at,
                    options,
                    file_header(files[i].path, files[i].meta, mode),
                    read_path(files[i].path),
                    None,
                    files[i].data,
                    files_added(files.take(i + 1), mode).len() as int,
                )
            } else {
                expected_at(obj, at, options) == Some(Found::End)
            }
        }),
{
    let all = files_added(files, mode);
    let obj = all + zeros(1024);
    if i < files.len() {
        reveal(with_file);
        let f = files[i];
        assert(is_addable(f));
        let out = files_added(files.take(i), mode);
        assert(files.take(i + 1).drop_last() =~= files.take(i));
        assert(files.take(i + 1).last() == f);
        let next = files_added(files.take(i + 1), mode);
        let more = lemma_files_behind(files, i + 1, mode);
        let rest = more + zeros(1024);
        assert(obj =~= next + rest);
        if has_room(f.path) {
            law_file_read_back(out, f.path, f.meta, f.data, mode, rest, options);
        } else {
            law_long_file_read_back(out, f.path, f.meta, f.data, mode, rest, options);
        }
    } else {
        assert(files.take(i) =~= files);
        let walk = Walk {
            next: all.len() as u64,
            done: false,
            raw: false,
            seekable: false,
            header_pos: 0,
            buf: Seq::empty(),
            options,
        };
        let rest = Seq::<u8>::empty();
        assert(all + zeros(1024) + rest =~= obj);
        law_end_read_back(all, rest, Place { walk, pos: all.len() as int });
    }
}

/// Two blocks of zeros are passed over if zeros are to be ignored: a walk comes to what stands
/// behind them, as when archives stand one behind the other.
pub proof fn law_zeros_passed(obj: Seq<u8>, at: Place)
    requires
        !at.walk.done,
        !at.walk.raw,
        !at.walk.seekable,
        at.walk.options.ignore_zeros,
        0 <= at.pos <= at.walk.next,
        at.walk.next + 1024 <= obj.len() <= u64::MAX,
        obj.subrange(at.walk.next as int, at.walk.next + 1024) == zeros(1024),
    ensures
        expected(obj, at) == expected(
            obj,
            Place { walk: Walk { next: (at.walk.next + 1024) as u64, ..at.walk }, ..at },
        ),
{
    let n = at.walk.next as int;
    let h = obj.skip(n).take(512);
    assert(h =~= obj.subrange(n, n + 1024).take(512));
    assert(h =~= zeros(512));
    lemma_zeros_no_entry(obj.skip(n));
}

/// A walk that seeks instead of reading.
pub open spec fn seeking(at: Place) -> Place {
    Place { walk: Walk { seekable: true, ..at.walk }, ..at }
}

proof fn lemma_settled_seek(w: Walk)
    ensures
        settled(Walk { seekable: true, ..w }) == (
            Walk { seekable: true, ..settled(w).0 },
            settled(w).1,
        ),
    decreases w.buf.len(),
{
    match parsed(w.buf) {
        Parsed::End(n) => if 0 < n <= w.buf.len() {
            lemma_settled_seek(Walk { buf: w.buf.skip(n), ..w });
        },
        Parsed::GlobalExtensions(n) => if 0 < n <= w.buf.len() {
            lemma_settled_seek(Walk { buf: w.buf.skip(n), ..w });
        },
        _ => {},
    }
}

proof fn lemma_read_on_seek(obj: Seq<u8>, at: Place, want: int)
    ensures
        read_on(obj, seeking(at), want) == (seeking(read_on(obj, at, want).0), read_on(
            obj,
            at,
            want,
        ).1),
    decreases obj.len() - at.pos,
{
    if at.pos < obj.len() && at.pos + want <= obj.len() {
        let block = obj.subrange(at.pos, at.pos + want);
        let w = at.walk;
        lemma_settled_seek(
            Walk { next: (w.next + block.len()) as u64, buf: w.buf + block, ..w },
        );
        let (walk, asked) = after_fill(w, block);
        assert(after_fill(seeking(at).walk, block) == (
            Walk { seekable: true, ..walk },
            asked,
        ));
        let next = Place { walk, pos: at.pos + want };
        if let Asked::Fill(n) = asked {
            if want > 0 {
                lemma_read_on_seek(obj, next, n);
            }
        }
    }
}

/// Seeking over the data of entries leads to the same entries as reading over it.
///
/// The archive must not be cut off where it is skipped, and the distance must be one that can
/// be sought.
pub proof fn law_seek_same(obj: Seq<u8>, at: Place)
    requires
        !at.walk.seekable,
        0 <= at.pos <= u64::MAX,
        at.walk.next <= obj.len(),
        at.walk.next - at.pos <= i64::MAX,
    ensures
        look(obj, seeking(at)) == (seeking(look(obj, at).0), look(obj, at).1),
{
    let (walk, asked) = begun(at.walk, at.pos as u64);
    if let Asked::Skip(n) = asked {
        lemma_settled_seek(walk);
        let (behind, next) = after_skip(walk);
        let place = Place { walk: behind, pos: at.pos + n };
        if let Asked::Fill(want) = next {
            lemma_read_on_seek(obj, place, want);
        }
    }
}

/// Where a raw walk comes to, whatever the archive holds: at an entry whose header stands where
/// the walk was to go on, with nothing attached to it, and with the next header behind its data.
proof fn lemma_raw_found(obj: Seq<u8>, at: Place)
    requires
        at.walk.raw,
        !at.walk.options.ignore_zeros,
        look(obj, at).1 is Entry,
    ensures
        ({
            let e = look(obj, at).1->Entry_0;
            let w = look(obj, at).0.walk;
            &&& e.header_pos == at.walk.next
            &&& e.file_pos == e.header_pos + 512
            &&& e.long_pathname is None && e.long_linkname is None && e.pax_extensions is None
            &&& octal(e.header.subrange(124, 136)) matches Ok(size) && w.next == e.file_pos
                + padded(size as int)
            &&& w.raw && w.options == at.walk.options
        }),
{
    let (walk, asked) = begun(at.walk, at.pos as u64);
    if let Asked::Skip(n) = asked {
        let place = Place { walk, pos: at.pos + n };
        assert(after_skip(walk) == (walk, Asked::Fill(512)));
        if place.pos + 512 <= obj.len() {
            let block = obj.subrange(place.pos, place.pos + 512);
            assert(after_fill(walk, block) == raw_settled(walk, block));
        }
    }
}

/// The entries of a raw walk follow one another, whatever the archive holds and however much of
/// an entry was read: the data of each stands behind its header, and the header of the next
/// behind that data, rounded up to whole blocks. Nothing is attached to any of them.
pub proof fn law_raw_in_order(obj: Seq<u8>, at: Place, pos: int)
    requires
        at.walk.raw,
        !at.walk.options.ignore_zeros,
        look(obj, at).1 is Entry,
        look(obj, Place { walk: look(obj, at).0.walk, pos }).1 is Entry,
    ensures
        ({
            let first = look(obj, at).1->Entry_0;
            let second = look(obj, Place { walk: look(obj, at).0.walk, pos }).1->Entry_0;
            &&& first.file_pos == first.header_pos + 512
            &&& octal(first.header.subrange(124, 136)) matches Ok(size) && second.header_pos
                == first.file_pos + padded(size as int)
            &&& second.long_pathname is None
            &&& second.long_linkname is None
            &&& second.pax_extensions is None
        }),
{
    lemma_raw_found(obj, at);
    lemma_raw_found(obj, Place { walk: look(obj, at).0.walk, pos });
}

} // verus!
