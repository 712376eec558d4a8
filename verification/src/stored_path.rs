//! Paths inside fixed-width header fields.

use crate::bytes::{
    copy_into, find_from, lemma_find_from, lemma_find_from_is, store_error, stored_at, truncated,
};
use crate::error::TarError;
use crate::path::{
    components, ends_with_slash, lead, part_text, parts, parts_from, segment_part, slash_at_end,
    span_parts, Component, Part, Span,
};
use vstd::prelude::*;

verus! {

/// The pieces in which a path is written to a field, and the error that stops the writing.
pub struct Pieces {
    /// The pieces, in order.
    pub chunks: Seq<Seq<u8>>,
    /// The last component that was written.
    pub last: Option<Part>,
    /// The component that cannot be written, if there is one.
    pub error: Option<TarError>,
}

/// The pieces for a list of components.
///
/// A link may have any component. Any other path drops `.` and must neither start at
/// the root nor hold `..`.
pub open spec fn pieces(list: Seq<Part>, is_link: bool) -> Pieces
    decreases list.len(),
{
    if list.len() == 0 {
        Pieces { chunks: Seq::empty(), last: None, error: None }
    } else {
        let before = pieces(list.drop_last(), is_link);
        let part = list.last();
        if before.error is Some {
            before
        } else if !is_link && part is RootDir {
            Pieces { error: Some(TarError::PathNotRelative), ..before }
        } else if !is_link && part is ParentDir {
            Pieces { error: Some(TarError::PathHasParent), ..before }
        } else if !is_link && part is CurDir {
            before
        } else {
            let slash = if before.last is Some && before.last != Some(Part::RootDir) {
                seq![seq![47u8]]
            } else {
                Seq::empty()
            };
            Pieces {
                chunks: before.chunks + slash + seq![part.text()],
                last: Some(part),
                error: None,
            }
        }
    }
}

/// The pieces for a whole path, with a slash at the end where the path has one.
pub open spec fn path_pieces(p: Seq<u8>, is_link: bool) -> Pieces {
    let all = pieces(parts(p), is_link);
    if all.error is Some {
        all
    } else if all.last is None {
        Pieces { error: Some(TarError::PathEmpty), ..all }
    } else if slash_at_end(p) {
        Pieces { chunks: all.chunks.push(seq![47u8]), ..all }
    } else {
        all
    }
}

/// A field and how far it is written, or the error that stopped the writing.
pub struct Progress {
    /// What the field holds.
    pub field: Seq<u8>,
    /// How many bytes of it are written, or why no more could be written.
    pub written: Result<int, TarError>,
}

/// A field into which pieces are written one behind the other, each with a nul behind it.
pub open spec fn written(field: Seq<u8>, chunks: Seq<Seq<u8>>) -> Progress
    decreases chunks.len(),
{
    if chunks.len() == 0 {
        Progress { field, written: Ok(0) }
    } else {
        let before = written(field, chunks.drop_last());
        match before.written {
            Err(_) => before,
            Ok(at) => match store_error(before.field.len() - at, chunks.last()) {
                Some(e) => Progress { field: before.field, written: Err(e) },
                None => Progress {
                    field: stored_at(before.field, at, chunks.last()),
                    written: Ok(at + chunks.last().len()),
                },
            },
        }
    }
}

/// What a field holds after a path was written to it, and the outcome.
pub open spec fn path_stored(field: Seq<u8>, p: Seq<u8>, is_link: bool) -> (
    Seq<u8>,
    Result<(), TarError>,
) {
    let all = path_pieces(p, is_link);
    let done = written(field, all.chunks);
    (
        done.field,
        match (done.written, all.error) {
            (Err(e), _) => Err(e),
            (Ok(_), Some(e)) => Err(e),
            (Ok(_), None) => Ok(()),
        },
    )
}

/// The text of a list of pieces.
pub open spec fn joined_text(chunks: Seq<Seq<u8>>) -> Seq<u8>
    decreases chunks.len(),
{
    if chunks.len() == 0 {
        Seq::empty()
    } else {
        joined_text(chunks.drop_last()) + chunks.last()
    }
}

/// The spelling of a path in an archive, or why it has none.
pub open spec fn archive_path(p: Seq<u8>, is_link: bool) -> Result<Seq<u8>, TarError> {
    let all = path_pieces(p, is_link);
    match all.error {
        Some(e) => Err(e),
        None => Ok(joined_text(all.chunks)),
    }
}

proof fn lemma_written_bounds(field: Seq<u8>, chunks: Seq<Seq<u8>>)
    ensures
        written(field, chunks).field.len() == field.len(),
        written(field, chunks).written matches Ok(at) ==> 0 <= at <= field.len(),
    decreases chunks.len(),
{
    if chunks.len() > 0 {
        lemma_written_bounds(field, chunks.drop_last());
    }
}

/// Writing a path keeps the width of the field.
pub proof fn lemma_path_stored_len(field: Seq<u8>, p: Seq<u8>, is_link: bool)
    ensures
        path_stored(field, p, is_link).0.len() == field.len(),
{
    lemma_written_bounds(field, path_pieces(p, is_link).chunks);
}

proof fn lemma_written_step(field: Seq<u8>, chunks: Seq<Seq<u8>>, chunk: Seq<u8>)
    ensures
        chunks.push(chunk).drop_last() == chunks,
        chunks.push(chunk).last() == chunk,
{
    assert(chunks.push(chunk).drop_last() =~= chunks);
}

/// Once writing has failed, more pieces change nothing.
proof fn lemma_written_error(field: Seq<u8>, chunks: Seq<Seq<u8>>, more: Seq<Seq<u8>>)
    requires
        written(field, chunks).written is Err,
    ensures
        written(field, chunks + more) == written(field, chunks),
    decreases more.len(),
{
    if more.len() == 0 {
        assert(chunks + more =~= chunks);
    } else {
        assert((chunks + more).drop_last() =~= chunks + more.drop_last());
        lemma_written_error(field, chunks, more.drop_last());
    }
}

/// The pieces of the first components are the first pieces.
proof fn lemma_pieces_prefix(list: Seq<Part>, n: int, is_link: bool)
    requires
        0 <= n <= list.len(),
    ensures
        ({
            let a = pieces(list.take(n), is_link).chunks;
            let b = pieces(list, is_link).chunks;
            a.len() <= b.len() && b == a + b.skip(a.len() as int)
        }),
        pieces(list.take(n), is_link).error is Some ==> pieces(list, is_link) == pieces(
            list.take(n),
            is_link,
        ),
    decreases list.len(),
{
    let a = pieces(list.take(n), is_link).chunks;
    let b = pieces(list, is_link).chunks;
    if n == list.len() {
        assert(list.take(n) =~= list);
        assert(b =~= a + b.skip(a.len() as int));
    } else {
        lemma_pieces_prefix(list.drop_last(), n, is_link);
        assert(list.drop_last().take(n) =~= list.take(n));
        let c = pieces(list.drop_last(), is_link).chunks;
        assert(c =~= a + c.skip(a.len() as int));
        assert(c =~= b.take(c.len() as int));
        assert forall|k: int| 0 <= k < a.len() implies a[k] == b[k] by {
            assert(c[k] == a[k]);
            assert(b.take(c.len() as int)[k] == b[k]);
        }
        assert(b =~= a + b.skip(a.len() as int));
    }
}

/// Writes one piece behind those that are written.
fn put(
    field: &mut [u8],
    at: usize,
    chunk: &[u8],
    Ghost(start): Ghost<Seq<u8>>,
    Ghost(chunks): Ghost<Seq<Seq<u8>>>,
) -> (r: Result<usize, TarError>)
    requires
        written(start, chunks) == (Progress { field: old(field)@, written: Ok(at as int) }),
    ensures
        written(start, chunks.push(chunk@)) == (Progress {
            field: final(field)@,
            written: match r {
                Ok(n) => Ok(n as int),
                Err(e) => Err(e),
            },
        }),
{
    proof {
        lemma_written_bounds(start, chunks);
        lemma_written_step(start, chunks, chunk@);
    }
    let room: usize = field.len();
    match copy_into(field, at, chunk) {
        Ok(()) => {
            assert(at + chunk@.len() <= room);
            Ok(at + chunk.len())
        },
        Err(e) => Err(e),
    }
}

/// Writes a path to a field.
///
/// What was written before an error stays in the field.
pub fn copy_path_into(field: &mut [u8], path: &[u8], is_link: bool) -> (r: Result<(), TarError>)
    ensures
        (final(field)@, r) == path_stored(old(field)@, path@, is_link),
{
    let ghost start = field@;
    let spans: Vec<Span<'_>> = components(path);
    let ghost list = parts(path@);
    let ghost all = path_pieces(path@, is_link);
    assert(span_parts(spans@).len() == spans@.len());
    let mut at: usize = 0;
    let mut emitted: bool = false;
    let mut after_root: bool = false;
    let mut i: usize = 0;
    assert(list.take(0) =~= Seq::empty());
    while i < spans.len()
        invariant
            i <= spans@.len(),
            list == parts(path@),
            span_parts(spans@) == list,
            list.len() == spans@.len(),
            all == path_pieces(path@, is_link),
            pieces(list.take(i as int), is_link).error is None,
            emitted == (pieces(list.take(i as int), is_link).last is Some),
            after_root == (pieces(list.take(i as int), is_link).last == Some(Part::RootDir)),
            written(start, pieces(list.take(i as int), is_link).chunks) == (Progress {
                field: field@,
                written: Ok(at as int),
            }),
            start == old(field)@,
        decreases spans@.len() - i,
    {
        let ghost before = pieces(list.take(i as int), is_link);
        let ghost now = pieces(list.take(i + 1), is_link);
        assert(list.take(i + 1).drop_last() =~= list.take(i as int));
        let part: Component<'_> = spans[i].part;
        assert(list.take(i + 1).last() == part@);
        proof {
            lemma_pieces_prefix(list, i + 1, is_link);
        }
        let ghost chunks = pieces(list, is_link).chunks;
        let ghost rest = chunks.skip(now.chunks.len() as int);
        assert(all.chunks == chunks || all.chunks == chunks + seq![seq![47u8]]) by {
            assert(chunks.push(seq![47u8]) =~= chunks + seq![seq![47u8]]);
        }
        if !is_link {
            match part {
                Component::RootDir => {
                    return Err(TarError::PathNotRelative);
                },
                Component::ParentDir => {
                    return Err(TarError::PathHasParent);
                },
                Component::CurDir => {
                    i = i + 1;
                    continue;
                },
                Component::Normal(_) => {},
            }
        }
        let ghost mut done = before.chunks;
        if emitted && !after_root {
            let slash: [u8; 1] = [47];
            assert(slash@ =~= seq![47u8]);
            let r: Result<usize, TarError> = put(
                field,
                at,
                slash.as_slice(),
                Ghost(start),
                Ghost(done),
            );
            proof {
                done = done.push(seq![47u8]);
            }
            match r {
                Ok(n) => {
                    at = n;
                },
                Err(e) => {
                    proof {
                        let more = all.chunks.skip(done.len() as int);
                        assert(all.chunks =~= done + more) by {
                            assert(done =~= now.chunks.take(done.len() as int));
                            assert(chunks =~= now.chunks + rest);
                        }
                        lemma_written_error(start, done, more);
                    }
                    return Err(e);
                },
            }
        }
        let text: Vec<u8> = part_text(&part);
        let r: Result<usize, TarError> = put(
            field,
            at,
            text.as_slice(),
            Ghost(start),
            Ghost(done),
        );
        proof {
            done = done.push(text@);
        }
        assert(done =~= now.chunks);
        match r {
            Ok(n) => {
                at = n;
            },
            Err(e) => {
                proof {
                    let more = all.chunks.skip(done.len() as int);
                    assert(all.chunks =~= done + more) by {
                        assert(chunks =~= now.chunks + rest);
                    }
                    lemma_written_error(start, done, more);
                }
                return Err(e);
            },
        }
        emitted = true;
        after_root = match part {
            Component::RootDir => true,
            _ => false,
        };
        i = i + 1;
    }
    assert(list.take(i as int) =~= list);
    if !emitted {
        return Err(TarError::PathEmpty);
    }
    if ends_with_slash(path) {
        let slash: [u8; 1] = [47];
        assert(slash@ =~= seq![47u8]);
        match put(
            field,
            at,
            slash.as_slice(),
            Ghost(start),
            Ghost(pieces(list, is_link).chunks),
        ) {
            Ok(_) => {},
            Err(e) => {
                return Err(e);
            },
        }
    }
    Ok(())
}

/// Writing succeeds exactly if the whole text fits and holds no nul, and then leaves the
/// text in the field with a nul behind it where there is room.
pub proof fn lemma_written_all(field: Seq<u8>, chunks: Seq<Seq<u8>>)
    requires
        forall|k: int| 0 <= k < chunks.len() ==> (#[trigger] chunks[k]).len() > 0,
        chunks.len() > 0,
    ensures
        written(field, chunks).written is Ok <==> store_error(
            field.len() as int,
            joined_text(chunks),
        ) is None,
        written(field, chunks).written is Ok ==> written(field, chunks) == (Progress {
            field: stored_at(field, 0, joined_text(chunks)),
            written: Ok(joined_text(chunks).len() as int),
        }),
    decreases chunks.len(),
{
    lemma_written_bounds(field, chunks);
    let first = chunks.drop_last();
    let last = chunks.last();
    let text = joined_text(first);
    assert(chunks[chunks.len() - 1].len() > 0);
    reveal_with_fuel(joined_text, 2);
    reveal_with_fuel(written, 2);
    if first.len() == 0 {
        assert(text =~= Seq::<u8>::empty());
        assert(joined_text(chunks) =~= last);
    } else {
        assert forall|k: int| 0 <= k < first.len() implies (#[trigger] first[k]).len() > 0 by {
            assert(first[k] == chunks[k]);
        }
        lemma_written_all(field, first);
        lemma_written_bounds(field, first);
        let both = text + last;
        assert(both.contains(0u8) <==> text.contains(0u8) || last.contains(0u8)) by {
            if text.contains(0u8) {
                let k = choose|k: int| 0 <= k < text.len() && text[k] == 0u8;
                assert(both[k] == 0u8);
            }
            if last.contains(0u8) {
                let k = choose|k: int| 0 <= k < last.len() && last[k] == 0u8;
                assert(both[text.len() + k] == 0u8);
            }
            if both.contains(0u8) {
                let k = choose|k: int| 0 <= k < both.len() && both[k] == 0u8;
                if k < text.len() {
                    assert(text[k] == 0u8);
                } else {
                    assert(last[k - text.len()] == 0u8);
                }
            }
        }
        if written(field, chunks).written is Ok {
            assert(stored_at(stored_at(field, 0, text), text.len() as int, last) =~= stored_at(
                field,
                0,
                both,
            ));
        }
    }
}

/// Whether every piece has text.
spec fn all_filled(chunks: Seq<Seq<u8>>) -> bool {
    forall|k: int| 0 <= k < chunks.len() ==> (#[trigger] chunks[k]).len() > 0
}

proof fn lemma_parts_text(p: Seq<u8>, i: int)
    requires
        0 <= i,
    ensures
        forall|k: int|
            0 <= k < parts_from(p, i).len() ==> (#[trigger] parts_from(p, i)[k]).text().len() > 0,
    decreases p.len() + 1 - i,
{
    if i < p.len() {
        lemma_find_from(p, 47, i);
        let j = find_from(p, 47, i);
        lemma_parts_text(p, j + 1);
        let rest = parts_from(p, j + 1);
        assert forall|k: int| 0 <= k < parts_from(p, i).len() implies (
        #[trigger] parts_from(p, i)[k]).text().len() > 0 by {
            match segment_part(p.subrange(i, j)) {
                Some(part) => if k > 0 {
                    assert(parts_from(p, i)[k] == rest[k - 1]);
                },
                None => {
                    assert(parts_from(p, i)[k] == rest[k]);
                },
            }
        }
    }
}

proof fn lemma_pieces_filled(list: Seq<Part>, is_link: bool)
    requires
        forall|k: int| 0 <= k < list.len() ==> (#[trigger] list[k]).text().len() > 0,
    ensures
        all_filled(pieces(list, is_link).chunks),
        pieces(list, is_link).last is Some <==> pieces(list, is_link).chunks.len() > 0,
    decreases list.len(),
{
    if list.len() > 0 {
        assert forall|k: int| 0 <= k < list.drop_last().len() implies (
        #[trigger] list.drop_last()[k]).text().len() > 0 by {
            assert(list.drop_last()[k] == list[k]);
        }
        lemma_pieces_filled(list.drop_last(), is_link);
        assert(list[list.len() - 1].text().len() > 0);
    }
}

/// A path is stored exactly if it has a spelling, the spelling fits the field and holds no
/// nul. The field then holds the spelling, with a nul behind it where there is room.
pub proof fn law_path_stored(field: Seq<u8>, p: Seq<u8>, is_link: bool)
    ensures
        path_stored(field, p, is_link).1 is Ok <==> (archive_path(p, is_link) matches Ok(text)
            && store_error(field.len() as int, text) is None),
        path_stored(field, p, is_link).1 is Ok ==> path_stored(field, p, is_link).0 == stored_at(
            field,
            0,
            archive_path(p, is_link)->Ok_0,
        ),
{
    let all = path_pieces(p, is_link);
    lemma_parts_text(p, 0);
    let list = parts(p);
    assert forall|k: int| 0 <= k < list.len() implies (#[trigger] list[k]).text().len() > 0 by {
        if lead(p) is Some && k > 0 {
            assert(list[k] == parts_from(p, 0)[k - 1]);
        }
    }
    lemma_pieces_filled(list, is_link);
    if all.error is None {
        assert(all_filled(all.chunks));
        lemma_written_all(field, all.chunks);
    }
}

/// The spelling of a path is never empty.
pub proof fn lemma_spelling_filled(p: Seq<u8>, is_link: bool)
    ensures
        archive_path(p, is_link) matches Ok(text) ==> text.len() > 0,
{
    let all = path_pieces(p, is_link);
    lemma_parts_text(p, 0);
    let list = parts(p);
    assert forall|k: int| 0 <= k < list.len() implies (#[trigger] list[k]).text().len() > 0 by {
        if lead(p) is Some && k > 0 {
            assert(list[k] == parts_from(p, 0)[k - 1]);
        }
    }
    lemma_pieces_filled(list, is_link);
    if all.error is None {
        assert(all.chunks[all.chunks.len() - 1].len() > 0);
    }
}

/// A path that starts at the root has no spelling.
pub proof fn lemma_root_refused(rest: Seq<Part>)
    ensures
        pieces(seq![Part::RootDir] + rest, false).error is Some,
    decreases rest.len(),
{
    reveal_with_fuel(pieces, 2);
    if rest.len() == 0 {
        assert(seq![Part::RootDir] + rest =~= seq![Part::RootDir]);
    } else {
        assert((seq![Part::RootDir] + rest).drop_last() =~= seq![Part::RootDir] + rest.drop_last());
        lemma_root_refused(rest.drop_last());
    }
}

/// Text that was stored in a field is read back from it.
pub proof fn lemma_stored_text(field: Seq<u8>, text: Seq<u8>)
    requires
        store_error(field.len() as int, text) is None,
    ensures
        truncated(stored_at(field, 0, text)) == text,
        text.len() > 0 ==> stored_at(field, 0, text)[0] != 0,
{
    let stored = stored_at(field, 0, text);
    assert forall|k: int| 0 <= k < text.len() implies stored[k] != 0 by {
        assert(text.contains(text[k]));
    }
    lemma_find_from_is(stored, 0, 0, text.len() as int);
    assert(truncated(stored) =~= text);
}

/// A path splits at a slash: its components are those before the slash and those behind it.
pub proof fn lemma_parts_split(p: Seq<u8>, n: int, i: int)
    requires
        0 <= i <= n < p.len(),
        p[n] == 47,
    ensures
        parts_from(p, i) == parts_from(p.take(n), i) + parts_from(p.skip(n + 1), 0),
    decreases n - i,
{
    let q = p.take(n);
    let j = find_from(p, 47, i);
    lemma_find_from(p, 47, i);
    if i == n {
        assert(j == n);
        assert(segment_part(p.subrange(i, j)) is None);
        lemma_parts_shift(p, n + 1, 0);
        assert(parts_from(p, i) =~= parts_from(q, i) + parts_from(p.skip(n + 1), 0));
    } else {
        lemma_find_from(q, 47, i);
        assert(find_from(q, 47, i) == j) by {
            assert forall|k: int| i <= k < j implies q[k] != 47 by {
                assert(q[k] == p[k]);
            }
            lemma_find_from_is(q, 47, i, j);
        }
        assert(p.subrange(i, j) =~= q.subrange(i, j));
        if j == n {
            lemma_parts_shift(p, n + 1, 0);
            assert(parts_from(q, j + 1) =~= Seq::empty());
            assert(parts_from(p, i) =~= parts_from(q, i) + parts_from(p.skip(n + 1), 0));
        } else {
            lemma_parts_split(p, n, j + 1);
            assert(parts_from(p, i) =~= parts_from(q, i) + parts_from(p.skip(n + 1), 0));
        }
    }
}

/// The components from a position on are those of the rest of the path.
proof fn lemma_parts_shift(p: Seq<u8>, n: int, i: int)
    requires
        0 <= n,
        0 <= i,
        n <= p.len(),
    ensures
        parts_from(p, n + i) == parts_from(p.skip(n), i),
    decreases p.len() + 1 - n - i,
{
    let rest = p.skip(n);
    if n + i < p.len() {
        lemma_find_from(p, 47, n + i);
        lemma_find_from(rest, 47, i);
        let j = find_from(p, 47, n + i);
        assert forall|k: int| i <= k < j - n implies rest[k] != 47 by {
            assert(rest[k] == p[n + k]);
        }
        lemma_find_from_is(rest, 47, i, j - n);
        assert(p.subrange(n + i, j) =~= rest.subrange(i, j - n));
        lemma_parts_shift(p, n, j + 1 - n);
    }
}

proof fn lemma_joined_text_append(a: Seq<Seq<u8>>, b: Seq<Seq<u8>>)
    ensures
        joined_text(a + b) == joined_text(a) + joined_text(b),
    decreases b.len(),
{
    if b.len() == 0 {
        assert(a + b =~= a);
        assert(joined_text(a) + joined_text(b) =~= joined_text(a));
    } else {
        assert((a + b).drop_last() =~= a + b.drop_last());
        lemma_joined_text_append(a, b.drop_last());
        assert(joined_text(a + b) =~= joined_text(a) + joined_text(b));
    }
}

/// The pieces of a list of plain components: those of its front, a slash, and those of the rest.
proof fn lemma_pieces_append(a: Seq<Part>, b: Seq<Part>)
    requires
        pieces(a, false).error is None,
        pieces(b, false).error is None,
        pieces(a, false).last is Some,
        pieces(b, false).last is Some ==> pieces(b, false).chunks.len() > 0,
    ensures
        pieces(a + b, false).error is None,
        pieces(a, false).last != Some(Part::RootDir),
        pieces(b, false).last is None ==> pieces(b, false).chunks.len() == 0 && pieces(
            a + b,
            false,
        ) == pieces(a, false),
        pieces(b, false).last is Some ==> pieces(a + b, false).chunks == pieces(a, false).chunks
            + seq![seq![47u8]] + pieces(b, false).chunks && pieces(a + b, false).last == pieces(
            b,
            false,
        ).last && pieces(b, false).last != Some(Part::RootDir),
    decreases b.len(),
{
    lemma_last_is_name(a);
    lemma_last_is_name(b);
    if b.len() == 0 {
        assert(a + b =~= a);
    } else {
        lemma_last_is_name(b.drop_last());
        assert((a + b).drop_last() =~= a + b.drop_last());
        lemma_pieces_append(a, b.drop_last());
        assert((a + b).last() == b.last());
        let before = pieces(b.drop_last(), false);
        if pieces(b, false).last is Some {
            assert(pieces(a + b, false).chunks =~= pieces(a, false).chunks + seq![seq![47u8]]
                + pieces(b, false).chunks);
        }
    }
}

proof fn lemma_last_is_name(list: Seq<Part>)
    ensures
        pieces(list, false).last matches Some(part) ==> part is Normal,
        pieces(list, false).last is None ==> pieces(list, false).chunks.len() == 0,
        pieces(list, false).last is Some ==> pieces(list, false).chunks.len() > 0,
    decreases list.len(),
{
    if list.len() > 0 {
        lemma_last_is_name(list.drop_last());
    }
}

/// A path that is split at a slash has, as its spelling, those of its halves with a slash
/// between them.
pub proof fn law_archive_path_split(p: Seq<u8>, n: int)
    requires
        0 < n < p.len(),
        p[n] == 47,
        archive_path(p.take(n), false) is Ok,
        archive_path(p.skip(n + 1), false) is Ok,
        !slash_at_end(p.take(n)),
    ensures
        archive_path(p, false) == Ok::<Seq<u8>, TarError>(
            archive_path(p.take(n), false)->Ok_0.push(47u8) + archive_path(
                p.skip(n + 1),
                false,
            )->Ok_0,
        ),
{
    let q = p.take(n);
    let rest = p.skip(n + 1);
    lemma_parts_split(p, n, 0);
    assert(lead(p) == lead(q));
    let b = parts_from(rest, 0);
    assert(parts(p) =~= parts(q) + b);
    // What leads the rest of the path is not written.
    assert(pieces(parts(rest), false) == pieces(b, false)) by {
        match lead(rest) {
            Some(part) => {
                lemma_pieces_lead(part, b);
            },
            None => {},
        }
    }
    lemma_last_is_name(parts(q));
    lemma_last_is_name(b);
    lemma_pieces_append(parts(q), b);
    let x = pieces(parts(q), false).chunks;
    let y = pieces(b, false).chunks;
    let xs = x + seq![seq![47u8]];
    assert(slash_at_end(p) == slash_at_end(rest));
    let ys = path_pieces(rest, false).chunks;
    assert(path_pieces(p, false).chunks =~= xs + ys);
    lemma_joined_text_append(xs, ys);
    lemma_joined_text_append(x, seq![seq![47u8]]);
    reveal_with_fuel(joined_text, 3);
    assert(joined_text(seq![seq![47u8]]) =~= seq![47u8]) by {
        assert(seq![seq![47u8]].drop_last() =~= Seq::empty());
    }
    assert(joined_text(xs) =~= joined_text(x).push(47u8));
}

/// A leading `.` adds nothing; a leading root is an error.
proof fn lemma_pieces_lead(part: Part, b: Seq<Part>)
    requires
        part is RootDir || part is CurDir,
    ensures
        pieces(seq![part] + b, false).error is Some || pieces(seq![part] + b, false) == pieces(
            b,
            false,
        ),
    decreases b.len(),
{
    reveal_with_fuel(pieces, 2);
    if b.len() == 0 {
        assert(seq![part] + b =~= seq![part]);
        assert(seq![part].drop_last() =~= b);
    } else {
        assert((seq![part] + b).drop_last() =~= seq![part] + b.drop_last());
        lemma_pieces_lead(part, b.drop_last());
    }
}

} // verus!
