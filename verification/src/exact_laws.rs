//! Plain paths stay the same, byte for byte, wherever they are put together.

use crate::archive::default_options;
use crate::bytes::{find_from, lemma_find_from, lemma_find_from_is};
use crate::contained::extended_by;
use crate::dir_laws::{come_to, stream_come_to};
use crate::entry::EntryView;
use crate::meta_laws::states;
use crate::path::{
    ends, ends_from, joined, lead, lemma_ends, parent_of, parts, parts_from, rendered, segment_part,
    Part,
};
use crate::path_laws::{are_names, as_parts, law_plain_spelling, slash_between};
use crate::unpack::{file_plan, is_name, placed, walked, Placed};
use crate::unpack_laws::{law_placed_completely, law_plan_as_stated};
use vstd::prelude::*;

verus! {

/// Names with slashes between them are extended by one more.
proof fn lemma_one_more(names: Seq<Seq<u8>>)
    requires
        names.len() > 0,
        are_names(names),
    ensures
        joined(slash_between(names.drop_last()), names.last()) == slash_between(names),
        are_names(names.drop_last()),
        !(names.last()[0] == 47),
{
    let front = names.drop_last();
    let name = names.last();
    assert(name == names[names.len() - 1]);
    assert(is_name(name));
    assert(name.contains(name[0]));
    assert forall|k: int| 0 <= k < front.len() implies is_name(#[trigger] front[k]) by {
        assert(front[k] == names[k]);
    }
    if names.len() == 1 {
        assert(slash_between(front) =~= Seq::empty());
        assert(joined(slash_between(front), name) =~= name);
    } else {
        let last = front.last();
        assert(last == front[front.len() - 1]);
        assert(is_name(last));
        assert(last.contains(last[last.len() - 1]));
        assert(slash_between(front).last() == last[last.len() - 1]);
        assert(joined(slash_between(front), name) =~= slash_between(names));
    }
}

/// Names that are put together one by one, in whatever way, are spelled with one slash between each
/// two of them: as the plain spelling of a path, and as what a link points to.
pub proof fn law_spelled_plainly(names: Seq<Seq<u8>>)
    requires
        are_names(names),
    ensures
        rendered(names.map_values(|n: Seq<u8>| Part::Normal(n))) == slash_between(names),
        extended_by(Seq::empty(), names.map_values(|n: Seq<u8>| Part::Normal(n))) == slash_between(
            names,
        ),
    decreases names.len(),
{
    let list = as_parts(names);
    if names.len() > 0 {
        let front = names.drop_last();
        lemma_one_more(names);
        law_spelled_plainly(front);
        assert(list.drop_last() =~= as_parts(front));
    }
}

/// A plain path stays as it is when it is normalized.
pub proof fn law_plain_is_normal(names: Seq<Seq<u8>>)
    requires
        names.len() > 0,
        are_names(names),
    ensures
        rendered(parts(slash_between(names))) == slash_between(names),
{
    law_plain_spelling(names, false);
    law_spelled_plainly(names);
}

/// An entry with a plain path goes to that very path below the directory that is unpacked into.
pub proof fn law_placed_exactly(dst: Seq<u8>, names: Seq<Seq<u8>>)
    requires
        names.len() > 0,
        are_names(names),
    ensures
        placed(dst, slash_between(names)) == Placed::At(joined(dst, slash_between(names))),
{
    law_plain_spelling(names, false);
    lemma_walked_exactly(dst, names);
    law_placed_completely(dst, slash_between(names));
    let list = parts(slash_between(names));
    assert(list[0] is Normal);
    assert forall|k: int| 0 <= k < list.len() implies !(#[trigger] list[k] is ParentDir) by {}
}

proof fn lemma_walked_exactly(dst: Seq<u8>, names: Seq<Seq<u8>>)
    requires
        names.len() > 0,
        are_names(names),
    ensures
        walked(dst, as_parts(names)) == Some(joined(dst, slash_between(names))),
        slash_between(names)[0] != 47,
        slash_between(names).len() > 0,
    decreases names.len(),
{
    let front = names.drop_last();
    let name = names.last();
    lemma_one_more(names);
    assert(as_parts(names).drop_last() =~= as_parts(front));
    assert(name == names[names.len() - 1]);
    assert(is_name(name));
    let p = slash_between(names);
    if names.len() == 1 {
        assert(as_parts(front) =~= Seq::empty());
        assert(slash_between(front) =~= Seq::empty());
        assert(walked(dst, as_parts(front)) == Some(dst));
    } else {
        lemma_walked_exactly(dst, front);
        let q = slash_between(front);
        assert(p[0] == q[0]);
        assert(joined(joined(dst, q), name) =~= joined(dst, p));
    }
}

/// The names by way of which a walk came to something.
pub open spec fn trail_names(trail: Seq<(Vec<u8>, bool)>) -> Seq<Seq<u8>> {
    trail.map_values(|n: (Vec<u8>, bool)| n.0@)
}

/// What a walk comes to stands below its start by the names by way of which it was found, with one
/// slash between each two of them.
pub proof fn law_walk_exactly(src_path: Seq<u8>, trail: Seq<(Vec<u8>, bool)>)
    requires
        are_names(trail_names(trail)),
    ensures
        come_to(src_path, trail).below == slash_between(trail_names(trail)),
        trail.len() > 0 ==> come_to(src_path, trail).src == joined(
            src_path,
            slash_between(trail_names(trail)),
        ),
    decreases trail.len(),
{
    let names = trail_names(trail);
    if trail.len() > 0 {
        let front = trail.drop_last();
        assert(names.drop_last() =~= trail_names(front));
        lemma_one_more(names);
        law_walk_exactly(src_path, front);
        lemma_joined_more(src_path, names);
    } else {
        assert(slash_between(names) =~= Seq::empty());
    }
}

proof fn lemma_joined_more(base: Seq<u8>, names: Seq<Seq<u8>>)
    requires
        names.len() > 0,
        are_names(names),
    ensures
        names.len() == 1 ==> joined(base, names.last()) == joined(base, slash_between(names)),
        names.len() > 1 ==> joined(joined(base, slash_between(names.drop_last())), names.last())
            == joined(base, slash_between(names)),
{
    lemma_walked_exactly(base, names);
    if names.len() > 1 {
        let front = names.drop_last();
        lemma_one_more(names);
        lemma_walked_exactly(base, front);
        assert(as_parts(names).drop_last() =~= as_parts(front));
    }
}

/// The names by way of which a streamed walk came to something.
pub open spec fn stream_trail_names(trail: Seq<(Vec<u8>, bool, bool)>) -> Seq<Seq<u8>> {
    trail.map_values(|n: (Vec<u8>, bool, bool)| n.0@)
}

/// What a streamed walk comes to stands below its start by the names by way of which it was found,
/// with one slash between each two of them.
pub proof fn law_stream_walk_exactly(src_path: Seq<u8>, trail: Seq<(Vec<u8>, bool, bool)>)
    requires
        are_names(stream_trail_names(trail)),
    ensures
        stream_come_to(src_path, trail).below == slash_between(stream_trail_names(trail)),
        trail.len() > 0 ==> stream_come_to(src_path, trail).src == joined(
            src_path,
            slash_between(stream_trail_names(trail)),
        ),
    decreases trail.len(),
{
    let names = stream_trail_names(trail);
    if trail.len() > 0 {
        let front = trail.drop_last();
        assert(names.drop_last() =~= stream_trail_names(front));
        lemma_one_more(names);
        law_stream_walk_exactly(src_path, front);
        lemma_joined_more(src_path, names);
    } else {
        assert(slash_between(names) =~= Seq::empty());
    }
}

proof fn lemma_cut_at_end(p: Seq<u8>, i: int, k: int)
    requires
        0 <= i,
        0 <= k < ends_from(p, i).len(),
    ensures
        i < ends_from(p, i)[k] <= p.len(),
        parts_from(p.take(ends_from(p, i)[k]), i) == parts_from(p, i).take(k + 1),
        k < parts_from(p, i).len(),
    decreases p.len() + 1 - i,
{
    let j = find_from(p, 47, i);
    lemma_find_from(p, 47, i);
    let e = ends_from(p, i)[k];
    let q = p.take(e);
    let rest = parts_from(p, j + 1);
    match segment_part(p.subrange(i, j)) {
        Some(part) => {
            assert(p.subrange(i, j).len() > 0);
            if k == 0 {
                assert(e == j);
                assert forall|m: int| i <= m < j implies q[m] != 47 by {
                    assert(q[m] == p[m]);
                }
                lemma_find_from_is(q, 47, i, j);
                assert(q.subrange(i, j) =~= p.subrange(i, j));
                assert(parts_from(q, j + 1) =~= Seq::empty());
                assert(parts_from(q, i) =~= parts_from(p, i).take(1));
            } else {
                assert(e == ends_from(p, j + 1)[k - 1]);
                lemma_cut_at_end(p, j + 1, k - 1);
                lemma_find_in_start(p, i, e);
                assert(q.subrange(i, j) =~= p.subrange(i, j));
                assert(parts_from(q, i) =~= parts_from(p, i).take(k + 1));
            }
        },
        None => {
            assert(e == ends_from(p, j + 1)[k]);
            lemma_cut_at_end(p, j + 1, k);
            lemma_find_in_start(p, i, e);
            assert(q.subrange(i, j) =~= p.subrange(i, j));
        },
    }
}

proof fn lemma_find_in_start(p: Seq<u8>, i: int, e: int)
    requires
        0 <= i <= find_from(p, 47, i) < e <= p.len(),
    ensures
        find_from(p.take(e), 47, i) == find_from(p, 47, i),
{
    let j = find_from(p, 47, i);
    lemma_find_from(p, 47, i);
    assert forall|m: int| i <= m < j implies p.take(e)[m] != 47 by {
        assert(p.take(e)[m] == p[m]);
    }
    lemma_find_from_is(p.take(e), 47, i, j);
}

/// The parent of a path has all its components but the last one. Only a path without a component and
/// the root have none.
pub proof fn law_parent(p: Seq<u8>)
    ensures
        parent_of(p) is None <==> parts(p).len() == 0 || parts(p).last() is RootDir,
        parent_of(p) matches Some(q) ==> parts(q) == parts(p).drop_last() && q.len() < p.len() && q
            == p.take(q.len() as int),
{
    let n = parts(p).len();
    lemma_ends(p);
    if parent_of(p) is Some {
        let q = parent_of(p)->Some_0;
        if n == 1 {
            assert(q =~= p.take(0));
            assert(parts(q) =~= parts(p).drop_last());
            assert(ends(p)[0] > 0);
        } else {
            let e = ends(p)[n - 2];
            assert(e < ends(p)[n - 1]);
            let list = parts_from(p, 0);
            if lead(p) is Some {
                if n == 2 {
                    assert(e == 1);
                    lemma_lone_lead(p);
                    assert(parts(q) =~= parts(p).drop_last());
                } else {
                    assert(e == ends_from(p, 0)[n - 3]);
                    lemma_cut_at_end(p, 0, n - 3);
                    lemma_ends_order(p, n - 2);
                    assert(lead(q) == lead(p));
                    assert(parts(q) =~= parts(p).drop_last());
                }
            } else {
                lemma_cut_at_end(p, 0, n - 2);
                assert(ends(p)[n - 2] == e);
                lemma_no_lead_in_start(p, e);
                assert(parts(q) =~= parts(p).drop_last());
            }
        }
    }
}

proof fn lemma_ends_order(p: Seq<u8>, k: int)
    requires
        lead(p) is Some,
        0 < k < ends(p).len(),
    ensures
        1 < ends(p)[k],
{
    lemma_ends(p);
    assert(ends(p)[0] == 1);
    assert(ends(p)[0] < ends(p)[k]);
}

proof fn lemma_lone_lead(p: Seq<u8>)
    requires
        lead(p) is Some,
    ensures
        parts(p.take(1)) == seq![lead(p)->Some_0],
{
    let q = p.take(1);
    if p[0] == 47 {
        assert(find_from(q, 47, 0) == 0);
    } else {
        lemma_find_from_is(q, 47, 0, 1);
        assert(q.subrange(0, 1) =~= seq![46u8]);
    }
    reveal_with_fuel(parts_from, 3);
    assert(parts_from(q, 0) =~= Seq::empty());
    assert(parts(q) =~= seq![lead(p)->Some_0]);
}

proof fn lemma_no_lead_in_start(p: Seq<u8>, e: int)
    requires
        0 < e <= p.len(),
        lead(p) is None,
        ends(p).contains(e),
    ensures
        lead(p.take(e)) is None,
{
    let q = p.take(e);
    if lead(q) is Some {
        // Only a `.` that is all of the start can lead it, and none is a component by itself.
        assert(q[0] == p[0]);
        assert(e == 1);
        let k = choose|k: int| 0 <= k < ends(p).len() && ends(p)[k] == 1;
        lemma_cut_at_end(p, 0, k);
        lemma_lone_lead(q);
        assert(q.take(1) =~= q);
        assert(parts(q) =~= seq![Part::CurDir] + parts_from(q, 0));
        assert(parts_from(q, 0).len() == 0);
        assert(parts_from(p, 0).take(k + 1).len() == k + 1);
    }
}

/// With the options that an archive starts out with, a file gets the permissions and the time that
/// its header states, and no owner and no extended attributes. It takes the place of a file that
/// exists.
pub proof fn law_default_unpacking(e: EntryView, mode: u32, uid: u32, gid: u32, mtime: u64)
    requires
        e.options == default_options(),
        states(e.header, 100, 108, mode as int),
        states(e.header, 108, 116, uid as int),
        states(e.header, 116, 124, gid as int),
        states(e.header, 136, 148, mtime as int),
    ensures
        file_plan(e).mode == Some((mode % 0o1000) as u32),
        file_plan(e).mtime == Some(mtime),
        file_plan(e).owner is None,
        file_plan(e).xattrs.len() == 0,
        file_plan(e).overwrite,
{
    law_plan_as_stated(e, mode, uid, gid, mtime);
    assert((mode & 0o777) & !0u32 == mode % 0o1000) by (bit_vector);
}

} // verus!
