//! What walks over directories come to stands in the archive as it stands in the file system.

use crate::builder::{dir_place, found_in, DirPlace};
use crate::path::{joined, lead, parts, parts_from, Part};
use crate::stored_path::lemma_parts_split;
use crate::stream_walk::{places_in, stream_place, StreamPlace};
use crate::unpack::{is_name, lemma_parts_joined};
use vstd::prelude::*;

verus! {

/// A path that is extended by another one has the components of both, with one slash between them. A
/// path that starts at the root stands for itself.
pub proof fn law_joined(base: Seq<u8>, p: Seq<u8>)
    ensures
        p.len() > 0 && p[0] == 47 ==> joined(base, p) == p,
        lead(p) is None ==> parts(joined(base, p)) == parts(base) + parts(p),
        base.len() == 0 ==> joined(base, p) == p,
        !(p.len() > 0 && p[0] == 47) && base.len() > 0 && base.last() == 47 ==> joined(base, p)
            == base + p,
        !(p.len() > 0 && p[0] == 47) && base.len() > 0 && base.last() != 47 ==> joined(base, p)
            == base + seq![47u8] + p,
{
    let q = joined(base, p);
    assert(base.push(47u8) + p =~= base + seq![47u8] + p);
    if lead(p) is None {
        if base.len() == 0 {
            assert(q =~= p);
            assert(parts(base) =~= Seq::empty());
            assert(parts(q) =~= parts(base) + parts(p));
        } else if base.last() == 47 {
            let n = base.len() - 1;
            lemma_parts_split(q, n, 0);
            assert(q.take(n) =~= base.take(n));
            assert(q.skip(n + 1) =~= p);
            lemma_parts_split(base, n, 0);
            assert(parts_from(base.skip(n + 1), 0) =~= Seq::empty());
            assert(parts_from(base, 0) =~= parts_from(base.take(n), 0));
            assert(lead(q) == lead(base));
            assert(parts(q) =~= parts(base) + parts(p));
        } else {
            let n = base.len() as int;
            lemma_parts_split(q, n, 0);
            assert(q.take(n) =~= base);
            assert(q.skip(n + 1) =~= p);
            assert(lead(q) == lead(base));
            assert(parts(q) =~= parts(base) + parts(p));
        }
    } else if base.len() == 0 {
        assert(q =~= p);
    }
}

/// The components that some names stand for.
pub open spec fn name_parts(trail: Seq<(Vec<u8>, bool)>) -> Seq<Part> {
    trail.map_values(|n: (Vec<u8>, bool)| Part::Normal(n.0@))
}

/// What a walk that starts at `src_path` comes to by way of the given names: the first was found in
/// the directory it starts in, and each other one in the one before it.
pub open spec fn come_to(src_path: Seq<u8>, trail: Seq<(Vec<u8>, bool)>) -> DirPlace
    decreases trail.len(),
{
    if trail.len() == 0 {
        DirPlace { src: src_path, below: Seq::empty(), is_dir: true }
    } else {
        found_in(come_to(src_path, trail.drop_last()), seq![trail.last()])[0]
    }
}

proof fn lemma_name_has_no_lead(below: Seq<u8>, list: Seq<Part>)
    requires
        parts(below) == list,
        forall|k: int| 0 <= k < list.len() ==> #[trigger] list[k] is Normal,
    ensures
        lead(below) is None,
{
    if lead(below) is Some {
        assert(parts(below)[0] == lead(below)->Some_0);
        assert(list[0] is Normal);
    }
}

proof fn lemma_come_to(src_path: Seq<u8>, trail: Seq<(Vec<u8>, bool)>)
    requires
        forall|k: int| 0 <= k < trail.len() ==> is_name((#[trigger] trail[k]).0@),
    ensures
        parts(come_to(src_path, trail).src) == parts(src_path) + name_parts(trail),
        parts(come_to(src_path, trail).below) == name_parts(trail),
    decreases trail.len(),
{
    if trail.len() == 0 {
        assert(name_parts(trail) =~= Seq::empty());
        assert(parts(Seq::<u8>::empty()) =~= Seq::empty());
        assert(parts(src_path) + name_parts(trail) =~= parts(src_path));
    } else {
        let front = trail.drop_last();
        let n = trail.last();
        assert forall|k: int| 0 <= k < front.len() implies is_name((#[trigger] front[k]).0@) by {
            assert(front[k] == trail[k]);
        }
        assert(is_name(trail[trail.len() - 1].0@));
        lemma_come_to(src_path, front);
        let dir = come_to(src_path, front);
        lemma_parts_joined(dir.src, n.0@);
        lemma_parts_joined(dir.below, n.0@);
        assert(name_parts(trail) =~= name_parts(front).push(Part::Normal(n.0@)));
        assert(parts(src_path) + name_parts(trail) =~= (parts(src_path) + name_parts(front)).push(
            Part::Normal(n.0@),
        ));
    }
}

/// Whatever a walk comes to, at any depth, its place in the archive is the one it has in the file
/// system.
///
/// Its path in the file system is the path that the walk started at, and then the names by way of
/// which it was found. The same names, and nothing else, follow the path that it is added below. Only a
/// directory for which neither has a component is left out.
pub proof fn law_walk_in_place(src_path: Seq<u8>, path: Seq<u8>, trail: Seq<(Vec<u8>, bool)>)
    requires
        forall|k: int| 0 <= k < trail.len() ==> is_name((#[trigger] trail[k]).0@),
    ensures
        ({
            let step = come_to(src_path, trail);
            &&& parts(step.src) == parts(src_path) + parts(step.below)
            &&& parts(step.below) == trail.map_values(|n: (Vec<u8>, bool)| Part::Normal(n.0@))
            &&& trail.len() > 0 ==> step.is_dir == trail.last().1
            &&& dir_place(path, step) is None <==> step.is_dir && trail.len() == 0 && parts(
                path,
            ).len() == 0
            &&& dir_place(path, step) matches Some(dest) ==> parts(dest) == parts(path) + parts(
                step.below,
            )
        }),
{
    lemma_come_to(src_path, trail);
    let step = come_to(src_path, trail);
    lemma_name_has_no_lead(step.below, name_parts(trail));
    law_joined(path, step.below);
}

/// All that was found in a directory is come to, in order: one place for each name.
pub proof fn law_found_each(dir: DirPlace, names: Seq<(Vec<u8>, bool)>, i: int)
    requires
        0 <= i < names.len(),
        is_name(names[i].0@),
    ensures
        found_in(dir, names).len() == names.len(),
        ({
            let step = found_in(dir, names)[i];
            &&& parts(step.src) == parts(dir.src).push(Part::Normal(names[i].0@))
            &&& parts(step.below) == parts(dir.below).push(Part::Normal(names[i].0@))
            &&& step.is_dir == names[i].1
        }),
{
    lemma_parts_joined(dir.src, names[i].0@);
    lemma_parts_joined(dir.below, names[i].0@);
}

/// What a streamed walk that starts at `src_path` comes to by way of the given names: the first was
/// found in the directory it starts in, and each other one in the one before it.
pub open spec fn stream_come_to(
    src_path: Seq<u8>,
    trail: Seq<(Vec<u8>, bool, bool)>,
) -> StreamPlace
    decreases trail.len(),
{
    if trail.len() == 0 {
        StreamPlace { src: src_path, below: Seq::empty(), is_dir: true, is_symlink: false }
    } else {
        places_in(stream_come_to(src_path, trail.drop_last()), seq![trail.last()])[0]
    }
}

/// The components that some names stand for.
pub open spec fn stream_name_parts(trail: Seq<(Vec<u8>, bool, bool)>) -> Seq<Part> {
    trail.map_values(|n: (Vec<u8>, bool, bool)| Part::Normal(n.0@))
}

proof fn lemma_stream_come_to(src_path: Seq<u8>, trail: Seq<(Vec<u8>, bool, bool)>)
    requires
        forall|k: int| 0 <= k < trail.len() ==> is_name((#[trigger] trail[k]).0@),
    ensures
        parts(stream_come_to(src_path, trail).src) == parts(src_path) + stream_name_parts(trail),
        parts(stream_come_to(src_path, trail).below) == stream_name_parts(trail),
    decreases trail.len(),
{
    if trail.len() == 0 {
        assert(stream_name_parts(trail) =~= Seq::empty());
        assert(parts(Seq::<u8>::empty()) =~= Seq::empty());
        assert(parts(src_path) + stream_name_parts(trail) =~= parts(src_path));
    } else {
        let front = trail.drop_last();
        let n = trail.last();
        assert forall|k: int| 0 <= k < front.len() implies is_name((#[trigger] front[k]).0@) by {
            assert(front[k] == trail[k]);
        }
        assert(is_name(trail[trail.len() - 1].0@));
        lemma_stream_come_to(src_path, front);
        let dir = stream_come_to(src_path, front);
        lemma_parts_joined(dir.src, n.0@);
        lemma_parts_joined(dir.below, n.0@);
        assert(stream_name_parts(trail) =~= stream_name_parts(front).push(Part::Normal(n.0@)));
        assert(parts(src_path) + stream_name_parts(trail) =~= (parts(src_path) + stream_name_parts(
            front,
        )).push(Part::Normal(n.0@)));
    }
}

/// Whatever a streamed walk comes to, at any depth, stands below the path that the walk started at
/// by the names by way of which it was found, and is looked for by the same names below the path
/// that is given. Only a directory for which neither has a component is left out.
pub proof fn law_stream_walk_in_place(
    src_path: Seq<u8>,
    path: Seq<u8>,
    trail: Seq<(Vec<u8>, bool, bool)>,
    descends: bool,
)
    requires
        forall|k: int| 0 <= k < trail.len() ==> is_name((#[trigger] trail[k]).0@),
    ensures
        ({
            let step = stream_come_to(src_path, trail);
            &&& parts(step.src) == parts(src_path) + parts(step.below)
            &&& parts(step.below) == trail.map_values(
                |n: (Vec<u8>, bool, bool)| Part::Normal(n.0@),
            )
            &&& trail.len() > 0 ==> step.is_dir == trail.last().1 && step.is_symlink
                == trail.last().2
            &&& stream_place(path, step, descends) is None <==> descends && trail.len() == 0
                && parts(path).len() == 0
            &&& stream_place(path, step, descends) matches Some(dest) ==> parts(dest) == parts(path)
                + parts(step.below)
        }),
{
    lemma_stream_come_to(src_path, trail);
    let step = stream_come_to(src_path, trail);
    lemma_name_has_no_lead(step.below, stream_name_parts(trail));
    law_joined(path, step.below);
}

/// All that was found in a directory of a streamed walk is come to, in order: one place for each
/// name.
pub proof fn law_stream_found_each(
    dir: StreamPlace,
    names: Seq<(Vec<u8>, bool, bool)>,
    i: int,
)
    requires
        0 <= i < names.len(),
        is_name(names[i].0@),
    ensures
        places_in(dir, names).len() == names.len(),
        ({
            let step = places_in(dir, names)[i];
            &&& parts(step.src) == parts(dir.src).push(Part::Normal(names[i].0@))
            &&& parts(step.below) == parts(dir.below).push(Part::Normal(names[i].0@))
            &&& step.is_dir == names[i].1
            &&& step.is_symlink == names[i].2
        }),
{
    lemma_parts_joined(dir.src, names[i].0@);
    lemma_parts_joined(dir.below, names[i].0@);
}

} // verus!
