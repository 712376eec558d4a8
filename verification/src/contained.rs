//! What is done for an entry stays inside the directory that is unpacked into.

use crate::entry::EntryView;
use crate::error::TarError;
use crate::path::{
    components, has_root, is_absolute, is_inside, joined, lead, part_text, parts, parts_from, push,
    same_part, span_parts, Component, Part, Span,
};
use crate::realpath::{
    advanced, has_names, lemma_has_names, lemma_no_lead, lemma_parts_parent, lemma_spelled,
    links_in, real_path, realpath, resolved, rooted, spelled, walk_of, Resolving, LINKS_LIMIT,
};
use crate::unpack::{
    check_inside, is_name, lemma_parts_joined, planned, Acted, Placed, Placement, Planned, Stepped,
    UnpackAction, UnpackPlan, UnpackStep,
};
use vstd::prelude::*;
use vstd::slice::slice_to_vec;

verus! {

/// Whether components that are followed from `stack` on never climb out of `base`.
///
/// Wherever a `..` leads, the components of `base` must still come first.
pub open spec fn keeps_inside(stack: Seq<Part>, list: Seq<Part>, base: Seq<Part>) -> bool
    decreases list.len(),
{
    if list.len() == 0 {
        true
    } else {
        let rest = list.skip(1);
        match list[0] {
            Part::RootDir => keeps_inside(seq![Part::RootDir], rest, base),
            Part::CurDir => keeps_inside(stack, rest, base),
            Part::ParentDir => stack.len() > 0 && base.is_prefix_of(stack.drop_last())
                && keeps_inside(stack.drop_last(), rest, base),
            Part::Normal(_) => keeps_inside(stack.push(list[0]), rest, base),
        }
    }
}

/// Whether a link name that is followed from `base` on never climbs out of it.
pub open spec fn link_keeps_inside(base: Seq<u8>, link: Seq<u8>) -> bool {
    keeps_inside(parts(base), parts(link), parts(base))
}

/// The names and the `..` of a link name. A root and a `.` at its start are dropped.
pub open spec fn link_parts(link: Seq<u8>) -> Seq<Part> {
    parts_from(link, 0)
}

/// A path that is extended by components, one after the other.
pub open spec fn extended_by(base: Seq<u8>, list: Seq<Part>) -> Seq<u8>
    decreases list.len(),
{
    if list.len() == 0 {
        base
    } else {
        joined(extended_by(base, list.drop_last()), list.last().text())
    }
}

/// Whether components climb out of a path that has `depth` components.
pub open spec fn climbs(depth: int, list: Seq<Part>) -> bool
    decreases list.len(),
{
    if list.len() == 0 {
        false
    } else if list[0] is ParentDir {
        depth <= 0 || climbs(depth - 1, list.skip(1))
    } else {
        climbs(depth + 1, list.skip(1))
    }
}

/// How many components, other than the root, the directory of a path has.
pub open spec fn depth_of(p: Seq<u8>) -> int {
    let n = if is_absolute(p) {
        parts(p).len() - 1
    } else {
        parts(p).len() as int
    };
    if n > 0 {
        n - 1
    } else {
        0
    }
}

/// Finds where the names and the `..` of a path start among its components.
fn parts_start(spans: &Vec<Span<'_>>, Ghost(p): Ghost<Seq<u8>>) -> (r: usize)
    requires
        span_parts(spans@) == parts(p),
    ensures
        r <= spans@.len(),
        span_parts(spans@).skip(r as int) == link_parts(p),
{
    let ghost list = parts(p);
    assert(span_parts(spans@).len() == spans@.len());
    proof {
        lemma_no_lead(p, 0);
    }
    if spans.len() == 0 {
        assert(list.skip(0) =~= link_parts(p));
        return 0;
    }
    assert(list[0] == spans@[0].part@);
    match spans[0].part {
        Component::RootDir | Component::CurDir => {
            assert(lead(p) is Some) by {
                if lead(p) is None {
                    assert(list[0] == parts_from(p, 0)[0]);
                }
            }
            assert(list.skip(1) =~= link_parts(p));
            1
        },
        _ => {
            assert(lead(p) is None);
            assert(list.skip(0) =~= link_parts(p));
            0
        },
    }
}

/// Returns whether there are no names and no `..` in a link name.
pub(crate) fn is_nameless(link: &[u8]) -> (r: bool)
    ensures
        r == (link_parts(link@).len() == 0),
{
    let spans: Vec<Span<'_>> = components(link);
    assert(span_parts(spans@).len() == spans@.len());
    let start: usize = parts_start(&spans, Ghost(link@));
    start == spans.len()
}

/// Returns a path that is extended by the names and the `..` of a link name.
pub fn follow_link(base: &[u8], link: &[u8]) -> (r: Vec<u8>)
    ensures
        r@ == extended_by(base@, link_parts(link@)),
{
    let spans: Vec<Span<'_>> = components(link);
    assert(span_parts(spans@).len() == spans@.len());
    let start: usize = parts_start(&spans, Ghost(link@));
    let ghost list = link_parts(link@);
    let mut r: Vec<u8> = slice_to_vec(base);
    let mut i: usize = start;
    assert(list.take(0) =~= Seq::empty());
    while i < spans.len()
        invariant
            start <= i <= spans@.len(),
            list == span_parts(spans@).skip(start as int),
            list.len() == spans@.len() - start,
            r@ == extended_by(base@, list.take(i - start)),
        decreases spans@.len() - i,
    {
        let ghost done = list.take(i - start + 1);
        assert(done.drop_last() =~= list.take(i - start));
        assert(done.last() == spans@[i as int].part@);
        let text: Vec<u8> = part_text(&spans[i].part);
        push(&mut r, text.as_slice());
        i = i + 1;
    }
    assert(list.take(i - start) =~= list);
    r
}

/// Returns whether a link at `dst` climbs out of the path that leads to it.
pub fn climbs_out(dst: &[u8], link: &[u8]) -> (r: bool)
    ensures
        r == climbs(depth_of(dst@), link_parts(link@)),
{
    let at: Vec<Span<'_>> = components(dst);
    let spans: Vec<Span<'_>> = components(link);
    assert(span_parts(at@).len() == at@.len());
    assert(span_parts(spans@).len() == spans@.len());
    let start: usize = parts_start(&spans, Ghost(link@));
    let ghost list = link_parts(link@);
    let most: usize = at.len();
    let mut depth: u128 = most as u128;
    if has_root(dst) {
        assert(parts(dst@)[0] == Part::RootDir);
        depth = depth - 1;
    }
    if depth > 0 {
        depth = depth - 1;
    }
    let mut i: usize = start;
    assert(list.skip(0) =~= list);
    proof {
        lemma_no_lead(link@, 0);
    }
    while i < spans.len()
        invariant
            start <= i <= spans@.len(),
            list == span_parts(spans@).skip(start as int),
            list.len() == spans@.len() - start,
            depth <= most + i,
            climbs(depth_of(dst@), list) == climbs(depth as int, list.skip(i - start)),
            list == link_parts(link@),
        decreases spans@.len() - i,
    {
        let ghost rest = list.skip(i - start);
        assert(rest[0] == spans@[i as int].part@);
        assert(rest.skip(1) =~= list.skip(i - start + 1));
        match spans[i].part {
            Component::ParentDir => {
                if depth == 0 {
                    return true;
                }
                depth = depth - 1;
            },
            _ => {
                depth = depth + 1;
            },
        }
        i = i + 1;
    }
    false
}

/// The components that a list stands for.
spec fn component_parts(list: Seq<Component>) -> Seq<Part> {
    list.map_values(|c: Component| c@)
}

/// Returns whether the components of `base` come first in a stack.
fn starts_stack(stack: &Vec<Component<'_>>, base: &Vec<Span<'_>>) -> (r: bool)
    ensures
        r == span_parts(base@).is_prefix_of(component_parts(stack@)),
{
    let ghost b = span_parts(base@);
    let ghost s = component_parts(stack@);
    assert(b.len() == base@.len() && s.len() == stack@.len());
    if base.len() > stack.len() {
        return false;
    }
    let mut i: usize = 0;
    while i < base.len()
        invariant
            i <= base@.len() <= stack@.len(),
            b == span_parts(base@),
            s == component_parts(stack@),
            b.len() == base@.len(),
            s.len() == stack@.len(),
            forall|k: int| 0 <= k < i ==> b[k] == s[k],
        decreases base@.len() - i,
    {
        assert(b[i as int] == base@[i as int].part@);
        assert(s[i as int] == stack@[i as int]@);
        if !same_part(&stack[i], &base[i].part) {
            assert(s.subrange(0, b.len() as int)[i as int] != b[i as int]);
            return false;
        }
        i = i + 1;
    }
    assert(b =~= s.subrange(0, b.len() as int));
    true
}

/// Returns whether a link name that is followed from `base` on never climbs out of it.
pub fn check_link(base: &[u8], link: &[u8]) -> (r: bool)
    ensures
        r == link_keeps_inside(base@, link@),
{
    let root: Vec<Span<'_>> = components(base);
    let spans: Vec<Span<'_>> = components(link);
    let ghost list = parts(link@);
    assert(span_parts(spans@).len() == spans@.len());
    assert(span_parts(root@).len() == root@.len());
    let mut stack: Vec<Component<'_>> = Vec::new();
    let mut j: usize = 0;
    while j < root.len()
        invariant
            j <= root@.len() == parts(base@).len(),
            span_parts(root@) == parts(base@),
            component_parts(stack@) =~= parts(base@).take(j as int),
        decreases root@.len() - j,
    {
        let ghost before = component_parts(stack@);
        assert(parts(base@)[j as int] == root@[j as int].part@);
        stack.push(root[j].part);
        assert(component_parts(stack@) =~= before.push(parts(base@)[j as int]));
        j = j + 1;
    }
    assert(parts(base@).take(j as int) =~= parts(base@));
    let mut i: usize = 0;
    assert(list.skip(0) =~= list);
    while i < spans.len()
        invariant
            i <= spans@.len() == list.len(),
            list == parts(link@),
            span_parts(spans@) == list,
            span_parts(root@) == parts(base@),
            link_keeps_inside(base@, link@) == keeps_inside(
                component_parts(stack@),
                list.skip(i as int),
                parts(base@),
            ),
        decreases spans@.len() - i,
    {
        let ghost before = component_parts(stack@);
        assert(list[i as int] == spans@[i as int].part@);
        assert(list.skip(i as int)[0] == list[i as int]);
        assert(list.skip(i as int).skip(1) =~= list.skip(i + 1));
        assert(before.len() == stack@.len());
        match spans[i].part {
            Component::RootDir => {
                stack.clear();
                stack.push(Component::RootDir);
                assert(component_parts(stack@) =~= seq![Part::RootDir]);
            },
            Component::CurDir => {},
            Component::ParentDir => {
                if stack.pop().is_none() {
                    return false;
                }
                assert(component_parts(stack@) =~= before.drop_last());
                if !starts_stack(&stack, &root) {
                    return false;
                }
            },
            Component::Normal(name) => {
                stack.push(Component::Normal(name));
                assert(component_parts(stack@) =~= before.push(list[i as int]));
            },
        }
        i = i + 1;
    }
    true
}

/// The path that a hard link is made to.
pub open spec fn planned_source(p: Planned) -> Option<Seq<u8>> {
    match p {
        Planned::HardLink(source) => Some(source),
        _ => None,
    }
}

/// The path that a hard link is made to.
pub open spec fn acted_source(a: Acted) -> Option<Seq<u8>> {
    match a {
        Acted::HardLink(source) => Some(source),
        _ => None,
    }
}

/// The paths that must be inside the directory that is unpacked into: where something is done,
/// and what a hard link is made to.
pub open spec fn guarded(place: Placed, source: Option<Seq<u8>>) -> Seq<Seq<u8>> {
    match (place, source) {
        (Placed::At(p), Some(s)) => seq![p, s],
        (Placed::At(p), None) => seq![p],
        _ => Seq::empty(),
    }
}

/// Paths as mathematical values.
pub open spec fn path_views(list: Seq<Vec<u8>>) -> Seq<Seq<u8>> {
    list.map_values(|p: Vec<u8>| p@)
}

/// Lists the paths that must be inside the directory that is unpacked into.
fn guarded_paths(place: &Placement, source: Option<&[u8]>) -> (r: Vec<Vec<u8>>)
    ensures
        path_views(r@) == guarded(
            place@,
            match source {
                Some(s) => Some(s@),
                None => None,
            },
        ),
{
    let mut r: Vec<Vec<u8>> = Vec::new();
    if let Placement::At(p) = place {
        r.push(slice_to_vec(p.as_slice()));
        if let Some(s) = source {
            r.push(slice_to_vec(s));
        }
    }
    assert(path_views(r@) =~= guarded(
        place@,
        match source {
            Some(s) => Some(s@),
            None => None,
        },
    ));
    r
}

impl UnpackPlan {
    /// Lists the paths that must be inside the directory that is unpacked into, with all links
    /// resolved, before this is done at the given place.
    pub fn guarded_paths(&self, place: &Placement) -> (r: Vec<Vec<u8>>)
        ensures
            path_views(r@) == guarded(place@, planned_source(self@)),
    {
        match self {
            UnpackPlan::HardLink(source) => guarded_paths(place, Some(source.as_slice())),
            _ => guarded_paths(place, None),
        }
    }
}

impl UnpackStep {
    /// Lists the paths that must be inside the directory that is unpacked into, with all links
    /// resolved, before this step is done.
    pub fn guarded_paths(&self) -> (r: Vec<Vec<u8>>)
        ensures
            path_views(r@) == guarded(self@.place, acted_source(self@.action)),
    {
        match &self.action {
            UnpackAction::HardLink(source) => guarded_paths(&self.place, Some(source.as_slice())),
            _ => guarded_paths(&self.place, None),
        }
    }
}

/// Whether a path with all links resolved is inside `dst`, or why it is not.
pub open spec fn real_inside(
    p: Seq<u8>,
    dst: Seq<u8>,
    links: spec_fn(Seq<u8>) -> Option<Seq<u8>>,
) -> Result<(), TarError> {
    match real_path(p, None, links) {
        Ok(canon) => if is_inside(canon, dst) {
            Ok(())
        } else {
            Err(TarError::OutsideDestination)
        },
        Err(e) => Err(e),
    }
}

/// Whether all of some paths are inside `dst` with all links resolved, or why the first that is
/// not is not.
pub open spec fn all_inside(
    list: Seq<Seq<u8>>,
    dst: Seq<u8>,
    links: spec_fn(Seq<u8>) -> Option<Seq<u8>>,
) -> Result<(), TarError>
    decreases list.len(),
{
    if list.len() == 0 {
        Ok(())
    } else {
        match real_inside(list[0], dst, links) {
            Ok(()) => all_inside(list.skip(1), dst, links),
            Err(e) => Err(e),
        }
    }
}

/// Checks that a step can be done: with all links resolved, its place and what a hard link is
/// made to are inside `dst`.
///
/// `links` holds all links that there are. A step that is done nowhere needs no check.
pub fn check_step(step: &UnpackStep, dst: &[u8], links: &Vec<(Vec<u8>, Vec<u8>)>) -> (r: Result<
    (),
    TarError,
>)
    ensures
        r == all_inside(
            guarded(step@.place, acted_source(step@.action)),
            dst@,
            links_in(links@),
        ),
{
    let paths: Vec<Vec<u8>> = step.guarded_paths();
    let ghost list = path_views(paths@);
    let ghost table = links_in(links@);
    let mut i: usize = 0;
    assert(list.len() == paths@.len());
    assert(list.skip(0) =~= list);
    while i < paths.len()
        invariant
            i <= paths@.len() == list.len(),
            list == path_views(paths@),
            list == guarded(step@.place, acted_source(step@.action)),
            table == links_in(links@),
            all_inside(list, dst@, table) == all_inside(list.skip(i as int), dst@, table),
        decreases paths@.len() - i,
    {
        assert(list.skip(i as int)[0] == paths@[i as int]@);
        assert(list.skip(i as int).skip(1) =~= list.skip(i + 1));
        let canon: Vec<u8> = match realpath(paths[i].as_slice(), None, links) {
            Ok(canon) => canon,
            Err(e) => {
                return Err(e);
            },
        };
        match check_inside(dst, canon.as_slice()) {
            Ok(()) => {},
            Err(e) => {
                return Err(e);
            },
        }
        i = i + 1;
    }
    Ok(())
}

/// A step that passes the check is inside the directory that is unpacked into, even where links
/// lead elsewhere: so is the place where something is done, and so is what a hard link is made to.
pub proof fn law_checked_inside(
    step: Stepped,
    dst: Seq<u8>,
    links: spec_fn(Seq<u8>) -> Option<Seq<u8>>,
)
    requires
        all_inside(guarded(step.place, acted_source(step.action)), dst, links) is Ok,
        step.place is At,
    ensures
        real_path(step.place->At_0, None, links) matches Ok(p) && is_inside(p, dst),
        step.action matches Acted::HardLink(source) ==> (real_path(source, None, links) matches Ok(
            s,
        ) && is_inside(s, dst)),
{
    let list = guarded(step.place, acted_source(step.action));
    reveal_with_fuel(all_inside, 3);
    assert(list[0] == step.place->At_0);
    if let Acted::HardLink(source) = step.action {
        assert(list.skip(1)[0] == source);
    }
}

/// A path that is extended by components has them behind its own.
pub proof fn lemma_parts_behind(base: Seq<u8>, list: Seq<Part>)
    requires
        has_names(list),
        forall|k: int| 0 <= k < list.len() ==> (#[trigger] list[k] is Normal || list[k] is ParentDir),
    ensures
        parts(extended_by(base, list)) == parts(base) + list,
    decreases list.len(),
{
    if list.len() == 0 {
        assert(parts(base) + list =~= parts(base));
    } else {
        let less = list.drop_last();
        let last = list[list.len() - 1];
        assert forall|k: int| 0 <= k < less.len() implies (#[trigger] less[k] is Normal
            || less[k] is ParentDir) by {
            assert(less[k] == list[k]);
        }
        assert forall|k: int| 0 <= k < less.len() implies (#[trigger] less[k] matches Part::Normal(
            name,
        ) ==> is_name(name)) by {
            assert(less[k] == list[k]);
        }
        lemma_parts_behind(base, less);
        let before = extended_by(base, less);
        match last {
            Part::Normal(name) => {
                lemma_parts_joined(before, name);
            },
            _ => {
                lemma_parts_parent(before);
            },
        }
        assert((parts(base) + less).push(last) =~= parts(base) + list);
    }
}

/// Names are followed one by one where there are no links.
proof fn lemma_enter(
    base: Seq<Seq<u8>>,
    k: int,
    ahead: Seq<Part>,
    left: int,
    links: spec_fn(Seq<u8>) -> Option<Seq<u8>>,
)
    requires
        0 <= k <= base.len(),
        forall|p: Seq<u8>| #[trigger] links(p) is None,
    ensures
        resolved(
            Resolving {
                names: base.take(k),
                ahead: base.skip(k).map_values(|name: Seq<u8>| Part::Normal(name)) + ahead,
                left,
            },
            links,
        ) == resolved(Resolving { names: base, ahead, left }, links),
    decreases base.len() - k,
{
    let mapped = base.skip(k).map_values(|name: Seq<u8>| Part::Normal(name));
    let s = Resolving { names: base.take(k), ahead: mapped + ahead, left };
    if k == base.len() {
        assert(base.take(k) =~= base);
        assert(mapped + ahead =~= ahead);
    } else {
        assert(s.ahead[0] == Part::Normal(base[k]));
        assert(base.take(k).push(base[k]) =~= base.take(k + 1));
        assert(s.ahead.skip(1) =~= base.skip(k + 1).map_values(
            |name: Seq<u8>| Part::Normal(name),
        ) + ahead);
        assert(links(spelled(s.names.push(base[k]))) is None);
        lemma_enter(base, k + 1, ahead, left, links);
    }
}

/// Components that never climb out of a directory lead inside, where there are no links.
proof fn lemma_follow(
    base: Seq<Seq<u8>>,
    names: Seq<Seq<u8>>,
    ahead: Seq<Part>,
    left: int,
    links: spec_fn(Seq<u8>) -> Option<Seq<u8>>,
) -> (end: Seq<Seq<u8>>)
    requires
        forall|k: int| 0 <= k < names.len() ==> is_name(#[trigger] names[k]),
        has_names(ahead),
        forall|k: int|
            0 <= k < ahead.len() ==> (#[trigger] ahead[k] is Normal || ahead[k] is ParentDir),
        base.is_prefix_of(names),
        keeps_inside(rooted(names), ahead, rooted(base)),
        forall|p: Seq<u8>| #[trigger] links(p) is None,
    ensures
        resolved(Resolving { names, ahead, left }, links) == Ok::<Seq<u8>, TarError>(spelled(end)),
        base.is_prefix_of(end),
        forall|k: int| 0 <= k < end.len() ==> is_name(#[trigger] end[k]),
    decreases ahead.len(),
{
    let s = Resolving { names, ahead, left };
    if ahead.len() == 0 {
        names
    } else {
        let rest = ahead.skip(1);
        assert forall|k: int| 0 <= k < rest.len() implies (#[trigger] rest[k] is Normal
            || rest[k] is ParentDir) by {
            assert(rest[k] == ahead[k + 1]);
        }
        assert forall|k: int| 0 <= k < rest.len() implies (#[trigger] rest[k] matches Part::Normal(
            name,
        ) ==> is_name(name)) by {
            assert(rest[k] == ahead[k + 1]);
        }
        match ahead[0] {
            Part::Normal(name) => {
                let more = names.push(name);
                assert(rooted(more) =~= rooted(names).push(ahead[0]));
                assert(base =~= more.take(base.len() as int));
                assert(links(spelled(more)) is None);
                assert(resolved(s, links) == resolved(
                    Resolving { names: more, ahead: rest, left },
                    links,
                ));
                lemma_follow(base, more, rest, left, links)
            },
            _ => {
                let less = names.drop_last();
                let up = rooted(names).drop_last();
                assert(rooted(base).len() == base.len() + 1);
                assert(rooted(names).len() == names.len() + 1);
                assert(up.len() == names.len());
                assert(names.len() > base.len());
                assert(up =~= rooted(less));
                assert(base =~= less.take(base.len() as int));
                let t = Resolving { names: less, ahead: rest, left };
                assert(advanced(s) == advanced(t));
                assert(resolved(s, links) == resolved(t, links));
                lemma_follow(base, less, rest, left, links)
            },
        }
    }
}

/// An absolute path that is extended by components is absolute.
proof fn lemma_extended_absolute(base: Seq<u8>, list: Seq<Part>)
    requires
        is_absolute(base),
    ensures
        is_absolute(extended_by(base, list)),
    decreases list.len(),
{
    if list.len() > 0 {
        lemma_extended_absolute(base, list.drop_last());
    }
}

/// What a hard link with a relative name is made to is inside the directory that is unpacked
/// into, where no symbolic links lead elsewhere.
///
/// The directory is given by the names that lead to it from the root.
pub proof fn law_hard_link_inside(
    e: EntryView,
    place: Seq<u8>,
    names: Seq<Seq<u8>>,
    links: spec_fn(Seq<u8>) -> Option<Seq<u8>>,
)
    requires
        forall|k: int| 0 <= k < names.len() ==> is_name(#[trigger] names[k]),
        forall|p: Seq<u8>| #[trigger] links(p) is None,
        e.link() matches Some(link) && !is_absolute(link),
    ensures
        planned(e, place, Some(spelled(names))) matches Ok(Planned::HardLink(source)) ==> (real_path(
            source,
            None,
            links,
        ) matches Ok(p) && is_inside(p, spelled(names))),
{
    let dst = spelled(names);
    let link = e.link()->Some_0;
    if let Ok(Planned::HardLink(source)) = planned(e, place, Some(dst)) {
        let ahead = parts_from(link, 0);
        lemma_spelled(names);
        lemma_no_lead(link, 0);
        lemma_has_names(link);
        assert(has_names(ahead)) by {
            assert forall|k: int| 0 <= k < ahead.len() implies (
            #[trigger] ahead[k] matches Part::Normal(name) ==> is_name(name)) by {
                if lead(link) is Some {
                    assert(parts(link)[k + 1] == ahead[k]);
                } else {
                    assert(parts(link)[k] == ahead[k]);
                }
            }
        }
        lemma_parts_behind(dst, ahead);
        lemma_extended_absolute(dst, ahead);
        if lead(link) is Some {
            assert(parts(link).skip(1) =~= ahead);
        }
        assert(names =~= names.take(names.len() as int));
        assert(keeps_inside(rooted(names), ahead, rooted(names)));
        let end = lemma_follow(names, names, ahead, LINKS_LIMIT as int, links);
        lemma_spelled(end);
        let s = walk_of(source);
        let mapped = names.skip(0).map_values(|name: Seq<u8>| Part::Normal(name));
        let t = Resolving { names: Seq::empty(), ahead: mapped + ahead, left: LINKS_LIMIT as int };
        assert(names.skip(0) =~= names);
        assert(s.ahead[0] == Part::RootDir);
        assert(s.ahead.skip(1) =~= t.ahead);
        assert(advanced(s) == advanced(t));
        assert(resolved(s, links) == resolved(t, links));
        assert(names.take(0) =~= Seq::empty());
        lemma_enter(names, 0, ahead, LINKS_LIMIT as int, links);
        assert(joined(Seq::empty(), source) =~= source);
        let p = spelled(end);
        assert(rooted(names) =~= rooted(end).take(names.len() + 1int));
    }
}

} // verus!
