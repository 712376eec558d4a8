//! Where the links point that unpacking makes.

use crate::contained::{
    climbs, depth_of, keeps_inside, lemma_parts_behind, link_keeps_inside, link_parts,
};
use crate::entry::EntryView;
use crate::error::TarError;
use crate::path::{is_absolute, joined, lead, parts, parts_from, Part};
use crate::path_laws::{behind_lead, law_parts_at_slash};
use crate::realpath::{has_names, lemma_has_names, lemma_no_lead};
use crate::unpack::{is_name, lemma_parts_joined, planned, Planned};
use vstd::prelude::*;

verus! {

/// How many of the first `n` components are `..`.
pub open spec fn parents_among(list: Seq<Part>, n: int) -> int
    decreases n,
{
    if n <= 0 {
        0
    } else {
        parents_among(list, n - 1) + if list[n - 1] is ParentDir {
            1int
        } else {
            0
        }
    }
}

/// How far above its start a path is after its first `n` components.
pub open spec fn height(list: Seq<Part>, n: int) -> int {
    parents_among(list, n) - (n - parents_among(list, n))
}

proof fn lemma_parents_shift(list: Seq<Part>, n: int)
    requires
        0 < n <= list.len(),
    ensures
        parents_among(list, n) == parents_among(list.skip(1), n - 1) + if list[0] is ParentDir {
            1int
        } else {
            0
        },
    decreases n,
{
    if n == 1 {
        reveal_with_fuel(parents_among, 2);
    } else {
        lemma_parents_shift(list, n - 1);
        assert(list.skip(1)[n - 2] == list[n - 1]);
    }
}

/// Components climb out of a path of some depth exactly if somewhere along them there were more
/// `..` than names and components of the path together.
pub proof fn law_climbs(depth: int, list: Seq<Part>)
    requires
        depth >= 0,
    ensures
        climbs(depth, list) <==> exists|n: int|
            0 <= n <= list.len() && #[trigger] height(list, n) > depth,
    decreases list.len(),
{
    reveal_with_fuel(parents_among, 2);
    if list.len() == 0 {
        assert(forall|n: int| 0 <= n <= list.len() ==> #[trigger] height(list, n) == 0);
    } else {
        let rest = list.skip(1);
        let next = if list[0] is ParentDir {
            depth - 1
        } else {
            depth + 1
        };
        assert(height(list, 0) == 0);
        if list[0] is ParentDir && depth == 0 {
            assert(height(list, 1) == 1);
        } else {
            law_climbs(next, rest);
            if climbs(next, rest) {
                let n = choose|n: int| 0 <= n <= rest.len() && #[trigger] height(rest, n) > next;
                lemma_parents_shift(list, n + 1);
                assert(height(list, n + 1) > depth);
            }
            if exists|n: int| 0 <= n <= list.len() && #[trigger] height(list, n) > depth {
                let n = choose|n: int| 0 <= n <= list.len() && #[trigger] height(list, n) > depth;
                lemma_parents_shift(list, n);
                assert(height(rest, n - 1) > next);
            }
        }
    }
}

proof fn lemma_no_parents(list: Seq<Part>, n: int)
    requires
        0 <= n <= list.len(),
        forall|k: int| 0 <= k < list.len() ==> !(#[trigger] list[k] is ParentDir),
    ensures
        parents_among(list, n) == 0,
    decreases n,
{
    if n > 0 {
        lemma_no_parents(list, n - 1);
        assert(!(list[n - 1] is ParentDir));
    }
}

/// Components without a `..` never climb out.
pub proof fn law_no_parent_no_climb(depth: int, list: Seq<Part>)
    requires
        depth >= 0,
        forall|k: int| 0 <= k < list.len() ==> !(#[trigger] list[k] is ParentDir),
    ensures
        !climbs(depth, list),
{
    law_climbs(depth, list);
    assert forall|n: int| 0 <= n <= list.len() implies #[trigger] height(list, n) <= depth by {
        lemma_no_parents(list, n);
    }
}

proof fn lemma_keeps_inside(base: Seq<Part>, extra: Seq<Part>, list: Seq<Part>)
    requires
        forall|k: int| 0 <= k < list.len() ==> (#[trigger] list[k] is Normal || list[k] is ParentDir),
    ensures
        keeps_inside(base + extra, list, base) <==> !climbs(extra.len() as int, list),
    decreases list.len(),
{
    if list.len() > 0 {
        let rest = list.skip(1);
        let stack = base + extra;
        assert forall|k: int| 0 <= k < rest.len() implies (#[trigger] rest[k] is Normal || rest[k]
            is ParentDir) by {
            assert(rest[k] == list[k + 1]);
        }
        match list[0] {
            Part::Normal(_) => {
                lemma_keeps_inside(base, extra.push(list[0]), rest);
                assert(stack.push(list[0]) =~= base + extra.push(list[0]));
            },
            _ => {
                if extra.len() > 0 {
                    lemma_keeps_inside(base, extra.drop_last(), rest);
                    assert(stack.drop_last() =~= base + extra.drop_last());
                    assert(base.is_prefix_of(base + extra.drop_last()));
                } else {
                    assert(stack =~= base);
                }
            },
        }
    }
}

proof fn lemma_link_parts(link: Seq<u8>)
    ensures
        link_parts(link) == behind_lead(parts(link)),
        has_names(link_parts(link)),
        forall|k: int|
            0 <= k < link_parts(link).len() ==> (#[trigger] link_parts(link)[k] is Normal
                || link_parts(link)[k] is ParentDir),
{
    lemma_no_lead(link, 0);
    lemma_has_names(link);
    let list = parts_from(link, 0);
    if lead(link) is Some {
        assert(parts(link).skip(1) =~= list);
        assert forall|k: int| 0 <= k < list.len() implies (#[trigger] list[k] matches Part::Normal(
            name,
        ) ==> is_name(name)) by {
            assert(parts(link)[k + 1] == list[k]);
        }
    } else {
        if list.len() > 0 {
            assert(list[0] is Normal || list[0] is ParentDir);
        }
    }
}

/// A relative link name stays inside any directory that it is followed from exactly if, along its
/// components, there are never more `..` than names.
pub proof fn law_link_keeps_inside(base: Seq<u8>, link: Seq<u8>)
    requires
        !is_absolute(link),
    ensures
        link_keeps_inside(base, link) <==> forall|n: int|
            0 <= n <= behind_lead(parts(link)).len() ==> #[trigger] height(
                behind_lead(parts(link)),
                n,
            ) <= 0,
{
    lemma_link_parts(link);
    let list = link_parts(link);
    let stack = parts(base);
    assert(stack + Seq::<Part>::empty() =~= stack);
    lemma_keeps_inside(stack, Seq::empty(), list);
    law_climbs(0, list);
    if lead(link) is Some {
        assert(parts(link)[0] is CurDir);
        assert(parts(link).skip(1) =~= list);
    }
    assert(link_keeps_inside(base, link) == keeps_inside(stack, list, stack));
}

/// A symbolic link points to the names and the `..` of its link name, without a root or a `.` at
/// its start. It is refused only if there are none, or, outside of any directory that is unpacked
/// into, if it climbs out of the path that leads to it; below such a directory, a link to the root
/// can be made too.
pub proof fn law_symlink_target(
    e: EntryView,
    link: Seq<u8>,
    dst: Seq<u8>,
    root: Option<Seq<u8>>,
)
    requires
        e.header[156] == 50,
        e.link() == Some(link),
    ensures
        ({
            let list = behind_lead(parts(link));
            let r = planned(e, dst, root);
            &&& r is Ok ==> r->Ok_0 is Symlink
            &&& list.len() > 0 ==> (r matches Ok(Planned::Symlink(target)) ==> parts(target) == list)
            &&& list.len() == 0 && root is Some && link.len() > 0 && link[0] == 47 ==> (
            r matches Ok(Planned::Symlink(target)) && target == seq![47u8])
            &&& list.len() == 0 && (root is None || link.len() == 0 || link[0] != 47) ==> r == Err::<
                Planned,
                TarError,
            >(TarError::LinkNameEmpty)
            &&& list.len() > 0 && root is Some ==> r is Ok
            &&& list.len() > 0 && root is None ==> (r == Err::<Planned, TarError>(
                TarError::OutsideDestination,
            ) <==> exists|n: int| 0 <= n <= list.len() && #[trigger] height(list, n) > depth_of(dst))
            &&& list.len() > 0 && r is Err ==> r == Err::<Planned, TarError>(
                TarError::OutsideDestination,
            )
        }),
{
    lemma_link_parts(link);
    let list = link_parts(link);
    lemma_parts_behind(Seq::empty(), list);
    assert(parts(Seq::<u8>::empty()) =~= Seq::empty());
    assert(Seq::<Part>::empty() + list =~= list);
    law_climbs(depth_of(dst), list);
}

/// Components without a `..` climb out of nothing.
proof fn lemma_no_parent_inside(stack: Seq<Part>, list: Seq<Part>, base: Seq<Part>)
    requires
        forall|k: int| 0 <= k < list.len() ==> !(#[trigger] list[k] is ParentDir),
    ensures
        keeps_inside(stack, list, base),
    decreases list.len(),
{
    if list.len() > 0 {
        let rest = list.skip(1);
        assert forall|k: int| 0 <= k < rest.len() implies !(#[trigger] rest[k] is ParentDir) by {
            assert(rest[k] == list[k + 1]);
        }
        assert(!(list[0] is ParentDir));
        match list[0] {
            Part::RootDir => lemma_no_parent_inside(seq![Part::RootDir], rest, base),
            Part::Normal(_) => lemma_no_parent_inside(stack.push(list[0]), rest, base),
            _ => lemma_no_parent_inside(stack, rest, base),
        }
    }
}

/// A hard link points to what its link name means below the directory that is unpacked into, or from
/// the root if it starts there; outside of any such directory it points to the names and the `..` of
/// its link name. It is refused only if there are none, or if it climbs out.
pub proof fn law_hard_link_target(
    e: EntryView,
    link: Seq<u8>,
    dst: Seq<u8>,
    root: Option<Seq<u8>>,
)
    requires
        e.header[156] == 49,
        e.link() == Some(link),
    ensures
        ({
            let list = behind_lead(parts(link));
            let r = planned(e, dst, root);
            &&& list.len() == 0 <==> r == Err::<Planned, TarError>(TarError::LinkNameEmpty)
            &&& list.len() > 0 && r is Err ==> r == Err::<Planned, TarError>(
                TarError::OutsideDestination,
            )
            &&& r is Ok ==> r->Ok_0 is HardLink
            &&& r matches Ok(Planned::HardLink(target)) ==> parts(target) == (match root {
                None => Seq::empty(),
                Some(base) => if link[0] == 47 {
                    seq![Part::RootDir]
                } else {
                    parts(base)
                },
            }) + list
            &&& list.len() > 0 && root is None ==> (r is Err <==> exists|n: int|
                0 <= n <= list.len() && #[trigger] height(list, n) > depth_of(dst))
            &&& list.len() > 0 && root is Some && link[0] != 47 ==> (r is Err <==> exists|n: int|
                0 <= n <= list.len() && #[trigger] height(list, n) > 0)
            &&& list.len() > 0 && root is Some && link[0] == 47 && (forall|k: int|
                0 <= k < list.len() ==> !(#[trigger] list[k] is ParentDir)) ==> r is Ok
        }),
{
    lemma_link_parts(link);
    let list = link_parts(link);
    assert(parts(Seq::<u8>::empty()) =~= Seq::empty());
    let r = planned(e, dst, root);
    assert(link.len() == 0 ==> list =~= Seq::empty());
    match root {
        None => {
            lemma_parts_behind(Seq::empty(), list);
            law_climbs(depth_of(dst), list);
        },
        Some(base) => {
            if link.len() > 0 && link[0] == 47 {
                let top = seq![47u8];
                lemma_parts_behind(top, list);
                law_parts_at_slash(top, 0);
                assert(top.skip(1) =~= Seq::empty());
                assert(parts(top) =~= seq![Part::RootDir]);
                if forall|k: int| 0 <= k < list.len() ==> !(#[trigger] list[k] is ParentDir) {
                    lemma_no_parent_inside(seq![Part::RootDir], list, parts(base));
                    assert(parts(link).skip(1) =~= list);
                }
            } else {
                lemma_parts_behind(base, list);
                law_link_keeps_inside(base, link);
            }
        },
    }
}

/// What stands in a directory is as deep as the directory has components besides the root.
pub proof fn law_depth(base: Seq<u8>, name: Seq<u8>)
    requires
        is_name(name),
    ensures
        depth_of(joined(base, name)) == if base.len() > 0 && base[0] == 47 {
            parts(base).len() - 1
        } else {
            parts(base).len() as int
        },
{
    lemma_parts_joined(base, name);
    assert(name.contains(name[0]));
    if base.len() > 0 {
        assert(joined(base, name)[0] == base[0]);
    } else {
        assert(joined(base, name) =~= name);
    }
    if base.len() > 0 && base[0] == 47 {
        assert(parts(base)[0] is RootDir);
    }
}

} // verus!
