//! Where a path leads: by names, by `..` and through links.

use crate::contained::{all_inside, guarded};
use crate::dir_laws::law_joined;
use crate::error::TarError;
use crate::path::{is_absolute, joined, lead, parts, Part};
use crate::path_laws::{behind_lead, law_parts_at_slash};
use crate::realpath::{
    advanced, answered, asked, has_names, lemma_advanced, lemma_has_names, lemma_no_lead,
    lemma_parts_parent, lemma_spelled, moved, real_path, resolved, rooted, spelled, Resolving,
    LINKS_LIMIT,
};
use crate::unpack::{is_name, lemma_parts_joined, placed, Placed};
use crate::unpack_laws::law_placed_completely;
use vstd::prelude::*;

verus! {

/// Where components lead from some names on, if nothing is a link.
spec fn led(names: Seq<Seq<u8>>, list: Seq<Part>) -> Seq<Seq<u8>>
    decreases list.len(),
{
    if list.len() == 0 {
        names
    } else {
        match list[0] {
            Part::Normal(name) => led(names.push(name), list.skip(1)),
            _ => led(moved(names, list[0]), list.skip(1)),
        }
    }
}

proof fn lemma_led(
    names: Seq<Seq<u8>>,
    list: Seq<Part>,
    left: int,
    links: spec_fn(Seq<u8>) -> Option<Seq<u8>>,
)
    requires
        forall|p: Seq<u8>| #[trigger] links(p) is None,
    ensures
        resolved(Resolving { names, ahead: list, left }, links) == Ok::<Seq<u8>, TarError>(
            spelled(led(names, list)),
        ),
    decreases list.len(),
{
    let s = Resolving { names, ahead: list, left };
    if list.len() > 0 {
        let rest = list.skip(1);
        match list[0] {
            Part::Normal(name) => {
                lemma_led(names.push(name), rest, left, links);
                assert(links(spelled(names.push(name))) is None);
            },
            _ => {
                let t = Resolving { names: moved(names, list[0]), ahead: rest, left };
                lemma_led(t.names, rest, left, links);
                assert(advanced(s) == advanced(t));
            },
        }
    }
}

proof fn lemma_led_more(names: Seq<Seq<u8>>, list: Seq<Part>, part: Part)
    ensures
        led(names, list.push(part)) == match part {
            Part::Normal(name) => led(names, list).push(name),
            _ => moved(led(names, list), part),
        },
    decreases list.len(),
{
    let more = list.push(part);
    reveal_with_fuel(led, 2);
    if list.len() == 0 {
        assert(more.skip(1) =~= Seq::empty());
    } else {
        assert(more.skip(1) =~= list.skip(1).push(part));
        match list[0] {
            Part::Normal(name) => {
                lemma_led_more(names.push(name), list.skip(1), part);
            },
            _ => {
                lemma_led_more(moved(names, list[0]), list.skip(1), part);
            },
        }
    }
}

proof fn lemma_led_names(names: Seq<Seq<u8>>, list: Seq<Part>)
    requires
        forall|k: int| 0 <= k < names.len() ==> is_name(#[trigger] names[k]),
        has_names(list),
    ensures
        forall|k: int| 0 <= k < led(names, list).len() ==> is_name(#[trigger] led(names, list)[k]),
    decreases list.len(),
{
    if list.len() > 0 {
        let rest = list.skip(1);
        assert forall|k: int| 0 <= k < rest.len() implies (#[trigger] rest[k] matches Part::Normal(
            name,
        ) ==> is_name(name)) by {
            assert(rest[k] == list[k + 1]);
        }
        match list[0] {
            Part::Normal(name) => {
                assert(is_name(name));
                let more = names.push(name);
                lemma_led_names(more, rest);
                assert(led(names, list) == led(more, rest));
            },
            _ => {
                let less = moved(names, list[0]);
                assert forall|k: int| 0 <= k < less.len() implies is_name(#[trigger] less[k]) by {
                    assert(less[k] == names[k]);
                }
                lemma_led_names(less, rest);
                assert(led(names, list) == led(less, rest));
            },
        }
    }
}

/// Where nothing is a link, every absolute path leads somewhere: the root to itself, a name to what
/// is below, and a `..` to what is above, where the root is above itself.
pub proof fn law_realpath_steps(
    p: Seq<u8>,
    name: Seq<u8>,
    links: spec_fn(Seq<u8>) -> Option<Seq<u8>>,
)
    requires
        is_absolute(p),
        is_name(name),
        forall|q: Seq<u8>| #[trigger] links(q) is None,
    ensures
        real_path(p, None, links) matches Ok(x) && {
            &&& real_path(joined(p, name), None, links) matches Ok(below) && parts(below) == parts(
                x,
            ).push(Part::Normal(name))
            &&& real_path(joined(p, seq![46u8, 46u8]), None, links) matches Ok(above) && parts(above)
                == if parts(x).len() > 1 {
                parts(x).drop_last()
            } else {
                parts(x)
            }
            &&& parts(p) == seq![Part::RootDir] ==> x == seq![47u8]
        },
{
    let left = LINKS_LIMIT as int;
    let none = Seq::<Seq<u8>>::empty();
    let dots = seq![46u8, 46u8];
    let list = parts(p);
    let names = led(none, list);
    lemma_has_names(p);
    lemma_led_names(none, list);
    lemma_led(none, list, left, links);
    lemma_spelled(names);
    assert(joined(Seq::empty(), p) =~= p);
    assert(list[0] is RootDir);

    lemma_parts_joined(p, name);
    let below = joined(p, name);
    assert(name.contains(name[0]));
    assert(below[0] == 47);
    assert(joined(Seq::empty(), below) =~= below);
    lemma_led(none, list.push(Part::Normal(name)), left, links);
    lemma_led_more(none, list, Part::Normal(name));
    assert forall|k: int| 0 <= k < names.push(name).len() implies is_name(
        #[trigger] names.push(name)[k],
    ) by {
        if k < names.len() {
            assert(names.push(name)[k] == names[k]);
        }
    }
    lemma_spelled(names.push(name));
    assert(rooted(names.push(name)) =~= rooted(names).push(Part::Normal(name)));

    lemma_parts_parent(p);
    let above = joined(p, dots);
    assert(above[0] == 47);
    assert(joined(Seq::empty(), above) =~= above);
    lemma_led(none, list.push(Part::ParentDir), left, links);
    lemma_led_more(none, list, Part::ParentDir);
    let less = moved(names, Part::ParentDir);
    assert forall|k: int| 0 <= k < less.len() implies is_name(#[trigger] less[k]) by {
        assert(less[k] == names[k]);
    }
    lemma_spelled(less);
    if names.len() > 0 {
        assert(rooted(less) =~= rooted(names).drop_last());
    }
    if list == seq![Part::RootDir] {
        reveal_with_fuel(led, 2);
        assert(list.skip(1) =~= Seq::empty());
    }
}

/// A relative path is followed from its base. Only a path without a component and one that does not
/// come to be absolute are refused before anything is followed.
pub proof fn law_realpath_base(
    path: Seq<u8>,
    base: Seq<u8>,
    links: spec_fn(Seq<u8>) -> Option<Seq<u8>>,
)
    ensures
        parts(path).len() == 0 ==> real_path(path, Some(base), links) == Err::<Seq<u8>, TarError>(
            TarError::EmptyPath,
        ) && real_path(path, None, links) == Err::<Seq<u8>, TarError>(TarError::EmptyPath),
        parts(path).len() > 0 && path[0] != 47 ==> real_path(path, None, links) == Err::<
            Seq<u8>,
            TarError,
        >(TarError::RelativePath),
        parts(path).len() > 0 && path[0] != 47 && (base.len() == 0 || base[0] != 47) ==> real_path(
            path,
            Some(base),
            links,
        ) == Err::<Seq<u8>, TarError>(TarError::RelativePath),
        parts(path).len() > 0 && path[0] == 47 ==> real_path(path, Some(base), links) == real_path(
            path,
            None,
            links,
        ),
        parts(path).len() > 0 && path[0] != 47 && base.len() > 0 && base[0] == 47 ==> real_path(
            path,
            Some(base),
            links,
        ) == real_path(joined(base, path), None, links),
{
    assert(joined(Seq::empty(), path) =~= path);
    let full = joined(base, path);
    assert(joined(Seq::empty(), full) =~= full);
    if path.len() == 0 {
        assert(parts(path) =~= Seq::empty());
    } else if path[0] != 47 {
        if base.len() > 0 {
            assert(full[0] == base[0]);
            if base[0] == 47 {
                assert(parts(full)[0] is RootDir);
            }
        } else {
            assert(full =~= path);
        }
    }
}

proof fn lemma_more_links(s: Resolving, links: spec_fn(Seq<u8>) -> Option<Seq<u8>>)
    requires
        resolved(s, links) is Ok,
        s.left >= 0,
    ensures
        resolved(Resolving { left: s.left + 1, ..s }, links) == resolved(s, links),
    decreases s.left, s.ahead.len(),
{
    let t = Resolving { left: s.left + 1, ..s };
    let a = advanced(s);
    lemma_advanced(s);
    lemma_advanced_left(s);
    match asked(a) {
        None => {},
        Some(p) => {
            lemma_more_links(answered(a, links(p))->Ok_0, links);
        },
    }
}

proof fn lemma_advanced_left(s: Resolving)
    ensures
        advanced(Resolving { left: s.left + 1, ..s }) == (Resolving {
            left: s.left + 1,
            ..advanced(s)
        }),
    decreases s.ahead.len(),
{
    lemma_advanced(s);
    if s.ahead.len() > 0 && !(s.ahead[0] is Normal) {
        lemma_advanced_left(
            Resolving { names: moved(s.names, s.ahead[0]), ahead: s.ahead.skip(1), ..s },
        );
    }
}

proof fn lemma_entered(
    base: Seq<Seq<u8>>,
    k: int,
    ahead: Seq<Part>,
    left: int,
    links: spec_fn(Seq<u8>) -> Option<Seq<u8>>,
)
    requires
        0 <= k <= base.len(),
        forall|n: int| 0 < n <= base.len() ==> links(spelled(#[trigger] base.take(n))) is None,
    ensures
        resolved(
            Resolving {
                names: base.take(k),
                ahead: base.skip(k).map_values(|name: Seq<u8>| Part::Normal(name)) + ahead,
                left,
            },
            links,
        ) == resolved(Resolving { names: base, ahead, left }, links),
    decreases base.len() - k,
{
    let mapped = base.skip(k).map_values(|name: Seq<u8>| Part::Normal(name));
    let s = Resolving { names: base.take(k), ahead: mapped + ahead, left };
    if k == base.len() {
        assert(base.take(k) =~= base);
        assert(mapped + ahead =~= ahead);
    } else {
        assert(s.ahead[0] == Part::Normal(base[k]));
        assert(base.take(k).push(base[k]) =~= base.take(k + 1));
        assert(s.ahead.skip(1) =~= base.skip(k + 1).map_values(
            |name: Seq<u8>| Part::Normal(name),
        ) + ahead);
        assert(links(spelled(base.take(k + 1))) is None);
        lemma_entered(base, k + 1, ahead, left, links);
    }
}

/// The walk along the root, some names that lead to no link, and more components.
proof fn lemma_rooted_walk(
    base: Seq<Seq<u8>>,
    ahead: Seq<Part>,
    left: int,
    links: spec_fn(Seq<u8>) -> Option<Seq<u8>>,
)
    requires
        forall|n: int| 0 < n <= base.len() ==> links(spelled(#[trigger] base.take(n))) is None,
    ensures
        resolved(
            Resolving { names: Seq::empty(), ahead: rooted(base) + ahead, left },
            links,
        ) == resolved(Resolving { names: base, ahead, left }, links),
{
    let mapped = base.skip(0).map_values(|name: Seq<u8>| Part::Normal(name));
    let s = Resolving { names: Seq::empty(), ahead: rooted(base) + ahead, left };
    let t = Resolving { names: base.take(0), ahead: mapped + ahead, left };
    assert(base.skip(0) =~= base);
    assert(s.ahead.skip(1) =~= t.ahead);
    assert(base.take(0) =~= moved(Seq::empty(), Part::RootDir));
    assert(advanced(s) == advanced(t));
    lemma_entered(base, 0, ahead, left, links);
}

/// A path through a link leads where the target of the link leads, followed from the directory that
/// the link is in, or from the root if it starts there.
///
/// The directory is given by names that lead to it and along no link.
pub proof fn law_link_followed(
    dir: Seq<Seq<u8>>,
    name: Seq<u8>,
    target: Seq<u8>,
    rest: Seq<u8>,
    links: spec_fn(Seq<u8>) -> Option<Seq<u8>>,
)
    requires
        forall|k: int| 0 <= k < dir.len() ==> is_name(#[trigger] dir[k]),
        forall|n: int| 0 < n <= dir.len() ==> links(spelled(#[trigger] dir.take(n))) is None,
        is_name(name),
        links(joined(spelled(dir), name)) == Some(target),
        lead(rest) is None,
    ensures
        real_path(joined(joined(spelled(dir), name), rest), None, links) is Ok ==> real_path(
            joined(joined(spelled(dir), target), rest),
            None,
            links,
        ) == real_path(joined(joined(spelled(dir), name), rest), None, links),
{
    let left = LINKS_LIMIT as int;
    let base = spelled(dir);
    let through = joined(base, name);
    let full = joined(through, rest);
    let other = joined(base, target);
    let whole = joined(other, rest);
    let more = parts(rest);
    lemma_spelled(dir);
    assert(base[0] == 47);
    lemma_parts_joined(base, name);
    assert(name.contains(name[0]));
    assert(through[0] == 47);
    law_joined(through, rest);
    assert(full[0] == 47);
    assert(joined(Seq::empty(), full) =~= full);
    assert(spelled(dir.push(name)) == through) by {
        assert(dir.push(name).drop_last() =~= dir);
    }
    // The walk up to the link.
    let ahead = seq![Part::Normal(name)] + more;
    assert(parts(full) =~= rooted(dir) + ahead);
    lemma_rooted_walk(dir, ahead, left, links);
    let s = Resolving { names: dir, ahead, left };
    let followed = Resolving { names: dir, ahead: parts(target) + more, left: left - 1 };
    assert(ahead.skip(1) =~= more);
    assert(resolved(s, links) == resolved(followed, links));
    // The walk along the target.
    law_joined(other, rest);
    if real_path(full, None, links) is Ok {
        lemma_more_links(followed, links);
        let t = Resolving { left, ..followed };
        if target.len() > 0 && target[0] == 47 {
            law_joined(base, target);
            assert(parts(whole) =~= parts(target) + more);
            let list = parts(target) + more;
            assert(list[0] is RootDir);
            let start = Resolving { names: Seq::empty(), ahead: list, left };
            assert(moved(dir, Part::RootDir) =~= moved(Seq::empty(), Part::RootDir));
            assert(advanced(t) == advanced(start));
            assert(whole[0] == 47);
            assert(joined(Seq::empty(), whole) =~= whole);
        } else {
            let plain = behind_lead(parts(target));
            lemma_behind(base, target);
            assert(parts(whole) =~= rooted(dir) + (plain + more));
            assert(other[0] == 47);
            assert(whole[0] == 47);
            assert(joined(Seq::empty(), whole) =~= whole);
            lemma_rooted_walk(dir, plain + more, left, links);
            let u = Resolving { names: dir, ahead: plain + more, left };
            if lead(target) is Some {
                assert(t.ahead[0] is CurDir);
                assert(t.ahead.skip(1) =~= u.ahead);
                assert(advanced(t) == advanced(u));
            } else {
                lemma_no_lead(target, 0);
                assert(plain == parts(target));
            }
        }
    }
}

/// An absolute path that is extended by a relative one has its components, but for a `.` at the
/// start, behind its own.
proof fn lemma_behind(base: Seq<u8>, p: Seq<u8>)
    requires
        base.len() > 0,
        base[0] == 47,
        p.len() == 0 || p[0] != 47,
    ensures
        parts(joined(base, p)) == parts(base) + behind_lead(parts(p)),
{
    let q = joined(base, p);
    let n = if base.last() == 47 {
        base.len() - 1
    } else {
        base.len() as int
    };
    law_parts_at_slash(q, n);
    assert(q.skip(n + 1) =~= p);
    if base.last() == 47 {
        law_parts_at_slash(base, n);
        assert(base.skip(n + 1) =~= Seq::empty());
        assert(parts(Seq::<u8>::empty()) =~= Seq::empty());
        assert(q.take(n) =~= base.take(n));
        assert(parts(q) =~= parts(base) + behind_lead(parts(p)));
    } else {
        assert(q.take(n) =~= base);
    }
}

proof fn lemma_led_plain(names: Seq<Seq<u8>>, list: Seq<Part>)
    requires
        forall|k: int| 0 <= k < list.len() ==> #[trigger] list[k] is Normal,
    ensures
        led(names, list).map_values(|n: Seq<u8>| Part::Normal(n)) == names.map_values(
            |n: Seq<u8>| Part::Normal(n),
        ) + list,
    decreases list.len(),
{
    let f = |n: Seq<u8>| Part::Normal(n);
    if list.len() == 0 {
        assert(names.map_values(f) + list =~= names.map_values(f));
    } else {
        let rest = list.skip(1);
        assert(list[0] is Normal);
        let name = list[0]->Normal_0;
        assert forall|k: int| 0 <= k < rest.len() implies #[trigger] rest[k] is Normal by {
            assert(rest[k] == list[k + 1]);
        }
        lemma_led_plain(names.push(name), rest);
        assert(names.push(name).map_values(f) + rest =~= names.map_values(f) + list);
    }
}

/// Where nothing is a link, a path of the root and names leads along just these names.
pub proof fn law_realpath_plain(p: Seq<u8>, links: spec_fn(Seq<u8>) -> Option<Seq<u8>>)
    requires
        is_absolute(p),
        forall|k: int| 0 < k < parts(p).len() ==> #[trigger] parts(p)[k] is Normal,
        forall|q: Seq<u8>| #[trigger] links(q) is None,
    ensures
        real_path(p, None, links) matches Ok(x) && parts(x) == parts(p),
{
    let none = Seq::<Seq<u8>>::empty();
    let list = parts(p);
    let rest = list.skip(1);
    lemma_has_names(p);
    lemma_led_names(none, list);
    lemma_led(none, list, LINKS_LIMIT as int, links);
    assert(joined(Seq::empty(), p) =~= p);
    assert(list[0] is RootDir);
    assert forall|k: int| 0 <= k < rest.len() implies #[trigger] rest[k] is Normal by {
        assert(rest[k] == list[k + 1]);
    }
    lemma_led_plain(none, rest);
    assert(led(none, list) == led(none, rest));
    let names = led(none, list);
    lemma_spelled(names);
    assert(none.map_values(|n: Seq<u8>| Part::Normal(n)) + rest =~= rest);
    assert(rooted(names) =~= list);
}

/// Where nothing is a link, the place of every entry passes the check for being inside.
///
/// The directory that is unpacked into is given by the names that lead to it from the root.
pub proof fn law_check_passes(
    dir: Seq<Seq<u8>>,
    path: Seq<u8>,
    links: spec_fn(Seq<u8>) -> Option<Seq<u8>>,
)
    requires
        forall|k: int| 0 <= k < dir.len() ==> is_name(#[trigger] dir[k]),
        forall|q: Seq<u8>| #[trigger] links(q) is None,
    ensures
        all_inside(guarded(placed(spelled(dir), path), None), spelled(dir), links) is Ok,
{
    let dst = spelled(dir);
    lemma_spelled(dir);
    law_placed_completely(dst, path);
    if let Placed::At(p) = placed(dst, path) {
        let more = parts(path).filter(|q: Part| q is Normal);
        let list = parts(p);
        assert(list[0] is RootDir);
        assert forall|k: int| 0 < k < list.len() implies #[trigger] list[k] is Normal by {
            if k >= parts(dst).len() {
                let f = |q: Part| q is Normal;
                parts(path).lemma_filter_pred(f, k - parts(dst).len());
                assert(list[k] == more[k - parts(dst).len()]);
            } else {
                assert(list[k] == parts(dst)[k]);
            }
        }
        assert(is_absolute(p)) by {
            if lead(p) is None {
                lemma_no_lead(p, 0);
            }
        }
        law_realpath_plain(p, links);
        let g = guarded(placed(dst, path), None);
        assert(parts(dst) =~= list.take(parts(dst).len() as int));
        reveal_with_fuel(all_inside, 2);
        assert(g.skip(1) =~= Seq::empty());
    } else {
        assert(guarded(placed(dst, path), None) =~= Seq::empty());
    }
}

/// Paths pass the check exactly if each of them, with all links followed, leads inside.
pub proof fn law_all_inside(
    list: Seq<Seq<u8>>,
    dst: Seq<u8>,
    links: spec_fn(Seq<u8>) -> Option<Seq<u8>>,
)
    ensures
        all_inside(list, dst, links) is Ok <==> forall|k: int|
            0 <= k < list.len() ==> (real_path(#[trigger] list[k], None, links) matches Ok(x)
                && parts(dst).is_prefix_of(parts(x))),
    decreases list.len(),
{
    if list.len() > 0 {
        let rest = list.skip(1);
        law_all_inside(rest, dst, links);
        if let Ok(x) = real_path(list[0], None, links) {
            if parts(dst).is_prefix_of(parts(x)) {
                assert(parts(dst) =~= parts(x).take(parts(dst).len() as int));
            }
        }
        if all_inside(list, dst, links) is Ok {
            assert forall|k: int| 0 <= k < list.len() implies (real_path(
                #[trigger] list[k],
                None,
                links,
            ) matches Ok(x) && parts(dst).is_prefix_of(parts(x))) by {
                if k > 0 {
                    assert(list[k] == rest[k - 1]);
                }
            }
        } else {
            if forall|k: int|
                0 <= k < list.len() ==> (real_path(#[trigger] list[k], None, links) matches Ok(x)
                    && parts(dst).is_prefix_of(parts(x))) {
                assert(real_path(list[0], None, links) is Ok);
                assert forall|k: int| 0 <= k < rest.len() implies (real_path(
                    #[trigger] rest[k],
                    None,
                    links,
                ) matches Ok(x) && parts(dst).is_prefix_of(parts(x))) by {
                    assert(list[k + 1] == rest[k]);
                }
            }
        }
    }
}

} // verus!
