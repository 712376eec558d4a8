//! What holds of the projects that are tested and of texts that are broken.

use crate::revdep::{failures, known, named, replaced, resolved_targets, RevDep, RevdepError};
use vstd::prelude::*;

verus! {

/// The project that is found by a name has that name, and no project before it does. None is found
/// only if no project has the name.
pub proof fn law_named(list: Seq<RevDep>, name: Seq<char>)
    ensures
        named(list, name) is None <==> forall|k: int|
            0 <= k < list.len() ==> (#[trigger] list[k]).name@ != name,
        named(list, name) matches Some(d) ==> exists|k: int|
            0 <= k < list.len() && #[trigger] list[k] == d && d.name@ == name && forall|j: int|
                0 <= j < k ==> (#[trigger] list[j]).name@ != name,
    decreases list.len(),
{
    if list.len() > 0 {
        let rest = list.skip(1);
        law_named(rest, name);
        if list[0].name@ == name {
            assert(list[0] == list[0] && list[0].name@ == name);
        } else {
            assert(forall|j: int| 0 <= j < rest.len() ==> #[trigger] rest[j] == list[j + 1]);
            if named(list, name) is None {
                assert forall|k: int| 0 <= k < list.len() implies (#[trigger] list[k]).name@
                    != name by {
                    if k > 0 {
                        assert(rest[k - 1].name@ != name);
                    }
                }
            } else {
                let d = named(list, name)->Some_0;
                let k = choose|k: int|
                    0 <= k < rest.len() && #[trigger] rest[k] == d && d.name@ == name && forall|
                        j: int,
                    |
                        0 <= j < k ==> (#[trigger] rest[j]).name@ != name;
                assert(list[k + 1] == d);
                assert forall|j: int| 0 <= j < k + 1 implies (#[trigger] list[j]).name@ != name by {
                    if j > 0 {
                        assert(rest[j - 1].name@ != name);
                    }
                }
            }
        }
    }
}

proof fn lemma_targets(targets: Seq<String>, i: int)
    requires
        0 <= i <= targets.len() <= usize::MAX,
    ensures
        match resolved_targets(targets, i) {
            Ok(list) => list.len() == targets.len() - i && forall|k: int|
                i <= k < targets.len() ==> named(known(), (#[trigger] targets[k])@) == Some(
                    list[k - i],
                ),
            Err(RevdepError::Unknown(n)) => i <= n < targets.len() && named(
                known(),
                targets[n as int]@,
            ) is None && forall|k: int|
                i <= k < n ==> named(known(), (#[trigger] targets[k])@) is Some,
            Err(_) => false,
        },
    decreases targets.len() - i,
{
    if i < targets.len() {
        lemma_targets(targets, i + 1);
        if let Ok(list) = resolved_targets(targets, i) {
            let rest = resolved_targets(targets, i + 1)->Ok_0;
            assert forall|k: int| i <= k < targets.len() implies named(
                known(),
                (#[trigger] targets[k])@,
            ) == Some(list[k - i]) by {
                if k > i {
                    assert(list[k - i] == rest[k - i - 1]);
                }
            }
        }
    }
}

/// Every name stands for a project, in the order of the names; or the first name that no project has
/// is told.
pub proof fn law_targets(targets: Seq<String>)
    requires
        targets.len() <= usize::MAX,
    ensures
        match resolved_targets(targets, 0) {
            Ok(list) => list.len() == targets.len() && forall|k: int|
                0 <= k < targets.len() ==> named(known(), (#[trigger] targets[k])@) == Some(list[k]),
            Err(RevdepError::Unknown(n)) => n < targets.len() && named(known(), targets[n as int]@)
                is None && forall|k: int|
                0 <= k < n ==> named(known(), (#[trigger] targets[k])@) is Some,
            Err(_) => false,
        },
{
    lemma_targets(targets, 0);
}

/// The projects that did not pass are told, all of them, in order, and no others.
pub proof fn law_failures(results: Seq<(&'static str, bool)>)
    ensures
        failures(results) == results.filter(|r: (&'static str, bool)| !r.1).map_values(
            |r: (&'static str, bool)| r.0,
        ),
    decreases results.len(),
{
    reveal(Seq::filter);
    let p = |r: (&'static str, bool)| !r.1;
    let f = |r: (&'static str, bool)| r.0;
    if results.len() > 0 {
        let less = results.drop_last();
        law_failures(less);
        if !results.last().1 {
            assert(results.filter(p) =~= less.filter(p).push(results.last()));
            assert(results.filter(p).map_values(f) =~= less.filter(p).map_values(f).push(
                results.last().0,
            ));
        }
    }
    assert(failures(results) =~= results.filter(p).map_values(f));
}

/// Whether a pattern stands in a text at a position.
pub open spec fn stands(s: Seq<u8>, pattern: Seq<u8>, k: int) -> bool {
    0 <= k <= s.len() - pattern.len() && s.subrange(k, k + pattern.len()) == pattern
}

/// Whether `n` is the first position at which a pattern stands in a text.
pub open spec fn first_stands(s: Seq<u8>, pattern: Seq<u8>, n: int) -> bool {
    stands(s, pattern, n) && forall|k: int| 0 <= k < n ==> !#[trigger] stands(s, pattern, k)
}

/// A text in which a pattern does not stand stays as it is. Otherwise what comes before the first
/// place where it stands stays, it is replaced there, and the rest is treated in the same way.
pub proof fn law_replaced(s: Seq<u8>, pattern: Seq<u8>, with: Seq<u8>, n: int)
    requires
        pattern.len() > 0,
    ensures
        (forall|k: int| !#[trigger] stands(s, pattern, k)) ==> replaced(s, pattern, with) == s,
        first_stands(s, pattern, n) ==> replaced(s, pattern, with) == s.take(n) + with + replaced(
            s.skip(n + pattern.len()),
            pattern,
            with,
        ),
    decreases s.len(),
{
    let m = pattern.len() as int;
    if s.len() >= m {
        let rest = s.skip(1);
        assert(s.take(m) =~= s.subrange(0, m));
        if s.take(m) == pattern {
            assert(stands(s, pattern, 0));
            if first_stands(s, pattern, n) {
                assert(n == 0);
                assert(s.take(0) + with =~= with);
            }
        } else {
            assert(!stands(s, pattern, 0));
            law_replaced(rest, pattern, with, n - 1);
            assert forall|k: int| 0 <= k implies #[trigger] stands(rest, pattern, k) == stands(
                s,
                pattern,
                k + 1,
            ) by {
                if k + m <= rest.len() {
                    assert(rest.subrange(k, k + m) =~= s.subrange(k + 1, k + 1 + m));
                }
            }
            if forall|k: int| !#[trigger] stands(s, pattern, k) {
                assert forall|k: int| !#[trigger] stands(rest, pattern, k) by {
                    if k >= 0 {
                        assert(!stands(s, pattern, k + 1));
                    }
                }
                assert(replaced(s, pattern, with) =~= s);
            }
            if first_stands(s, pattern, n) {
                assert(stands(rest, pattern, n - 1));
                assert forall|k: int| 0 <= k < n - 1 implies !#[trigger] stands(rest, pattern, k) by {
                    assert(!stands(s, pattern, k + 1));
                }
                assert(rest.skip(n - 1 + m) =~= s.skip(n + m));
                assert(replaced(s, pattern, with) =~= s.take(n) + with + replaced(
                    s.skip(n + m),
                    pattern,
                    with,
                ));
            }
        }
    }
}

} // verus!
