//! All that an archive holds is unpacked, and in which order.

use crate::archive::{look, rest_of, Found, Place};
use crate::entry::EntryView;
use crate::entry_type::{type_of, EntryType};
use crate::unpack::{placed, stepped, Acted, Stepped};
use crate::unpack_all::{
    all_steps, gathered, is_before, law_dirs_sorted, sorted, Late,
};
use vstd::prelude::*;

verus! {

/// An entry that a walk came to, and how far the archive was read then.
pub struct Seen {
    /// The entry.
    pub entry: EntryView,
    /// How many bytes of the archive were read.
    pub pos: int,
}

/// The entries that a walk comes to from a place on, in order.
pub open spec fn all_seen(obj: Seq<u8>, at: Place) -> Seq<Seen>
    decreases obj.len() - at.pos,
{
    let (place, found) = look(obj, at);
    match found {
        Found::Entry(e) => if at.pos < place.pos <= obj.len() {
            seq![Seen { entry: e, pos: place.pos }] + all_seen(obj, place)
        } else {
            Seq::empty()
        },
        _ => Seq::empty(),
    }
}

/// Whether an entry is a directory.
pub open spec fn is_directory(s: Seen) -> bool {
    s.entry.header[156] == 53
}

proof fn lemma_filter_first<A, B>(x: A, rest: Seq<A>, p: spec_fn(A) -> bool, f: spec_fn(A) -> B)
    ensures
        (seq![x] + rest).filter(p).map_values(f) == if p(x) {
            seq![f(x)] + rest.filter(p).map_values(f)
        } else {
            rest.filter(p).map_values(f)
        },
{
    reveal(Seq::filter);
    let one = seq![x];
    Seq::filter_distributes_over_add(one, rest, p);
    assert(one.drop_last() =~= Seq::empty());
    assert(one.drop_last().filter(p) =~= Seq::empty());
    if p(x) {
        assert(one.filter(p) =~= one);
        assert((one + rest).filter(p).map_values(f) =~= seq![f(x)] + rest.filter(p).map_values(f));
    } else {
        assert(one.filter(p) =~= Seq::empty());
        assert((one + rest).filter(p) =~= rest.filter(p));
    }
}

/// What is done for the entries that are no directories.
pub open spec fn plain_steps(obj: Seq<u8>, dst: Seq<u8>, seen: Seq<Seen>) -> Seq<Stepped> {
    seen.filter(|s: Seen| !is_directory(s)).map_values(
        |s: Seen| stepped(s.entry, rest_of(obj, s.pos), dst)->Ok_0,
    )
}

/// The directories among the entries, each with its place.
pub open spec fn directories(dst: Seq<u8>, seen: Seq<Seen>) -> Seq<Late> {
    seen.filter(|s: Seen| is_directory(s)).map_values(
        |s: Seen| Late { path: s.entry.path(), place: placed(dst, s.entry.path()) },
    )
}

proof fn lemma_first_seen(obj: Seq<u8>, dst: Seq<u8>, x: Seen, rest: Seq<Seen>)
    ensures
        is_directory(x) ==> plain_steps(obj, dst, seq![x] + rest) == plain_steps(obj, dst, rest),
        is_directory(x) ==> directories(dst, seq![x] + rest) == seq![
            Late { path: x.entry.path(), place: placed(dst, x.entry.path()) },
        ] + directories(dst, rest),
        !is_directory(x) ==> directories(dst, seq![x] + rest) == directories(dst, rest),
        !is_directory(x) ==> plain_steps(obj, dst, seq![x] + rest) == seq![
            stepped(x.entry, rest_of(obj, x.pos), dst)->Ok_0,
        ] + plain_steps(obj, dst, rest),
{
    lemma_filter_first(
        x,
        rest,
        |s: Seen| !is_directory(s),
        |s: Seen| stepped(s.entry, rest_of(obj, s.pos), dst)->Ok_0,
    );
    lemma_filter_first(
        x,
        rest,
        |s: Seen| is_directory(s),
        |s: Seen| Late { path: s.entry.path(), place: placed(dst, s.entry.path()) },
    );
}

proof fn lemma_none_seen(obj: Seq<u8>, dst: Seq<u8>)
    ensures
        plain_steps(obj, dst, Seq::empty()) == Seq::<Stepped>::empty(),
        directories(dst, Seq::empty()) == Seq::<Late>::empty(),
{
    reveal(Seq::filter);
    assert(plain_steps(obj, dst, Seq::empty()) =~= Seq::<Stepped>::empty());
    assert(directories(dst, Seq::empty()) =~= Seq::<Late>::empty());
}

/// Whether every entry that is no directory can be unpacked.
pub open spec fn all_can(obj: Seq<u8>, dst: Seq<u8>, seen: Seq<Seen>) -> bool {
    forall|k: int|
        0 <= k < seen.len() && !is_directory(#[trigger] seen[k]) ==> stepped(
            seen[k].entry,
            rest_of(obj, seen[k].pos),
            dst,
        ) is Ok
}

proof fn lemma_all_can(obj: Seq<u8>, dst: Seq<u8>, x: Seen, rest: Seq<Seen>)
    requires
        all_can(obj, dst, rest),
        is_directory(x) || stepped(x.entry, rest_of(obj, x.pos), dst) is Ok,
    ensures
        all_can(obj, dst, seq![x] + rest),
{
    let seen = seq![x] + rest;
    assert forall|k: int| 0 <= k < seen.len() && !is_directory(#[trigger] seen[k]) implies stepped(
        seen[k].entry,
        rest_of(obj, seen[k].pos),
        dst,
    ) is Ok by {
        if k > 0 {
            assert(seen[k] == rest[k - 1]);
        }
    }
}

/// An archive that can be read to its end is unpacked as a whole: for every entry that is no
/// directory there is one step, in the order of the archive, and every directory is put off.
pub proof fn law_all_gathered(obj: Seq<u8>, at: Place, dst: Seq<u8>)
    ensures
        ({
            let g = gathered(obj, at, dst);
            let seen = all_seen(obj, at);
            g.fault is None ==> {
                &&& g.steps == seen.filter(|s: Seen| !is_directory(s)).map_values(
                    |s: Seen| stepped(s.entry, rest_of(obj, s.pos), dst)->Ok_0,
                )
                &&& g.dirs == seen.filter(|s: Seen| is_directory(s)).map_values(
                    |s: Seen| Late { path: s.entry.path(), place: placed(dst, s.entry.path()) },
                )
                &&& g.steps.len() + g.dirs.len() == seen.len()
                &&& forall|k: int|
                    0 <= k < seen.len() && !is_directory(#[trigger] seen[k]) ==> stepped(
                        seen[k].entry,
                        rest_of(obj, seen[k].pos),
                        dst,
                    ) is Ok
            }
        }),
    decreases obj.len() - at.pos,
{
    let g = gathered(obj, at, dst);
    lemma_none_seen(obj, dst);
    match look(obj, at) {
        (place, Found::Entry(e)) => {
            if at.pos < place.pos <= obj.len() && g.fault is None {
                let x = Seen { entry: e, pos: place.pos };
                let rest = all_seen(obj, place);
                assert(type_of(e.header[156]) == EntryType::Directory <==> is_directory(x));
                assert(gathered(obj, place, dst).fault is None);
                law_all_gathered(obj, place, dst);
                assert(all_can(obj, dst, rest));
                lemma_first_seen(obj, dst, x, rest);
                lemma_all_can(obj, dst, x, rest);
                assert(all_seen(obj, at) == seq![x] + rest);
            }
        },
        _ => {},
    }
    assert(g.fault is None ==> g.steps == plain_steps(obj, dst, all_seen(obj, at)));
}

/// What is to be done comes in the order of the archive, and the directories behind all else: each
/// of them, and none before what stands in it. Where the archive could not be read, no directory
/// that was put off is created.
pub proof fn law_directories_last(obj: Seq<u8>, at: Place, dst: Seq<u8>)
    ensures
        ({
            let g = gathered(obj, at, dst);
            let all = all_steps(g);
            &&& all.take(g.steps.len() as int) == g.steps
            &&& g.fault is Some ==> all.len() == g.steps.len()
            &&& g.fault is None ==> all.len() == g.steps.len() + g.dirs.len()
            &&& forall|k: int|
                g.steps.len() <= k < all.len() ==> #[trigger] all[k] == (Stepped {
                    place: sorted(g.dirs)[k - g.steps.len()].place,
                    action: if sorted(g.dirs)[k - g.steps.len()].place is At {
                        Acted::Directory
                    } else {
                        Acted::Nothing
                    },
                })
            &&& sorted(g.dirs).to_multiset() == g.dirs.to_multiset()
        }),
{
    let g = gathered(obj, at, dst);
    law_dirs_sorted(g.dirs);
    assert(all_steps(g).take(g.steps.len() as int) =~= g.steps);
}

/// One byte string comes before another in the order of dictionaries exactly if it is the start of
/// the other, or has the smaller byte where they first differ.
pub proof fn law_is_before(a: Seq<u8>, b: Seq<u8>)
    ensures
        is_before(a, b) <==> exists|n: int|
            0 <= n <= a.len() && n < b.len() && #[trigger] a.take(n) == b.take(n) && (n == a.len()
                || a[n] < b[n]),
    decreases b.len(),
{
    if b.len() > 0 {
        if a.len() == 0 {
            assert(a.take(0) =~= b.take(0));
        } else if a[0] != b[0] {
            assert(a.take(0) =~= b.take(0));
            if exists|n: int|
                0 <= n <= a.len() && n < b.len() && #[trigger] a.take(n) == b.take(n) && (n
                    == a.len() || a[n] < b[n]) {
                let n = choose|n: int|
                    0 <= n <= a.len() && n < b.len() && #[trigger] a.take(n) == b.take(n) && (n
                        == a.len() || a[n] < b[n]);
                if n > 0 {
                    assert(a.take(n)[0] == a[0] && b.take(n)[0] == b[0]);
                }
            }
        } else {
            let x = a.skip(1);
            let y = b.skip(1);
            law_is_before(x, y);
            if is_before(x, y) {
                let n = choose|n: int|
                    0 <= n <= x.len() && n < y.len() && #[trigger] x.take(n) == y.take(n) && (n
                        == x.len() || x[n] < y[n]);
                assert(a.take(n + 1) =~= seq![a[0]] + x.take(n));
                assert(b.take(n + 1) =~= seq![b[0]] + y.take(n));
                assert(a.take(n + 1) == b.take(n + 1));
            }
            if exists|n: int|
                0 <= n <= a.len() && n < b.len() && #[trigger] a.take(n) == b.take(n) && (n
                    == a.len() || a[n] < b[n]) {
                let n = choose|n: int|
                    0 <= n <= a.len() && n < b.len() && #[trigger] a.take(n) == b.take(n) && (n
                        == a.len() || a[n] < b[n]);
                assert(n > 0);
                assert(x.take(n - 1) =~= a.take(n).skip(1));
                assert(y.take(n - 1) =~= b.take(n).skip(1));
                assert(x.take(n - 1) == y.take(n - 1));
            }
        }
    }
}

/// Of two directories that were put off, the one whose path is the start of the other's comes
/// second: what is in a directory comes before the directory.
pub proof fn law_children_first(list: Seq<Late>, i: int, j: int)
    requires
        0 <= i < sorted(list).len(),
        0 <= j < sorted(list).len(),
        sorted(list)[i].path.len() < sorted(list)[j].path.len(),
        sorted(list)[i].path == sorted(list)[j].path.take(sorted(list)[i].path.len() as int),
    ensures
        j < i,
{
    law_dirs_sorted(list);
    let a = sorted(list)[i].path;
    let b = sorted(list)[j].path;
    law_is_before(a, b);
    assert(a.take(a.len() as int) =~= a);
    assert(a.take(a.len() as int) == b.take(a.len() as int));
    if i < j {
        assert(!is_before(sorted(list)[i].path, sorted(list)[j].path));
    }
}

} // verus!
