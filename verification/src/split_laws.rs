//! Which paths can be split between the name and the prefix of a header.

use crate::bytes::{find_from, lemma_find_from, lemma_find_from_is};
use crate::header::{header_path_stored, is_ustar, split_parent};
use crate::path::{ends, ends_from, lead, parent_of, parts, segment_part, Part};
use crate::path_laws::{are_names, law_plain_spelling, slash_between};
use crate::stored_path::{archive_path, law_path_stored};
use crate::unpack::is_name;
use vstd::prelude::*;

verus! {

/// The last of several components ends where the path does; the others end as they do without it.
proof fn lemma_ends_push(p: Seq<u8>, n: int, i: int)
    requires
        0 <= i <= n < p.len(),
        p[n] == 47,
        is_name(p.skip(n + 1)),
    ensures
        ends_from(p, i) == ends_from(p.take(n), i).push(p.len() as int),
    decreases n - i,
{
    let q = p.take(n);
    let name = p.skip(n + 1);
    let len = p.len() as int;
    let j = find_from(p, 47, i);
    lemma_find_from(p, 47, i);
    let last = ends_from(p, n + 1);
    assert(last =~= seq![len]) by {
        assert forall|k: int| n + 1 <= k < len implies p[k] != 47 by {
            assert(name[k - n - 1] == p[k]);
            assert(name.contains(name[k - n - 1]));
        }
        lemma_find_from_is(p, 47, n + 1, len);
        assert(p.subrange(n + 1, len) =~= name);
        assert(ends_from(p, len + 1) =~= Seq::empty());
    }
    if i == n {
        assert(j == n);
        assert(segment_part(p.subrange(i, j)) is None);
        assert(ends_from(q, i) =~= Seq::empty());
        assert(ends_from(p, i) =~= ends_from(q, i).push(len));
    } else {
        assert(j <= n) by {
            if j > n {
                assert(p[n] != 47);
            }
        }
        assert forall|k: int| i <= k < j implies q[k] != 47 by {
            assert(q[k] == p[k]);
        }
        lemma_find_from_is(q, 47, i, j);
        assert(q.subrange(i, j) =~= p.subrange(i, j));
        if j == n {
            assert(ends_from(q, n + 1) =~= Seq::empty());
        } else {
            lemma_ends_push(p, n, j + 1);
        }
        assert(ends_from(p, i) =~= ends_from(q, i).push(len));
    }
}

/// The parent of a plain path is the path without its last name and the slash before it.
pub proof fn law_plain_parent(names: Seq<Seq<u8>>)
    requires
        names.len() > 0,
        are_names(names),
    ensures
        parent_of(slash_between(names)) == Some(slash_between(names.drop_last())),
{
    lemma_plain_ends(names);
    law_plain_spelling(names, false);
    let p = slash_between(names);
    assert(parts(p).last() == Part::Normal(names.last()));
    if names.len() > 1 {
        let q = slash_between(names.drop_last());
        assert(p.take(q.len() as int) =~= q);
    } else {
        assert(slash_between(names.drop_last()) =~= Seq::empty());
    }
}

proof fn lemma_no_lead_plain(names: Seq<Seq<u8>>)
    requires
        names.len() > 0,
        are_names(names),
    ensures
        lead(slash_between(names)) is None,
{
    law_plain_spelling(names, false);
    let p = slash_between(names);
    if lead(p) is Some {
        assert(parts(p)[0] == lead(p)->Some_0);
        assert(parts(p)[0] is Normal);
    }
}

proof fn lemma_front_names(names: Seq<Seq<u8>>, m: int)
    requires
        are_names(names),
        0 <= m <= names.len(),
    ensures
        are_names(names.take(m)),
{
    assert forall|k: int| 0 <= k < m implies is_name(#[trigger] names.take(m)[k]) by {
        assert(names.take(m)[k] == names[k]);
    }
}

proof fn lemma_plain_ends(names: Seq<Seq<u8>>)
    requires
        names.len() > 0,
        are_names(names),
    ensures
        ends(slash_between(names)).len() == names.len(),
        ends(slash_between(names)).last() == slash_between(names).len(),
        names.len() > 1 ==> ends(slash_between(names))[names.len() - 2] == slash_between(
            names.drop_last(),
        ).len(),
    decreases names.len(),
{
    let p = slash_between(names);
    lemma_no_lead_plain(names);
    assert(is_name(names[names.len() - 1]));
    if names.len() == 1 {
        let name = names[0];
        assert forall|k: int| 0 <= k < name.len() implies name[k] != 47 by {
            assert(name.contains(name[k]));
        }
        lemma_find_from_is(name, 47, 0, name.len() as int);
        assert(name.subrange(0, name.len() as int) =~= name);
        assert(ends_from(name, name.len() + 1int) =~= Seq::empty());
        assert(ends(p) =~= seq![name.len() as int]);
    } else {
        let front = names.drop_last();
        assert(front =~= names.take(names.len() - 1));
        lemma_front_names(names, names.len() - 1);
        lemma_plain_ends(front);
        lemma_no_lead_plain(front);
        let q = slash_between(front);
        let n = q.len() as int;
        assert(p[n] == 47);
        assert(p.take(n) =~= q);
        assert(p.skip(n + 1) =~= names.last());
        lemma_ends_push(p, n, 0);
    }
}

/// Where the first `m` names of a plain path end.
spec fn cut(names: Seq<Seq<u8>>, m: int) -> int {
    slash_between(names.take(m)).len() as int
}

proof fn lemma_cut(names: Seq<Seq<u8>>, m: int)
    requires
        are_names(names),
        0 < m < names.len(),
    ensures
        0 < cut(names, m) < slash_between(names).len(),
        slash_between(names)[cut(names, m)] == 47,
        slash_between(names).take(cut(names, m)) == slash_between(names.take(m)),
        slash_between(names).skip(cut(names, m) + 1) == slash_between(names.skip(m)),
        are_names(names.skip(m)),
    decreases names.len(),
{
    let p = slash_between(names);
    let front = names.drop_last();
    let q = slash_between(front);
    let last = seq![47u8] + names.last();
    assert(is_name(names[names.len() - 1]));
    assert(p =~= q + last);
    assert forall|k: int| 0 <= k < names.len() - m implies is_name(#[trigger] names.skip(m)[k]) by {
        assert(names.skip(m)[k] == names[k + m]);
    }
    if m == names.len() - 1 {
        assert(names.take(m) =~= front);
        assert(names.skip(m) =~= seq![names.last()]);
        assert(p.take(q.len() as int) =~= q);
        assert(p.skip(q.len() + 1int) =~= names.last());
        lemma_front_names(names, m);
        law_plain_spelling(front, false);
        lemma_plain_filled(front);
    } else {
        lemma_front_names(names, names.len() - 1);
        assert(front =~= names.take(names.len() - 1));
        lemma_cut(front, m);
        assert(front.take(m) =~= names.take(m));
        let c = cut(names, m);
        assert(p.take(c) =~= q.take(c));
        let back = names.skip(m);
        assert(back.drop_last() =~= front.skip(m));
        assert(back.last() == names.last());
        assert(p.skip(c + 1) =~= q.skip(c + 1) + last);
        assert(slash_between(back) =~= slash_between(front.skip(m)) + last);
    }
}

proof fn lemma_plain_filled(names: Seq<Seq<u8>>)
    requires
        names.len() > 0,
        are_names(names),
    ensures
        slash_between(names).len() > 0,
{
    assert(is_name(names[0]));
    assert(is_name(names[names.len() - 1]));
}

/// Every slash of a plain path stands behind some of its names.
proof fn lemma_slash_is_cut(names: Seq<Seq<u8>>, n: int) -> (m: int)
    requires
        names.len() > 0,
        are_names(names),
        0 <= n < slash_between(names).len(),
        slash_between(names)[n] == 47,
    ensures
        0 < m < names.len(),
        cut(names, m) == n,
    decreases names.len(),
{
    let p = slash_between(names);
    let name = names.last();
    assert(is_name(names[names.len() - 1]));
    if names.len() == 1 {
        assert(name.contains(p[n]));
        1
    } else {
        let front = names.drop_last();
        assert(front =~= names.take(names.len() - 1));
        lemma_front_names(names, names.len() - 1);
        let q = slash_between(front);
        if n < q.len() {
            assert(q[n] == p[n]);
            let m = lemma_slash_is_cut(front, n);
            assert(front.take(m) =~= names.take(m));
            m
        } else if n == q.len() {
            names.len() - 1
        } else {
            assert(p[n] == name[n - q.len() - 1]);
            assert(name.contains(name[n - q.len() - 1]));
            1
        }
    }
}

proof fn lemma_cut_grows(names: Seq<Seq<u8>>, a: int, b: int)
    requires
        are_names(names),
        0 < a < b <= names.len(),
    ensures
        cut(names, a) < cut(names, b),
{
    let front = names.take(b);
    lemma_front_names(names, b);
    lemma_cut(front, a);
    assert(front.take(a) =~= names.take(a));
}

/// A plain path is split behind the most names that have room in the prefix.
proof fn lemma_split(names: Seq<Seq<u8>>) -> (m: int)
    requires
        names.len() > 0,
        are_names(names),
    ensures
        0 <= m < names.len(),
        split_parent(slash_between(names)) == Some(slash_between(names.take(m))),
        m > 0 ==> cut(names, m) <= 155,
        forall|k: int| m < k < names.len() ==> #[trigger] cut(names, k) > 155,
    decreases names.len(),
{
    let n = names.len() - 1;
    let front = names.drop_last();
    assert(front =~= names.take(n));
    law_plain_parent(names);
    let q = slash_between(front);
    if n == 0 || q.len() <= 155 {
        if n == 0 {
            assert(q =~= Seq::empty());
        }
        n
    } else {
        lemma_front_names(names, n);
        let m = lemma_split(front);
        assert(front.take(m) =~= names.take(m));
        lemma_cut(names, n);
        assert forall|k: int| m < k < names.len() implies #[trigger] cut(names, k) > 155 by {
            if k < n {
                assert(front.take(k) =~= names.take(k));
                assert(cut(front, k) > 155);
            }
        }
        m
    }
}

/// A plain path that is too long for the name of a UStar header can be set exactly if there is a
/// slash in it with at most 155 bytes before it and at most 100 behind it.
pub proof fn law_split_whenever_possible(h: Seq<u8>, names: Seq<Seq<u8>>)
    requires
        h.len() == 512,
        is_ustar(h),
        names.len() > 0,
        are_names(names),
        slash_between(names).len() > 100,
        !slash_between(names).contains(0u8),
    ensures
        header_path_stored(h, slash_between(names)).1 is Ok <==> exists|n: int|
            0 < n <= 155 && n < slash_between(names).len() && #[trigger] slash_between(names)[n]
                == 47 && slash_between(names).len() - n - 1 <= 100,
{
    let p = slash_between(names);
    let name = h.subrange(0, 100);
    let prefix = h.subrange(345, 500);
    let m = lemma_split(names);
    let q = slash_between(names.take(m));
    let rest = p.skip((q.len() + 1) as int);
    law_path_stored(prefix, q, false);
    law_path_stored(name, rest, false);
    if m > 0 {
        lemma_cut(names, m);
        lemma_front_names(names, m);
        law_plain_spelling(names.take(m), false);
        law_plain_spelling(names.skip(m), false);
        assert(!q.contains(0u8)) by {
            if q.contains(0u8) {
                let k = choose|k: int| 0 <= k < q.len() && q[k] == 0;
                assert(p[k] == 0);
            }
        }
        assert(!rest.contains(0u8)) by {
            if rest.contains(0u8) {
                let k = choose|k: int| 0 <= k < rest.len() && rest[k] == 0;
                assert(p[k + q.len() + 1] == 0);
            }
        }
        assert(p[q.len() as int] == 47);
    } else {
        assert(names.take(0) =~= Seq::empty());
        assert(q =~= Seq::empty());
        assert(parts(q) =~= Seq::empty());
        assert(archive_path(q, false) is Err);
    }
    if exists|n: int|
        0 < n <= 155 && n < p.len() && #[trigger] p[n] == 47 && p.len() - n - 1 <= 100 {
        let n = choose|n: int|
            0 < n <= 155 && n < p.len() && #[trigger] p[n] == 47 && p.len() - n - 1 <= 100;
        let k = lemma_slash_is_cut(names, n);
        assert(k <= m) by {
            if k > m {
                assert(cut(names, k) > 155);
            }
        }
        if k < m {
            lemma_cut_grows(names, k, m);
        }
    }
}

} // verus!
