//! What paths are made of, and how they are spelled in an archive.

use crate::bytes::{lemma_find_from_is, slashed};
use crate::dir_laws::law_joined;
use crate::error::TarError;
use crate::path::{joined, lead, parts, parts_from, segment_part, slash_at_end, Part};
use crate::realpath::{lemma_no_lead, lemma_parts_parent};
use crate::stored_path::{archive_path, joined_text, lemma_parts_split, path_pieces, pieces};
use crate::unpack::{is_name, lemma_parts_are_names, lemma_parts_joined};
use vstd::prelude::*;

verus! {

/// Text is read with a slash for every backslash, and with every other byte as it is.
pub proof fn law_slashed(s: Seq<u8>)
    ensures
        slashed(s).len() == s.len(),
        forall|k: int| 0 <= k < s.len() && s[k] == 92 ==> #[trigger] slashed(s)[k] == 47,
        forall|k: int| 0 <= k < s.len() && s[k] != 92 ==> #[trigger] slashed(s)[k] == s[k],
        !s.contains(92u8) ==> slashed(s) == s,
{
    if !s.contains(92u8) {
        assert forall|k: int| 0 <= k < s.len() implies slashed(s)[k] == s[k] by {
            assert(s.contains(s[k]));
        }
        assert(slashed(s) =~= s);
    }
}

/// Bytes without a slash are one component: none if there are none, `.`, `..`, or a name.
pub proof fn law_parts_without_slash(s: Seq<u8>)
    requires
        !s.contains(47u8),
    ensures
        s.len() == 0 ==> parts(s) == Seq::<Part>::empty(),
        s == seq![46u8] ==> parts(s) == seq![Part::CurDir],
        s == seq![46u8, 46u8] ==> parts(s) == seq![Part::ParentDir],
        s.len() > 0 && s != seq![46u8] && s != seq![46u8, 46u8] ==> parts(s) == seq![
            Part::Normal(s),
        ],
{
    assert forall|k: int| 0 <= k < s.len() implies s[k] != 47 by {
        assert(s.contains(s[k]));
    }
    if s.len() == 0 {
        assert(parts(s) =~= Seq::<Part>::empty());
    } else {
        lemma_find_from_is(s, 47, 0, s.len() as int);
        assert(s.subrange(0, s.len() as int) =~= s);
        let none = parts_from(s, s.len() + 1int);
        assert(none =~= Seq::empty());
        if lead(s) is Some {
            assert(s =~= seq![46u8]);
            assert(segment_part(s) is None);
            assert(parts(s) =~= seq![Part::CurDir]);
        } else if s =~= seq![46u8, 46u8] {
            assert(parts(s) =~= seq![Part::ParentDir]);
        } else {
            if s =~= seq![46u8] {
                assert(lead(s) is Some);
            }
            assert(parts(s) =~= seq![Part::Normal(s)]);
        }
    }
}

/// Components without a root or a `.` at their start.
pub open spec fn behind_lead(list: Seq<Part>) -> Seq<Part> {
    if list.len() > 0 && (list[0] is RootDir || list[0] is CurDir) {
        list.skip(1)
    } else {
        list
    }
}

proof fn lemma_behind_lead(p: Seq<u8>)
    ensures
        behind_lead(parts(p)) == parts_from(p, 0),
{
    lemma_no_lead(p, 0);
    let list = parts_from(p, 0);
    if lead(p) is Some {
        assert(parts(p).skip(1) =~= list);
    } else if list.len() > 0 {
        assert(list[0] is Normal || list[0] is ParentDir);
    }
}

/// The components of a path are those before any of its slashes and those behind it. Behind a slash
/// there is no root, and a `.` there adds nothing. A slash at the start is the root.
pub proof fn law_parts_at_slash(p: Seq<u8>, n: int)
    requires
        0 <= n < p.len(),
        p[n] == 47,
    ensures
        parts(p) == (if n == 0 {
            seq![Part::RootDir]
        } else {
            parts(p.take(n))
        }) + behind_lead(parts(p.skip(n + 1))),
{
    lemma_parts_split(p, n, 0);
    lemma_behind_lead(p.skip(n + 1));
    if n == 0 {
        assert(parts_from(p.take(n), 0) =~= Seq::empty());
        assert(parts(p) =~= seq![Part::RootDir] + parts_from(p.skip(n + 1), 0));
    } else {
        assert(lead(p) == lead(p.take(n)));
        assert(parts(p) =~= parts(p.take(n)) + parts_from(p.skip(n + 1), 0));
    }
}

/// Names with a slash between each two of them.
pub open spec fn slash_between(names: Seq<Seq<u8>>) -> Seq<u8>
    decreases names.len(),
{
    if names.len() == 0 {
        Seq::empty()
    } else if names.len() == 1 {
        names[0]
    } else {
        slash_between(names.drop_last()) + seq![47u8] + names.last()
    }
}

/// Whether some byte strings can be the names in a path.
pub open spec fn are_names(names: Seq<Seq<u8>>) -> bool {
    forall|k: int| 0 <= k < names.len() ==> is_name(#[trigger] names[k])
}

/// The components that some names stand for.
pub open spec fn as_parts(names: Seq<Seq<u8>>) -> Seq<Part> {
    names.map_values(|n: Seq<u8>| Part::Normal(n))
}

proof fn lemma_name_end(name: Seq<u8>)
    requires
        is_name(name),
    ensures
        name.last() != 47,
        name[0] != 47,
{
    assert(name.contains(name[0]));
    assert(name.contains(name[name.len() - 1]));
}

proof fn lemma_plain(names: Seq<Seq<u8>>, is_link: bool)
    requires
        names.len() > 0,
        are_names(names),
    ensures
        ({
            let p = slash_between(names);
            &&& parts(p) == as_parts(names)
            &&& p.len() > 0
            &&& p.last() != 47
            &&& pieces(as_parts(names), is_link).error is None
            &&& pieces(as_parts(names), is_link).last == Some(Part::Normal(names.last()))
            &&& joined_text(pieces(as_parts(names), is_link).chunks) == p
        }),
    decreases names.len(),
{
    let p = slash_between(names);
    let list = as_parts(names);
    let front = names.drop_last();
    let name = names.last();
    assert(is_name(names[names.len() - 1]));
    lemma_name_end(name);
    let text = seq![name];
    let before = pieces(as_parts(front), is_link);
    let all = pieces(list, is_link);
    assert(list.drop_last() =~= as_parts(front));
    if names.len() == 1 {
        lemma_parts_joined(Seq::empty(), name);
        assert(joined(Seq::empty(), name) =~= name);
        assert(parts(Seq::<u8>::empty()) =~= Seq::empty());
        assert(parts(p) =~= list);
        assert(as_parts(front) =~= Seq::empty());
        assert(all.chunks =~= text);
        assert(joined_text(text) =~= name) by {
            reveal_with_fuel(joined_text, 2);
            assert(text.drop_last() =~= Seq::empty());
        }
    } else {
        assert forall|k: int| 0 <= k < front.len() implies is_name(#[trigger] front[k]) by {
            assert(front[k] == names[k]);
        }
        lemma_plain(front, is_link);
        let q = slash_between(front);
        lemma_parts_joined(q, name);
        assert(p =~= joined(q, name));
        assert(parts(p) =~= list);
        let slash = seq![seq![47u8]];
        assert(all.chunks =~= before.chunks.push(seq![47u8]).push(name));
        assert(all.chunks.drop_last() =~= before.chunks.push(seq![47u8]));
        assert(before.chunks.push(seq![47u8]).drop_last() =~= before.chunks);
        reveal_with_fuel(joined_text, 3);
        assert(joined_text(all.chunks) =~= p);
    }
}

/// A path that is spelled plainly, with a slash between each two names, has these names as its
/// components, and is spelled in an archive as it is, byte for byte. A slash at its end is kept.
pub proof fn law_plain_spelling(names: Seq<Seq<u8>>, is_link: bool)
    requires
        names.len() > 0,
        are_names(names),
    ensures
        parts(slash_between(names)) == names.map_values(|n: Seq<u8>| Part::Normal(n)),
        archive_path(slash_between(names), is_link) == Ok::<Seq<u8>, TarError>(
            slash_between(names),
        ),
        archive_path(slash_between(names).push(47u8), is_link) == Ok::<Seq<u8>, TarError>(
            slash_between(names).push(47u8),
        ),
{
    let p = slash_between(names);
    lemma_plain(names, is_link);
    let q = p.push(47u8);
    law_joined(p, Seq::empty());
    assert(joined(p, Seq::empty()) =~= q);
    assert(parts(Seq::<u8>::empty()) =~= Seq::empty());
    assert(parts(q) =~= as_parts(names));
    let chunks = pieces(as_parts(names), is_link).chunks;
    assert(path_pieces(q, is_link).chunks =~= chunks.push(seq![47u8]));
    assert(chunks.push(seq![47u8]).drop_last() =~= chunks);
    reveal_with_fuel(joined_text, 2);
    assert(archive_path(q, is_link)->Ok_0 =~= q);
}

/// What the components of a path can be: a root or a `.` only first, and names.
spec fn is_list(list: Seq<Part>) -> bool {
    &&& forall|k: int|
        0 <= k < list.len() ==> (#[trigger] list[k] matches Part::Normal(name) ==> is_name(name))
    &&& forall|k: int|
        0 < k < list.len() ==> (#[trigger] list[k] is Normal || list[k] is ParentDir)
}

proof fn lemma_is_list(p: Seq<u8>)
    ensures
        is_list(parts(p)),
{
    lemma_no_lead(p, 0);
    lemma_parts_are_names(p, 0);
    let list = parts(p);
    assert forall|k: int| 0 <= k < list.len() implies (#[trigger] list[k] matches Part::Normal(name)
        ==> is_name(name)) by {
        if lead(p) is Some {
            if k > 0 {
                assert(list[k] == parts_from(p, 0)[k - 1]);
            }
        } else {
            assert(list[k] == parts_from(p, 0)[k]);
        }
    }
    assert forall|k: int| 0 < k < list.len() implies (#[trigger] list[k] is Normal || list[k]
        is ParentDir) by {
        if lead(p) is Some {
            assert(list[k] == parts_from(p, 0)[k - 1]);
        } else {
            assert(list[k] == parts_from(p, 0)[k]);
        }
    }
}

/// The names among some components.
spec fn only_names(list: Seq<Part>) -> Seq<Part> {
    list.filter(|q: Part| q is Normal)
}

proof fn lemma_spelled_names(list: Seq<Part>)
    requires
        is_list(list),
    ensures
        ({
            let all = pieces(list, false);
            let text = joined_text(all.chunks);
            &&& all.error is None <==> forall|k: int|
                0 <= k < list.len() ==> !(#[trigger] list[k] is RootDir) && !(list[k] is ParentDir)
            &&& all.error is None ==> parts(text) == only_names(list)
            &&& all.error is None ==> (all.last is Some <==> text.len() > 0)
            &&& all.error is None && text.len() > 0 ==> text.last() != 47
            &&& all.error is None ==> (all.last matches Some(q) ==> q is Normal)
            &&& all.error is None ==> (all.last is Some <==> only_names(list).len() > 0)
            &&& all.error matches Some(e) ==> e == if list[0] is RootDir {
                TarError::PathNotRelative
            } else {
                TarError::PathHasParent
            }
        }),
    decreases list.len(),
{
    reveal(Seq::filter);
    reveal_with_fuel(joined_text, 3);
    let all = pieces(list, false);
    if list.len() == 0 {
        assert(parts(Seq::<u8>::empty()) =~= Seq::empty());
    } else {
        let front = list.drop_last();
        let part = list.last();
        assert(part == list[list.len() - 1]);
        assert(is_list(front)) by {
            assert forall|k: int| 0 <= k < front.len() implies (#[trigger] front[k] matches Part::Normal(
                name,
            ) ==> is_name(name)) by {
                assert(front[k] == list[k]);
            }
            assert forall|k: int| 0 < k < front.len() implies (#[trigger] front[k] is Normal
                || front[k] is ParentDir) by {
                assert(front[k] == list[k]);
            }
        }
        lemma_spelled_names(front);
        let before = pieces(front, false);
        if before.error is Some {
            let k = choose|k: int|
                0 <= k < front.len() && (#[trigger] front[k] is RootDir || front[k] is ParentDir);
            assert(list[k] is RootDir || list[k] is ParentDir);
        } else {
            assert forall|k: int| 0 <= k < front.len() implies !(#[trigger] list[k] is RootDir) && !(
            list[k] is ParentDir) by {
                assert(front[k] == list[k]);
            }
            match part {
                Part::Normal(name) => {
                    lemma_name_end(name);
                    let early = joined_text(before.chunks);
                    lemma_parts_joined(early, name);
                    if before.last is Some {
                        let mid = before.chunks.push(seq![47u8]);
                        assert(all.chunks =~= mid.push(name));
                        assert(all.chunks.drop_last() =~= mid);
                        assert(mid.drop_last() =~= before.chunks);
                    } else {
                        assert(all.chunks =~= before.chunks.push(name));
                        assert(all.chunks.drop_last() =~= before.chunks);
                    }
                    assert(joined_text(all.chunks) =~= joined(early, name));
                },
                _ => {},
            }
        }
    }
}

/// A path has a spelling in an archive exactly if it neither starts at the root nor holds `..`, and
/// has a name. The spelling has the names of the path as its components, and ends in a slash if
/// the path does. Of a path without a spelling, the first of these faults is told.
pub proof fn law_spelling(p: Seq<u8>)
    ensures
        archive_path(p, false) is Ok <==> {
            &&& forall|k: int|
                0 <= k < parts(p).len() ==> !(#[trigger] parts(p)[k] is RootDir) && !(parts(p)[k]
                    is ParentDir)
            &&& exists|k: int| 0 <= k < parts(p).len() && #[trigger] parts(p)[k] is Normal
        },
        archive_path(p, false) matches Ok(text) ==> {
            &&& parts(text) == parts(p).filter(|q: Part| q is Normal)
            &&& slash_at_end(text) == slash_at_end(p)
        },
        archive_path(p, false) matches Err(e) ==> e == if p.len() > 0 && p[0] == 47 {
            TarError::PathNotRelative
        } else if exists|k: int| 0 <= k < parts(p).len() && #[trigger] parts(p)[k] is ParentDir {
            TarError::PathHasParent
        } else {
            TarError::PathEmpty
        },
{
    let list = parts(p);
    lemma_is_list(p);
    lemma_spelled_names(list);
    let all = pieces(list, false);
    lemma_filter_some(list);
    if lead(p) is Some {
        assert(list[0] == lead(p)->Some_0);
    } else if list.len() > 0 {
        lemma_no_lead(p, 0);
        assert(list[0] == parts_from(p, 0)[0]);
    }
    if all.error is None {
        let text = joined_text(all.chunks);
        if slash_at_end(p) {
            let more = all.chunks.push(seq![47u8]);
            assert(more.drop_last() =~= all.chunks);
            reveal_with_fuel(joined_text, 2);
            law_joined(text, Seq::empty());
            assert(parts(Seq::<u8>::empty()) =~= Seq::empty());
            if text.len() > 0 {
                assert(joined(text, Seq::empty()) =~= joined_text(more));
                assert(parts(joined_text(more)) =~= parts(text));
            }
        }
    }
}

proof fn lemma_filter_some(list: Seq<Part>)
    ensures
        only_names(list).len() > 0 <==> exists|k: int|
            0 <= k < list.len() && #[trigger] list[k] is Normal,
    decreases list.len(),
{
    reveal(Seq::filter);
    if list.len() > 0 {
        let front = list.drop_last();
        lemma_filter_some(front);
        if list.last() is Normal {
            assert(list[list.len() - 1] is Normal);
        }
        if only_names(front).len() > 0 {
            let k = choose|k: int| 0 <= k < front.len() && #[trigger] front[k] is Normal;
            assert(list[k] is Normal);
        }
        if exists|k: int| 0 <= k < list.len() && #[trigger] list[k] is Normal {
            let k = choose|k: int| 0 <= k < list.len() && #[trigger] list[k] is Normal;
            if k < front.len() {
                assert(front[k] is Normal);
            }
        }
    }
}

proof fn lemma_spelled_link(list: Seq<Part>)
    requires
        is_list(list),
    ensures
        ({
            let all = pieces(list, true);
            let text = joined_text(all.chunks);
            &&& all.error is None
            &&& parts(text) == list
            &&& list.len() == 0 ==> all.last is None && text.len() == 0
            &&& list.len() > 0 ==> all.last == Some(list.last()) && text.len() > 0
            &&& list.len() > 0 ==> (text.last() == 47 <==> list.last() is RootDir)
        }),
    decreases list.len(),
{
    reveal_with_fuel(joined_text, 3);
    let all = pieces(list, true);
    if list.len() == 0 {
        assert(parts(Seq::<u8>::empty()) =~= list);
    } else {
        let n = list.len() - 1;
        let front = list.drop_last();
        let part = list.last();
        let text = part.text();
        assert(part == list[n]);
        assert(is_list(front)) by {
            assert forall|k: int| 0 <= k < front.len() implies (#[trigger] front[k] matches Part::Normal(
                name,
            ) ==> is_name(name)) by {
                assert(front[k] == list[k]);
            }
            assert forall|k: int| 0 < k < front.len() implies (#[trigger] front[k] is Normal
                || front[k] is ParentDir) by {
                assert(front[k] == list[k]);
            }
        }
        lemma_spelled_link(front);
        let before = pieces(front, true);
        let early = joined_text(before.chunks);
        if before.last is Some && before.last != Some(Part::RootDir) {
            let mid = before.chunks.push(seq![47u8]);
            assert(all.chunks =~= mid.push(text));
            assert(all.chunks.drop_last() =~= mid);
            assert(mid.drop_last() =~= before.chunks);
        } else {
            assert(all.chunks =~= before.chunks.push(text));
            assert(all.chunks.drop_last() =~= before.chunks);
        }
        match part {
            Part::Normal(name) => {
                lemma_name_end(name);
                lemma_parts_joined(early, name);
                assert(joined_text(all.chunks) =~= joined(early, name));
            },
            Part::ParentDir => {
                lemma_parts_parent(early);
                assert(joined_text(all.chunks) =~= joined(early, text));
            },
            _ => {
                assert(n == 0);
                assert(joined_text(all.chunks) =~= text);
                if part is RootDir {
                    law_parts_at_slash(text, 0);
                    assert(text.skip(1) =~= Seq::empty());
                    assert(parts(Seq::<u8>::empty()) =~= Seq::empty());
                } else {
                    law_parts_without_slash(text);
                }
                assert(parts(text) =~= list);
            },
        }
        assert(list =~= front.push(part));
    }
}

/// A link name has a spelling in an archive exactly if it has a component. The spelling has the same
/// components, the root and `..` among them, and ends in a slash if the link name does.
pub proof fn law_link_spelling(p: Seq<u8>)
    ensures
        archive_path(p, true) is Ok <==> parts(p).len() > 0,
        archive_path(p, true) is Err ==> archive_path(p, true) == Err::<Seq<u8>, TarError>(
            TarError::PathEmpty,
        ),
        archive_path(p, true) matches Ok(text) ==> parts(text) == parts(p),
        archive_path(p, true) matches Ok(text) ==> (parts(p).last() != Part::RootDir ==> slash_at_end(
            text,
        ) == slash_at_end(p)),
{
    let list = parts(p);
    lemma_is_list(p);
    lemma_spelled_link(list);
    let all = pieces(list, true);
    let text = joined_text(all.chunks);
    if slash_at_end(p) && list.len() > 0 {
        let more = all.chunks.push(seq![47u8]);
        assert(more.drop_last() =~= all.chunks);
        reveal_with_fuel(joined_text, 2);
        assert(parts(Seq::<u8>::empty()) =~= Seq::empty());
        let longer = text.push(47u8);
        law_parts_at_slash(longer, text.len() as int);
        assert(longer.take(text.len() as int) =~= text);
        assert(longer.skip(text.len() + 1int) =~= Seq::empty());
        assert(joined_text(more) =~= longer);
        assert(parts(longer) =~= list);
    }
}

} // verus!
