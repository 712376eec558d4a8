//! Cleaning of paths and following of symbolic links, akin to `realpath -m`.

use crate::bytes::{find_from, lemma_find_from, lemma_find_from_is};
use crate::error::TarError;
use crate::path::{
    components, has_root, is_absolute, join, joined, lead, parts, parts_from, push, render,
    rendered, same_bytes, segment_part, span_parts, Component, Part, Span,
};
use crate::stored_path::lemma_parts_split;
use crate::unpack::{is_name, lemma_parts_are_names, lemma_parts_joined};
use vstd::prelude::*;
use vstd::slice::slice_to_vec;

verus! {

/// How many symbolic links are followed at most.
pub const LINKS_LIMIT: u8 = 40;

/// Returns the plain spelling of a path: its components with single slashes between them.
pub fn normalize(path: &[u8]) -> (r: Vec<u8>)
    ensures
        r@ == rendered(parts(path@)),
{
    let spans: Vec<Span<'_>> = components(path);
    assert(span_parts(spans@).skip(0) =~= parts(path@));
    render(&spans, 0)
}

/// A component that is still to be followed.
pub enum Ahead {
    /// The root directory.
    RootDir,
    /// A `.`.
    CurDir,
    /// A `..`.
    ParentDir,
    /// Any other name.
    Normal(Vec<u8>),
}

impl View for Ahead {
    type V = Part;

    open spec fn view(&self) -> Part {
        match self {
            Ahead::RootDir => Part::RootDir,
            Ahead::CurDir => Part::CurDir,
            Ahead::ParentDir => Part::ParentDir,
            Ahead::Normal(name) => Part::Normal(name@),
        }
    }
}

/// The components that a stack stands for, the topmost first.
pub open spec fn ahead_parts(stack: Seq<Ahead>) -> Seq<Part>
    decreases stack.len(),
{
    if stack.len() == 0 {
        Seq::empty()
    } else {
        seq![stack.last()@] + ahead_parts(stack.drop_last())
    }
}

/// The names that a list holds.
pub open spec fn names_of(list: Seq<Vec<u8>>) -> Seq<Seq<u8>> {
    list.map_values(|v: Vec<u8>| v@)
}

/// The path of the file that names lead to from the root.
pub open spec fn spelled(names: Seq<Seq<u8>>) -> Seq<u8>
    decreases names.len(),
{
    if names.len() == 0 {
        seq![47u8]
    } else {
        joined(spelled(names.drop_last()), names.last())
    }
}

/// A path that is being resolved, as a mathematical value.
#[verifier::ext_equal]
pub struct Resolving {
    /// The names from the root to where the walk stands. None of them leads to a link.
    pub names: Seq<Seq<u8>>,
    /// The components that are still to be followed.
    pub ahead: Seq<Part>,
    /// How many more links may be followed.
    pub left: int,
}

/// Where a walk stands once it went on to a component that is no name.
///
/// The parent of the root is the root.
pub open spec fn moved(names: Seq<Seq<u8>>, part: Part) -> Seq<Seq<u8>> {
    match part {
        Part::RootDir => Seq::empty(),
        Part::ParentDir => if names.len() == 0 {
            names
        } else {
            names.drop_last()
        },
        _ => names,
    }
}

/// A walk that went on to the next name, or to its end.
pub open spec fn advanced(s: Resolving) -> Resolving
    decreases s.ahead.len(),
{
    if s.ahead.len() == 0 || s.ahead[0] is Normal {
        s
    } else {
        advanced(Resolving { names: moved(s.names, s.ahead[0]), ahead: s.ahead.skip(1), ..s })
    }
}

/// The path that the next name leads to, if a name is ahead.
pub open spec fn asked(s: Resolving) -> Option<Seq<u8>> {
    if s.ahead.len() > 0 && s.ahead[0] is Normal {
        Some(spelled(s.names.push(s.ahead[0]->Normal_0)))
    } else {
        None
    }
}

/// A walk that learned whether the next name is a link, and to what.
///
/// A link is replaced by the components of its target.
pub open spec fn answered(s: Resolving, target: Option<Seq<u8>>) -> Result<Resolving, TarError> {
    match target {
        None => Ok(
            Resolving {
                names: s.names.push(s.ahead[0]->Normal_0),
                ahead: s.ahead.skip(1),
                left: s.left,
            },
        ),
        Some(t) => if s.left <= 0 {
            Err(TarError::TooManyLinks)
        } else {
            Ok(Resolving { names: s.names, ahead: parts(t) + s.ahead.skip(1), left: s.left - 1 })
        },
    }
}

/// Going on takes components from what is ahead, down to the next name.
pub proof fn lemma_advanced(s: Resolving)
    ensures
        advanced(s).ahead.len() <= s.ahead.len(),
        advanced(s).left == s.left,
        advanced(s).ahead.len() > 0 ==> advanced(s).ahead[0] is Normal,
    decreases s.ahead.len(),
{
    if s.ahead.len() > 0 && !(s.ahead[0] is Normal) {
        lemma_advanced(
            Resolving { names: moved(s.names, s.ahead[0]), ahead: s.ahead.skip(1), ..s },
        );
    }
}

/// The path that a walk ends at, when `links` says which paths are links and to what.
pub open spec fn resolved(s: Resolving, links: spec_fn(Seq<u8>) -> Option<Seq<u8>>) -> Result<
    Seq<u8>,
    TarError,
>
    decreases s.left, s.ahead.len(),
{
    let a = advanced(s);
    proof {
        lemma_advanced(s);
    }
    match asked(a) {
        None => Ok(spelled(a.names)),
        Some(p) => match answered(a, links(p)) {
            Err(e) => Err(e),
            Ok(n) => resolved(n, links),
        },
    }
}

/// Where the walk along an absolute path starts.
pub open spec fn walk_of(path: Seq<u8>) -> Resolving {
    Resolving { names: Seq::empty(), ahead: parts(path), left: LINKS_LIMIT as int }
}

/// The path that is walked along: `path` itself, or behind `base` if it is relative.
///
/// There must be a path, and it must come to be absolute.
pub open spec fn anchored(path: Seq<u8>, base: Option<Seq<u8>>) -> Result<Seq<u8>, TarError> {
    let full = joined(
        match base {
            Some(b) => b,
            None => Seq::empty(),
        },
        path,
    );
    if parts(path).len() == 0 {
        Err(TarError::EmptyPath)
    } else if !is_absolute(full) {
        Err(TarError::RelativePath)
    } else {
        Ok(full)
    }
}

/// The canonical absolute name of a path, when `links` says which paths are links and to what.
pub open spec fn real_path(
    path: Seq<u8>,
    base: Option<Seq<u8>>,
    links: spec_fn(Seq<u8>) -> Option<Seq<u8>>,
) -> Result<Seq<u8>, TarError> {
    match anchored(path, base) {
        Ok(full) => resolved(walk_of(full), links),
        Err(e) => Err(e),
    }
}

/// A path that is being resolved.
///
/// It asks of one path after the other whether it is a link, and to what.
pub struct Resolver {
    /// The names from the root to where the walk stands.
    pub names: Vec<Vec<u8>>,
    /// The components that are still to be followed, the next one last.
    pub ahead: Vec<Ahead>,
    /// How many more links may be followed.
    pub left: u8,
}

impl View for Resolver {
    type V = Resolving;

    open spec fn view(&self) -> Resolving {
        Resolving {
            names: names_of(self.names@),
            ahead: ahead_parts(self.ahead@),
            left: self.left as int,
        }
    }
}

/// Puts the components of a path on top of a stack.
fn push_ahead(stack: &mut Vec<Ahead>, p: &[u8])
    ensures
        ahead_parts(final(stack)@) == parts(p@) + ahead_parts(old(stack)@),
{
    let ghost before = ahead_parts(stack@);
    let spans: Vec<Span<'_>> = components(p);
    let ghost list = parts(p@);
    assert(span_parts(spans@).len() == spans@.len());
    let mut i: usize = spans.len();
    assert(list.skip(i as int) + before =~= before);
    while i > 0
        invariant
            i <= spans@.len(),
            span_parts(spans@) == list,
            list.len() == spans@.len(),
            ahead_parts(stack@) == list.skip(i as int) + before,
        decreases i,
    {
        let ghost rest = stack@;
        let part: Ahead = match spans[i - 1].part {
            Component::RootDir => Ahead::RootDir,
            Component::CurDir => Ahead::CurDir,
            Component::ParentDir => Ahead::ParentDir,
            Component::Normal(name) => Ahead::Normal(slice_to_vec(name)),
        };
        assert(part@ == list[i - 1]);
        stack.push(part);
        i = i - 1;
        assert(stack@.drop_last() =~= rest);
        assert(list.skip(i as int) + before =~= seq![list[i as int]] + (list.skip(i + 1)
            + before));
    }
    assert(list.skip(0) =~= list);
}

/// Returns the path of the file that names lead to from the root.
fn spell(names: &Vec<Vec<u8>>) -> (r: Vec<u8>)
    ensures
        r@ == spelled(names_of(names@)),
{
    let ghost list = names_of(names@);
    let mut r: Vec<u8> = vec![47];
    assert(r@ =~= seq![47u8]);
    let mut i: usize = 0;
    while i < names.len()
        invariant
            i <= names@.len(),
            list == names_of(names@),
            r@ == spelled(list.take(i as int)),
        decreases names@.len() - i,
    {
        assert(list.take(i + 1).drop_last() =~= list.take(i as int));
        push(&mut r, names[i].as_slice());
        i = i + 1;
    }
    assert(list.take(i as int) =~= list);
    r
}

impl Resolver {
    /// Starts to resolve a path. A relative path stands behind `base`.
    pub fn new(path: &[u8], base: Option<&[u8]>) -> (r: Result<Resolver, TarError>)
        ensures
            match anchored(
                path@,
                match base {
                    Some(b) => Some(b@),
                    None => None,
                },
            ) {
                Ok(full) => r matches Ok(s) && s@ == walk_of(full),
                Err(e) => r == Err::<Resolver, TarError>(e),
            },
    {
        let spans: Vec<Span<'_>> = components(path);
        assert(span_parts(spans@).len() == spans@.len());
        if spans.len() == 0 {
            return Err(TarError::EmptyPath);
        }
        let full: Vec<u8> = match base {
            Some(b) => join(b, path),
            None => {
                let r: Vec<u8> = slice_to_vec(path);
                assert(r@ =~= joined(Seq::empty(), path@));
                r
            },
        };
        if !has_root(full.as_slice()) {
            return Err(TarError::RelativePath);
        }
        let mut ahead: Vec<Ahead> = Vec::new();
        push_ahead(&mut ahead, full.as_slice());
        let r: Resolver = Resolver { names: Vec::new(), ahead, left: LINKS_LIMIT };
        assert(names_of(r.names@) =~= Seq::empty());
        assert(r@.ahead =~= parts(full@));
        Ok(r)
    }

    /// Returns the next path of which the walk must know whether it is a link.
    ///
    /// If there is none the walk has come to its end.
    pub fn ask(&mut self) -> (r: Option<Vec<u8>>)
        ensures
            final(self)@ == advanced(old(self)@),
            match asked(final(self)@) {
                Some(p) => r matches Some(q) && q@ == p,
                None => r is None,
            },
    {
        let ghost goal = advanced(self@);
        while self.ahead.len() > 0
            invariant
                advanced(self@) == goal,
                goal == advanced(old(self)@),
            decreases self.ahead@.len(),
        {
            let ghost before = self@;
            let ghost stack = self.ahead@;
            assert(before.ahead[0] == stack.last()@);
            assert(before.ahead.skip(1) =~= ahead_parts(stack.drop_last()));
            let n: usize = self.ahead.len();
            let ghost list = self.names@;
            match &self.ahead[n - 1] {
                Ahead::Normal(name) => {
                    let mut names: Vec<Vec<u8>> = Vec::new();
                    copy_names(&mut names, &self.names);
                    names.push(slice_to_vec(name.as_slice()));
                    assert(names_of(names@) =~= names_of(self.names@).push(name@));
                    return Some(spell(&names));
                },
                Ahead::RootDir => {
                    self.names.clear();
                    assert(names_of(self.names@) =~= Seq::empty());
                },
                Ahead::ParentDir => {
                    let _: Option<Vec<u8>> = self.names.pop();
                    proof {
                        if list.len() > 0 {
                            assert(names_of(self.names@) =~= names_of(list).drop_last());
                        } else {
                            assert(names_of(self.names@) =~= names_of(list));
                        }
                    }
                },
                Ahead::CurDir => {},
            }
            let _: Option<Ahead> = self.ahead.pop();
            assert(self.ahead@ =~= stack.drop_last());
            assert(self@ == (Resolving {
                names: moved(before.names, before.ahead[0]),
                ahead: before.ahead.skip(1),
                ..before
            }));
        }
        None
    }

    /// Says whether the path that was asked for last is a link, and to what.
    ///
    /// Fails if too many links were followed before.
    pub fn answer(&mut self, target: Option<&[u8]>) -> (r: Result<(), TarError>)
        requires
            asked(old(self)@) is Some,
        ensures
            match answered(
                old(self)@,
                match target {
                    Some(t) => Some(t@),
                    None => None,
                },
            ) {
                Ok(n) => r is Ok && final(self)@ == n,
                Err(e) => r == Err::<(), TarError>(e) && *final(self) == *old(self),
            },
    {
        let ghost before = self@;
        let ghost stack = self.ahead@;
        let ghost list = self.names@;
        proof {
            assert(before.ahead[0] == stack.last()@);
            assert(before.ahead.skip(1) =~= ahead_parts(stack.drop_last()));
        }
        if target.is_some() && self.left == 0 {
            return Err(TarError::TooManyLinks);
        }
        let next: Option<Ahead> = self.ahead.pop();
        assert(self.ahead@ =~= stack.drop_last());
        match target {
            None => {
                if let Some(Ahead::Normal(name)) = next {
                    self.names.push(name);
                    assert(names_of(self.names@) =~= names_of(list).push(name@));
                }
            },
            Some(t) => {
                push_ahead(&mut self.ahead, t);
                self.left = self.left - 1;
            },
        }
        Ok(())
    }

    /// Returns the path of where the walk stands.
    pub fn path(&self) -> (r: Vec<u8>)
        ensures
            r@ == spelled(self@.names),
    {
        spell(&self.names)
    }
}

/// Appends copies of names.
fn copy_names(to: &mut Vec<Vec<u8>>, names: &Vec<Vec<u8>>)
    ensures
        names_of(final(to)@) == names_of(old(to)@) + names_of(names@),
{
    let ghost before = names_of(to@);
    let ghost list = names_of(names@);
    let mut i: usize = 0;
    assert(before + list.take(0) =~= before);
    while i < names.len()
        invariant
            i <= names@.len(),
            list == names_of(names@),
            names_of(to@) == before + list.take(i as int),
        decreases names@.len() - i,
    {
        let ghost now = to@;
        to.push(slice_to_vec(names[i].as_slice()));
        assert(names_of(to@) =~= names_of(now).push(list[i as int]));
        assert(before + list.take(i + 1) =~= (before + list.take(i as int)).push(list[i as int]));
        i = i + 1;
    }
    assert(list.take(i as int) =~= list);
}

/// What a table of links says of a path: the target of the first link with that path.
pub open spec fn target_of(links: Seq<(Vec<u8>, Vec<u8>)>, p: Seq<u8>) -> Option<Seq<u8>>
    decreases links.len(),
{
    if links.len() == 0 {
        None
    } else if links[0].0@ == p {
        Some(links[0].1@)
    } else {
        target_of(links.skip(1), p)
    }
}

/// Which paths are links, and to what, by a table.
pub open spec fn links_in(links: Seq<(Vec<u8>, Vec<u8>)>) -> spec_fn(Seq<u8>) -> Option<Seq<u8>> {
    |p: Seq<u8>| target_of(links, p)
}

/// Finds the target of a link in a table.
fn find_target<'a>(links: &'a Vec<(Vec<u8>, Vec<u8>)>, p: &[u8]) -> (r: Option<&'a [u8]>)
    ensures
        match target_of(links@, p@) {
            Some(t) => r matches Some(u) && u@ == t,
            None => r is None,
        },
{
    let mut i: usize = 0;
    assert(links@.skip(0) =~= links@);
    while i < links.len()
        invariant
            i <= links@.len(),
            target_of(links@, p@) == target_of(links@.skip(i as int), p@),
        decreases links@.len() - i,
    {
        assert(links@.skip(i as int).skip(1) =~= links@.skip(i + 1));
        if same_bytes(links[i].0.as_slice(), p) {
            return Some(links[i].1.as_slice());
        }
        i = i + 1;
    }
    None
}

/// Returns the canonical absolute name of a path, given all links that there are.
///
/// The path need not exist. Its canonical name holds no `.`, no `..` and no repeated slash,
/// and all links are followed to where they lead. A relative path stands behind `base`.
///
/// Fails if the path has no component, if it is relative and so is `base`, and if more than
/// forty links would have to be followed, as when a link leads to itself.
pub fn realpath(path: &[u8], base: Option<&[u8]>, links: &Vec<(Vec<u8>, Vec<u8>)>) -> (r: Result<
    Vec<u8>,
    TarError,
>)
    ensures
        match real_path(
            path@,
            match base {
                Some(b) => Some(b@),
                None => None,
            },
            links_in(links@),
        ) {
            Ok(p) => r matches Ok(q) && q@ == p,
            Err(e) => r == Err::<Vec<u8>, TarError>(e),
        },
{
    let mut walk: Resolver = Resolver::new(path, base)?;
    let ghost goal = resolved(walk@, links_in(links@));
    loop
        invariant
            resolved(walk@, links_in(links@)) == goal,
            goal == real_path(
                path@,
                match base {
                    Some(b) => Some(b@),
                    None => None,
                },
                links_in(links@),
            ),
        decreases walk@.left, walk@.ahead.len(),
    {
        proof {
            lemma_advanced(walk@);
        }
        match walk.ask() {
            None => {
                return Ok(walk.path());
            },
            Some(p) => {
                walk.answer(find_target(links, p.as_slice()))?;
            },
        }
    }
}

/// Whether names can be names, and none of the paths they lead along is a link.
spec fn is_plain(names: Seq<Seq<u8>>, links: spec_fn(Seq<u8>) -> Option<Seq<u8>>) -> bool {
    &&& forall|k: int| 0 <= k < names.len() ==> is_name(#[trigger] names[k])
    &&& forall|k: int| 0 < k <= names.len() ==> links(spelled(#[trigger] names.take(k))) is None
}

/// Whether the names among components can be names.
pub open spec fn has_names(list: Seq<Part>) -> bool {
    forall|k: int| 0 <= k < list.len() ==> (#[trigger] list[k] matches Part::Normal(name) ==> is_name(
        name,
    ))
}

pub proof fn lemma_has_names(p: Seq<u8>)
    ensures
        has_names(parts(p)),
{
    lemma_parts_are_names(p, 0);
    let list = parts(p);
    assert forall|k: int| 0 <= k < list.len() implies (#[trigger] list[k] matches Part::Normal(name)
        ==> is_name(name)) by {
        if lead(p) is Some {
            if k > 0 {
                assert(list[k] == parts_from(p, 0)[k - 1]);
            }
        } else {
            assert(list[k] == parts_from(p, 0)[k]);
        }
    }
}

proof fn lemma_plain_less(names: Seq<Seq<u8>>, links: spec_fn(Seq<u8>) -> Option<Seq<u8>>)
    requires
        is_plain(names, links),
        names.len() > 0,
    ensures
        is_plain(names.drop_last(), links),
{
    let less = names.drop_last();
    assert forall|k: int| 0 < k <= less.len() implies links(spelled(#[trigger] less.take(k))) is None by {
        assert(less.take(k) =~= names.take(k));
    }
    assert forall|k: int| 0 <= k < less.len() implies is_name(#[trigger] less[k]) by {
        assert(less[k] == names[k]);
    }
}

proof fn lemma_plain_more(
    names: Seq<Seq<u8>>,
    name: Seq<u8>,
    links: spec_fn(Seq<u8>) -> Option<Seq<u8>>,
)
    requires
        is_plain(names, links),
        is_name(name),
        links(spelled(names.push(name))) is None,
    ensures
        is_plain(names.push(name), links),
{
    let more = names.push(name);
    assert forall|k: int| 0 < k <= more.len() implies links(spelled(#[trigger] more.take(k))) is None by {
        if k <= names.len() {
            assert(more.take(k) =~= names.take(k));
        } else {
            assert(more.take(k) =~= more);
        }
    }
    assert forall|k: int| 0 <= k < more.len() implies is_name(#[trigger] more[k]) by {
        if k < names.len() {
            assert(more[k] == names[k]);
        }
    }
}

proof fn lemma_advanced_plain(s: Resolving, links: spec_fn(Seq<u8>) -> Option<Seq<u8>>)
    requires
        is_plain(s.names, links),
        has_names(s.ahead),
    ensures
        is_plain(advanced(s).names, links),
        has_names(advanced(s).ahead),
    decreases s.ahead.len(),
{
    if s.ahead.len() > 0 && !(s.ahead[0] is Normal) {
        let names = moved(s.names, s.ahead[0]);
        if s.names.len() > 0 {
            lemma_plain_less(s.names, links);
        }
        assert(is_plain(Seq::<Seq<u8>>::empty(), links));
        let ahead = s.ahead.skip(1);
        assert forall|k: int| 0 <= k < ahead.len() implies (#[trigger] ahead[k] matches Part::Normal(
            name,
        ) ==> is_name(name)) by {
            assert(ahead[k] == s.ahead[k + 1]);
        }
        lemma_advanced_plain(Resolving { names, ahead, ..s }, links);
    }
}

/// A walk ends at a path that no link lies on.
proof fn lemma_resolved_plain(
    s: Resolving,
    links: spec_fn(Seq<u8>) -> Option<Seq<u8>>,
) -> (names: Seq<Seq<u8>>)
    requires
        is_plain(s.names, links),
        has_names(s.ahead),
    ensures
        resolved(s, links) matches Ok(p) ==> p == spelled(names) && is_plain(names, links),
    decreases s.left, s.ahead.len(),
{
    let a = advanced(s);
    lemma_advanced(s);
    lemma_advanced_plain(s, links);
    match asked(a) {
        None => a.names,
        Some(p) => {
            let name = a.ahead[0]->Normal_0;
            let rest = a.ahead.skip(1);
            assert forall|k: int| 0 <= k < rest.len() implies (
            #[trigger] rest[k] matches Part::Normal(name) ==> is_name(name)) by {
                assert(rest[k] == a.ahead[k + 1]);
            }
            match links(p) {
                None => {
                    lemma_plain_more(a.names, name, links);
                    lemma_resolved_plain(
                        Resolving { names: a.names.push(name), ahead: rest, left: a.left },
                        links,
                    )
                },
                Some(t) => if a.left <= 0 {
                    Seq::empty()
                } else {
                    lemma_has_names(t);
                    let more = parts(t) + rest;
                    assert forall|k: int| 0 <= k < more.len() implies (
                    #[trigger] more[k] matches Part::Normal(name) ==> is_name(name)) by {
                        if k < parts(t).len() {
                            assert(more[k] == parts(t)[k]);
                        } else {
                            assert(more[k] == rest[k - parts(t).len()]);
                        }
                    }
                    lemma_resolved_plain(
                        Resolving { names: a.names, ahead: more, left: a.left - 1 },
                        links,
                    )
                },
            }
        },
    }
}

/// The components of a path that is spelled out from the root.
pub open spec fn rooted(names: Seq<Seq<u8>>) -> Seq<Part> {
    seq![Part::RootDir] + names.map_values(|name: Seq<u8>| Part::Normal(name))
}

proof fn lemma_root()
    ensures
        parts(seq![47u8]) == seq![Part::RootDir],
{
    let p = seq![47u8];
    assert(p.subrange(0, 0).len() == 0);
    assert(find_from(p, 47, 0) == 0);
    assert(parts_from(p, 1) =~= Seq::empty());
    assert(parts(p) =~= seq![Part::RootDir]);
}

/// The components of a path that names lead along from the root are the root and these names.
pub proof fn lemma_spelled(names: Seq<Seq<u8>>)
    requires
        forall|k: int| 0 <= k < names.len() ==> is_name(#[trigger] names[k]),
    ensures
        parts(spelled(names)) == rooted(names),
        rendered(rooted(names)) == spelled(names),
        is_absolute(spelled(names)),
    decreases names.len(),
{
    if names.len() == 0 {
        lemma_root();
        assert(rooted(names) =~= seq![Part::RootDir]);
        assert(seq![Part::RootDir].drop_last() =~= Seq::empty());
        assert(rendered(seq![Part::RootDir].drop_last()) =~= Seq::empty());
        assert(Part::RootDir.text() =~= seq![47u8]);
    } else {
        let less = names.drop_last();
        assert forall|k: int| 0 <= k < less.len() implies is_name(#[trigger] less[k]) by {
            assert(less[k] == names[k]);
        }
        lemma_spelled(less);
        let name = names.last();
        assert(name == names[names.len() - 1]);
        lemma_parts_joined(spelled(less), name);
        assert(rooted(names) =~= rooted(less).push(Part::Normal(name)));
        assert(rooted(names).drop_last() =~= rooted(less));
        if is_absolute(name) {
            assert(name.contains(name[0]));
        }
    }
}

/// A resolved path starts at the root; a `.` or a `..` or a second slash in a row is not in it.
pub proof fn law_realpath_clean(
    path: Seq<u8>,
    base: Option<Seq<u8>>,
    links: spec_fn(Seq<u8>) -> Option<Seq<u8>>,
)
    ensures
        real_path(path, base, links) matches Ok(p) ==> {
            &&& is_absolute(p)
            &&& parts(p)[0] == Part::RootDir
            &&& forall|k: int| 0 < k < parts(p).len() ==> #[trigger] parts(p)[k] is Normal
            &&& rendered(parts(p)) == p
        },
{
    if let Ok(full) = anchored(path, base) {
        let s = walk_of(full);
        lemma_has_names(full);
        let names = lemma_resolved_plain(s, links);
        if resolved(s, links) is Ok {
            lemma_spelled(names);
        }
    }
}

/// No link lies on a resolved path.
pub proof fn law_realpath_no_links(
    path: Seq<u8>,
    base: Option<Seq<u8>>,
    links: spec_fn(Seq<u8>) -> Option<Seq<u8>>,
)
    ensures
        real_path(path, base, links) matches Ok(p) ==> forall|k: int|
            1 < k <= parts(p).len() ==> links(rendered(#[trigger] parts(p).take(k))) is None,
{
    if let Ok(full) = anchored(path, base) {
        let s = walk_of(full);
        lemma_has_names(full);
        let names = lemma_resolved_plain(s, links);
        if let Ok(p) = resolved(s, links) {
            lemma_spelled(names);
            assert forall|k: int| 1 < k <= parts(p).len() implies links(
                rendered(#[trigger] parts(p).take(k)),
            ) is None by {
                let some = names.take(k - 1);
                assert forall|i: int| 0 <= i < some.len() implies is_name(#[trigger] some[i]) by {
                    assert(some[i] == names[i]);
                }
                lemma_spelled(some);
                assert(rooted(names).take(k) =~= rooted(some));
            }
        }
    }
}

proof fn lemma_walk_again(
    names: Seq<Seq<u8>>,
    k: int,
    left: int,
    links: spec_fn(Seq<u8>) -> Option<Seq<u8>>,
)
    requires
        is_plain(names, links),
        0 <= k <= names.len(),
        left >= 0,
    ensures
        resolved(
            Resolving {
                names: names.take(k),
                ahead: names.skip(k).map_values(|name: Seq<u8>| Part::Normal(name)),
                left,
            },
            links,
        ) == Ok::<Seq<u8>, TarError>(spelled(names)),
    decreases names.len() - k,
{
    let ahead = names.skip(k).map_values(|name: Seq<u8>| Part::Normal(name));
    let s = Resolving { names: names.take(k), ahead, left };
    if k == names.len() {
        assert(names.take(k) =~= names);
    } else {
        assert(ahead[0] == Part::Normal(names[k]));
        assert(names.take(k).push(names[k]) =~= names.take(k + 1));
        assert(ahead.skip(1) =~= names.skip(k + 1).map_values(
            |name: Seq<u8>| Part::Normal(name),
        ));
        lemma_walk_again(names, k + 1, left, links);
    }
}

/// A resolved path is resolved to itself.
pub proof fn law_realpath_again(
    path: Seq<u8>,
    base: Option<Seq<u8>>,
    links: spec_fn(Seq<u8>) -> Option<Seq<u8>>,
    other: Option<Seq<u8>>,
)
    ensures
        real_path(path, base, links) matches Ok(p) ==> real_path(p, other, links) == Ok::<
            Seq<u8>,
            TarError,
        >(p),
{
    if let Ok(full) = anchored(path, base) {
        let s = walk_of(full);
        lemma_has_names(full);
        let names = lemma_resolved_plain(s, links);
        if let Ok(p) = resolved(s, links) {
            lemma_spelled(names);
            lemma_walk_again(names, 0, LINKS_LIMIT as int, links);
            let t = walk_of(p);
            let ahead = names.map_values(|name: Seq<u8>| Part::Normal(name));
            assert(t.ahead.skip(1) =~= ahead);
            assert(names.skip(0) =~= names);
            assert(names.take(0) =~= Seq::empty());
            let next = Resolving { names: Seq::empty(), ahead, left: t.left };
            assert(advanced(t) == advanced(next));
            assert(resolved(t, links) == resolved(next, links));
        }
    }
}

/// The components of a path are the components of its plain spelling, which is its own.
pub proof fn law_normalize(path: Seq<u8>)
    ensures
        parts(rendered(parts(path))) == parts(path),
        rendered(parts(rendered(parts(path)))) == rendered(parts(path)),
{
    lemma_rendered(path, parts(path).len() as int);
    assert(parts(path).take(parts(path).len() as int) =~= parts(path));
}

proof fn lemma_rendered(path: Seq<u8>, n: int)
    requires
        0 <= n <= parts(path).len(),
    ensures
        parts(rendered(parts(path).take(n))) == parts(path).take(n),
    decreases n,
{
    let list = parts(path);
    if n == 0 {
        assert(parts(Seq::<u8>::empty()) =~= list.take(0));
    } else {
        lemma_rendered(path, n - 1);
        let less = rendered(list.take(n - 1));
        assert(list.take(n).drop_last() =~= list.take(n - 1));
        assert(list.take(n) =~= list.take(n - 1).push(list[n - 1]));
        lemma_has_names(path);
        match list[n - 1] {
            Part::Normal(name) => {
                lemma_parts_joined(less, name);
            },
            Part::ParentDir => {
                lemma_parts_parent(less);
            },
            _ => {
                lemma_lead_first(path, n - 1);
                assert(less =~= Seq::<u8>::empty());
                lemma_root();
                lemma_here();
                assert(joined(less, seq![47u8]) =~= seq![47u8]);
                assert(joined(less, seq![46u8]) =~= seq![46u8]);
                assert(list.take(n) =~= seq![list[0]]);
            },
        }
    }
}

proof fn lemma_here()
    ensures
        parts(seq![46u8]) == seq![Part::CurDir],
{
    let p = seq![46u8];
    lemma_find_from_is(p, 47, 0, 1);
    assert(p.subrange(0, 1) =~= seq![46u8]);
    assert(parts_from(p, 2) =~= Seq::empty());
    assert(parts(p) =~= seq![Part::CurDir]);
}

/// Only the first component of a path is the root or a `.`.
proof fn lemma_lead_first(path: Seq<u8>, n: int)
    requires
        0 <= n < parts(path).len(),
        parts(path)[n] is RootDir || parts(path)[n] is CurDir,
    ensures
        n == 0,
{
    lemma_no_lead(path, 0);
    if lead(path) is Some {
        if n > 0 {
            assert(parts(path)[n] == parts_from(path, 0)[n - 1]);
        }
    } else {
        assert(parts(path)[n] == parts_from(path, 0)[n]);
    }
}

/// Behind the start of a path there are only names and `..`.
pub proof fn lemma_no_lead(p: Seq<u8>, i: int)
    requires
        0 <= i,
    ensures
        forall|k: int|
            0 <= k < parts_from(p, i).len() ==> (#[trigger] parts_from(p, i)[k] is Normal
                || parts_from(p, i)[k] is ParentDir),
    decreases p.len() + 1 - i,
{
    if i < p.len() {
        let j = find_from(p, 47, i);
        lemma_find_from(p, 47, i);
        lemma_no_lead(p, j + 1);
        let rest = parts_from(p, j + 1);
        assert forall|k: int| 0 <= k < parts_from(p, i).len() implies (
        #[trigger] parts_from(p, i)[k] is Normal || parts_from(p, i)[k] is ParentDir) by {
            match segment_part(p.subrange(i, j)) {
                Some(part) => {
                    if k > 0 {
                        assert(parts_from(p, i)[k] == rest[k - 1]);
                    }
                },
                None => {
                    assert(parts_from(p, i)[k] == rest[k]);
                },
            }
        }
    }
}

/// A path that is extended by `..` has it as one more component.
pub proof fn lemma_parts_parent(base: Seq<u8>)
    ensures
        parts(joined(base, seq![46u8, 46u8])) == parts(base).push(Part::ParentDir),
{
    let name = seq![46u8, 46u8];
    let alone = seq![Part::ParentDir];
    assert(parts_from(name, 0) == alone) by {
        lemma_find_from_is(name, 47, 0, 2);
        assert(name.subrange(0, 2) =~= name);
        assert(parts_from(name, 3) =~= Seq::empty());
        assert(parts_from(name, 0) =~= alone);
    }
    let p = joined(base, name);
    let n = if base.len() > 0 && base.last() == 47 {
        base.len() - 1
    } else {
        base.len() as int
    };
    if base.len() == 0 {
        assert(p =~= name);
        assert(parts(base) =~= Seq::empty());
    } else {
        lemma_parts_split(p, n, 0);
        assert(p.take(n) =~= base.take(n));
        assert(p.skip(n + 1) =~= name);
        if n < base.len() {
            lemma_parts_split(base, n, 0);
            assert(parts_from(base.skip(n + 1), 0) =~= Seq::empty());
        } else {
            assert(base.take(n) =~= base);
        }
        assert(parts_from(base, 0) =~= parts_from(base.take(n), 0));
        assert(lead(p) == lead(base));
    }
    assert(parts(p) =~= parts(base).push(Part::ParentDir));
}

} // verus!
