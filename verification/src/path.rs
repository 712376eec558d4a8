//! Unix paths as byte strings: components, parents, joining and cutting.

use crate::bytes::{find, find_from, lemma_find_from};
use vstd::prelude::*;
use vstd::slice::slice_subrange;

verus! {

/// One component of a path, as a mathematical value.
pub enum Part {
    /// The root directory at the start of an absolute path.
    RootDir,
    /// A `.` at the start of a relative path.
    CurDir,
    /// A `..`.
    ParentDir,
    /// Any other name.
    Normal(Seq<u8>),
}

impl Part {
    /// The bytes that stand for the component in a path.
    pub open spec fn text(self) -> Seq<u8> {
        match self {
            Part::RootDir => seq![47u8],
            Part::CurDir => seq![46u8],
            Part::ParentDir => seq![46u8, 46u8],
            Part::Normal(name) => name,
        }
    }
}

/// One component of a path.
#[derive(Clone, Copy, Debug)]
pub enum Component<'a> {
    /// The root directory at the start of an absolute path.
    RootDir,
    /// A `.` at the start of a relative path.
    CurDir,
    /// A `..`.
    ParentDir,
    /// Any other name.
    Normal(&'a [u8]),
}

impl<'a> View for Component<'a> {
    type V = Part;

    open spec fn view(&self) -> Part {
        match self {
            Component::RootDir => Part::RootDir,
            Component::CurDir => Part::CurDir,
            Component::ParentDir => Part::ParentDir,
            Component::Normal(name) => Part::Normal(name@),
        }
    }
}

/// A component with the position in the path at which it ends.
#[derive(Clone, Copy, Debug)]
pub struct Span<'a> {
    /// The component.
    pub part: Component<'a>,
    /// The position behind the component's last byte.
    pub end: usize,
}

/// The components that a list of spans stands for.
pub open spec fn span_parts(spans: Seq<Span>) -> Seq<Part> {
    spans.map_values(|s: Span| s.part@)
}

/// The ends that a list of spans holds.
pub open spec fn span_ends(spans: Seq<Span>) -> Seq<int> {
    spans.map_values(|s: Span| s.end as int)
}

/// The component that a segment between two slashes stands for.
///
/// Empty segments and `.` stand for none.
pub open spec fn segment_part(segment: Seq<u8>) -> Option<Part> {
    if segment.len() == 0 || segment =~= seq![46u8] {
        None
    } else if segment =~= seq![46u8, 46u8] {
        Some(Part::ParentDir)
    } else {
        Some(Part::Normal(segment))
    }
}

/// The components of the segments from position `i` on.
pub open spec fn parts_from(p: Seq<u8>, i: int) -> Seq<Part>
    decreases p.len() + 1 - i,
{
    if i < 0 || i >= p.len() {
        Seq::empty()
    } else {
        let j = find_from(p, 47, i);
        proof {
            lemma_find_from(p, 47, i);
        }
        let rest = parts_from(p, j + 1);
        match segment_part(p.subrange(i, j)) {
            Some(part) => seq![part] + rest,
            None => rest,
        }
    }
}

/// The ends of the components of the segments from position `i` on.
pub open spec fn ends_from(p: Seq<u8>, i: int) -> Seq<int>
    decreases p.len() + 1 - i,
{
    if i < 0 || i >= p.len() {
        Seq::empty()
    } else {
        let j = find_from(p, 47, i);
        proof {
            lemma_find_from(p, 47, i);
        }
        let rest = ends_from(p, j + 1);
        match segment_part(p.subrange(i, j)) {
            Some(part) => seq![j] + rest,
            None => rest,
        }
    }
}

/// The component that the first byte alone stands for: a root or a leading `.`.
pub open spec fn lead(p: Seq<u8>) -> Option<Part> {
    if p.len() > 0 && p[0] == 47 {
        Some(Part::RootDir)
    } else if p.len() > 0 && p[0] == 46 && (p.len() == 1 || p[1] == 47) {
        Some(Part::CurDir)
    } else {
        None
    }
}

/// The components of a path.
///
/// Repeated slashes, trailing slashes and `.` after the start of the path add nothing.
pub open spec fn parts(p: Seq<u8>) -> Seq<Part> {
    match lead(p) {
        Some(part) => seq![part] + parts_from(p, 0),
        None => parts_from(p, 0),
    }
}

/// The positions at which the components of a path end.
pub open spec fn ends(p: Seq<u8>) -> Seq<int> {
    match lead(p) {
        Some(part) => seq![1int] + ends_from(p, 0),
        None => ends_from(p, 0),
    }
}

/// Splits a path into its components.
pub fn components(p: &[u8]) -> (r: Vec<Span<'_>>)
    ensures
        span_parts(r@) == parts(p@),
        span_ends(r@) == ends(p@),
{
    let mut spans: Vec<Span<'_>> = Vec::new();
    if p.len() > 0 && p[0] == 47 {
        spans.push(Span { part: Component::RootDir, end: 1 });
    } else if p.len() > 0 && p[0] == 46 && (p.len() == 1 || p[1] == 47) {
        spans.push(Span { part: Component::CurDir, end: 1 });
    }
    let mut i: usize = 0;
    let mut more: bool = p.len() > 0;
    assert(span_parts(spans@) + parts_from(p@, i as int) =~= parts(p@));
    assert(span_ends(spans@) + ends_from(p@, i as int) =~= ends(p@));
    while more
        invariant
            more ==> i < p@.len(),
            !more ==> i == p@.len(),
            span_parts(spans@) + parts_from(p@, i as int) == parts(p@),
            span_ends(spans@) + ends_from(p@, i as int) == ends(p@),
        decreases p@.len() - i,
    {
        let ghost before = spans@;
        let j: usize = find(p, 47, i);
        let segment: &[u8] = slice_subrange(p, i, j);
        let n: usize = segment.len();
        let ghost rest_parts = parts_from(p@, j + 1);
        let ghost rest_ends = ends_from(p@, j + 1);
        if n == 0 || (n == 1 && segment[0] == 46) {
            assert(segment_part(segment@) is None);
            assert(span_parts(spans@) + rest_parts == parts(p@));
        } else {
            let part: Component<'_> = if n == 2 && segment[0] == 46 && segment[1] == 46 {
                assert(segment@ =~= seq![46u8, 46u8]);
                Component::ParentDir
            } else {
                Component::Normal(segment)
            };
            assert(segment_part(segment@) == Some(part@));
            spans.push(Span { part, end: j });
            assert(span_parts(spans@) =~= span_parts(before).push(part@));
            assert(span_ends(spans@) =~= span_ends(before).push(j as int));
            assert(span_parts(spans@) + rest_parts =~= span_parts(before) + (seq![part@]
                + rest_parts));
            assert(span_ends(spans@) + rest_ends =~= span_ends(before) + (seq![j as int]
                + rest_ends));
        }
        if j < p.len() - 1 {
            i = j + 1;
        } else {
            i = p.len();
            more = false;
            assert(rest_parts =~= parts_from(p@, i as int));
            assert(rest_ends =~= ends_from(p@, i as int));
        }
    }
    assert(span_parts(spans@) =~= parts(p@));
    assert(span_ends(spans@) =~= ends(p@));
    spans
}

/// Each component ends inside the path, and behind the one before it.
pub proof fn lemma_ends(p: Seq<u8>)
    ensures
        ends(p).len() == parts(p).len(),
        forall|k: int| 0 <= k < ends(p).len() ==> 0 < #[trigger] ends(p)[k] <= p.len(),
        forall|k: int, l: int|
            0 <= k < l < ends(p).len() ==> #[trigger] ends(p)[k] < #[trigger] ends(p)[l],
{
    lemma_ends_from(p, 0);
    if lead(p) is Some {
        assert(ends_from(p, 0).len() > 0 ==> ends_from(p, 0)[0] > 1) by {
            lemma_find_from(p, 47, 0);
            if p[0] == 47 {
                assert(find_from(p, 47, 0) == 0);
                assert(segment_part(p.subrange(0, 0)) is None);
            } else {
                assert(find_from(p, 47, 0) == 1) by {
                    if p.len() > 1 {
                        assert(p[1] == 47);
                        assert(find_from(p, 47, 1) == 1);
                    } else {
                        assert(find_from(p, 47, 1) == 1);
                    }
                }
                assert(p.subrange(0, 1) =~= seq![46u8]);
                assert(segment_part(p.subrange(0, 1)) is None);
            }
            let j = find_from(p, 47, 0);
            assert(ends_from(p, 0) == ends_from(p, j + 1));
            lemma_ends_from(p, j + 1);
        }
    }
}

proof fn lemma_ends_from(p: Seq<u8>, i: int)
    requires
        0 <= i,
    ensures
        ends_from(p, i).len() == parts_from(p, i).len(),
        forall|k: int| 0 <= k < ends_from(p, i).len() ==> i < #[trigger] ends_from(p, i)[k] <= p.len(),
        forall|k: int, l: int|
            0 <= k < l < ends_from(p, i).len() ==> #[trigger] ends_from(p, i)[k]
                < #[trigger] ends_from(p, i)[l],
    decreases p.len() + 1 - i,
{
    if i < p.len() {
        let j = find_from(p, 47, i);
        lemma_find_from(p, 47, i);
        lemma_ends_from(p, j + 1);
    }
}

/// A path without its last component, if there is one that is not the root.
pub open spec fn parent_of(p: Seq<u8>) -> Option<Seq<u8>> {
    let n = parts(p).len();
    if n == 0 || parts(p).last() == Part::RootDir {
        None
    } else if n == 1 {
        Some(Seq::empty())
    } else {
        Some(p.take(ends(p)[n - 2]))
    }
}

/// Returns the path without its last component, if there is one that is not the root.
pub fn parent(p: &[u8]) -> (r: Option<&[u8]>)
    ensures
        match r {
            Some(q) => parent_of(p@) == Some(q@) && q@.len() < p@.len(),
            None => parent_of(p@) is None,
        },
{
    let spans: Vec<Span<'_>> = components(p);
    proof {
        lemma_ends(p@);
        assert(span_parts(spans@).len() == spans@.len());
        assert(span_ends(spans@).len() == spans@.len());
    }
    let n: usize = spans.len();
    if n == 0 {
        return None;
    }
    assert(parts(p@).last() == spans@[n - 1].part@);
    match spans[n - 1].part {
        Component::RootDir => None,
        _ => {
            assert(ends(p@)[n - 1] == spans@[n - 1].end);
            if n == 1 {
                let q: &[u8] = slice_subrange(p, 0, 0);
                assert(q@ =~= Seq::<u8>::empty());
                Some(q)
            } else {
                assert(ends(p@)[n - 2] == spans@[n - 2].end);
                let q: &[u8] = slice_subrange(p, 0, spans[n - 2].end);
                assert(q@ =~= p@.take(ends(p@)[n - 2]));
                Some(q)
            }
        },
    }
}

/// Whether a path starts at the root.
pub open spec fn is_absolute(p: Seq<u8>) -> bool {
    p.len() > 0 && p[0] == 47
}

/// Returns whether a path starts at the root.
pub fn has_root(p: &[u8]) -> (r: bool)
    ensures
        r == is_absolute(p@),
{
    p.len() > 0 && p[0] == 47
}

/// Whether a path ends in a slash.
pub open spec fn slash_at_end(p: Seq<u8>) -> bool {
    p.len() > 0 && p.last() == 47
}

/// Returns whether a path ends in a slash.
pub fn ends_with_slash(p: &[u8]) -> (r: bool)
    ensures
        r == slash_at_end(p@),
{
    p.len() > 0 && p[p.len() - 1] == 47
}

/// `base` extended by `p`: `p` alone if it starts at the root.
pub open spec fn joined(base: Seq<u8>, p: Seq<u8>) -> Seq<u8> {
    if is_absolute(p) {
        p
    } else if base.len() == 0 || base.last() == 47 {
        base + p
    } else {
        base.push(47u8) + p
    }
}

/// Appends bytes to a vector.
pub(crate) fn extend(v: &mut Vec<u8>, s: &[u8])
    ensures
        final(v)@ == old(v)@ + s@,
{
    let ghost before = v@;
    v.extend_from_slice(s);
    assert(v@ =~= before + s@);
}

/// Extends a path by another one.
pub fn push(base: &mut Vec<u8>, p: &[u8])
    ensures
        final(base)@ == joined(old(base)@, p@),
{
    let ghost before = base@;
    if has_root(p) {
        base.clear();
        extend(base, p);
        assert(base@ =~= p@);
    } else {
        if base.len() > 0 && base[base.len() - 1] != 47 {
            base.push(47);
        }
        extend(base, p);
    }
}

/// Returns `base` extended by `p`.
pub fn join(base: &[u8], p: &[u8]) -> (r: Vec<u8>)
    ensures
        r@ == joined(base@, p@),
{
    let mut r: Vec<u8> = vstd::slice::slice_to_vec(base);
    push(&mut r, p);
    r
}

/// Removes the last component of a path; returns whether there was one to remove.
pub fn pop(base: &mut Vec<u8>) -> (r: bool)
    ensures
        match parent_of(old(base)@) {
            Some(q) => r && final(base)@ == q,
            None => !r && final(base)@ == old(base)@,
        },
{
    let n: usize = match parent(base.as_slice()) {
        Some(q) => q.len(),
        None => {
            return false;
        },
    };
    proof {
        lemma_ends(base@);
        assert(parent_of(base@).unwrap() =~= base@.take(n as int));
    }
    base.truncate(n);
    true
}

/// Returns whether two byte strings are equal.
pub fn same_bytes(a: &[u8], b: &[u8]) -> (r: bool)
    ensures
        r == (a@ == b@),
{
    if a.len() != b.len() {
        return false;
    }
    let mut i: usize = 0;
    while i < a.len()
        invariant
            i <= a@.len() == b@.len(),
            forall|k: int| 0 <= k < i ==> a@[k] == b@[k],
        decreases a@.len() - i,
    {
        if a[i] != b[i] {
            return false;
        }
        i = i + 1;
    }
    assert(a@ =~= b@);
    true
}

/// Returns whether two components are equal.
pub fn same_part(a: &Component<'_>, b: &Component<'_>) -> (r: bool)
    ensures
        r == (a@ == b@),
{
    match (a, b) {
        (Component::RootDir, Component::RootDir) => true,
        (Component::CurDir, Component::CurDir) => true,
        (Component::ParentDir, Component::ParentDir) => true,
        (Component::Normal(x), Component::Normal(y)) => same_bytes(x, y),
        _ => false,
    }
}

/// Whether the components of `base` are the first components of `p`.
pub open spec fn is_inside(p: Seq<u8>, base: Seq<u8>) -> bool {
    parts(base).len() <= parts(p).len() && parts(base) == parts(p).take(parts(base).len() as int)
}

/// Returns whether the components of `base` are the first components of `p`.
pub fn starts_with(p: &[u8], base: &[u8]) -> (r: bool)
    ensures
        r == is_inside(p@, base@),
{
    let a: Vec<Span<'_>> = components(p);
    let b: Vec<Span<'_>> = components(base);
    assert(span_parts(a@).len() == a@.len());
    assert(span_parts(b@).len() == b@.len());
    if b.len() > a.len() {
        return false;
    }
    let mut i: usize = 0;
    while i < b.len()
        invariant
            i <= b@.len() <= a@.len(),
            span_parts(a@) == parts(p@),
            span_parts(b@) == parts(base@),
            span_parts(a@).len() == a@.len(),
            span_parts(b@).len() == b@.len(),
            forall|k: int| 0 <= k < i ==> parts(base@)[k] == parts(p@)[k],
        decreases b@.len() - i,
    {
        assert(parts(p@)[i as int] == a@[i as int].part@);
        assert(parts(base@)[i as int] == b@[i as int].part@);
        if !same_part(&a[i].part, &b[i].part) {
            assert(parts(p@).take(b@.len() as int)[i as int] != parts(base@)[i as int]);
            return false;
        }
        i = i + 1;
    }
    assert(parts(base@) =~= parts(p@).take(b@.len() as int));
    true
}

/// The path that `base` becomes when one component is added to it.
pub open spec fn with_part(base: Seq<u8>, part: Part) -> Seq<u8> {
    joined(base, part.text())
}

/// The plain spelling of components `from` and on: single slashes, none at the end.
pub open spec fn rendered(list: Seq<Part>) -> Seq<u8>
    decreases list.len(),
{
    if list.len() == 0 {
        Seq::empty()
    } else {
        with_part(rendered(list.drop_last()), list.last())
    }
}

/// Returns the bytes that stand for a component.
pub fn part_text<'a>(part: &Component<'a>) -> (r: Vec<u8>)
    ensures
        r@ == part@.text(),
{
    match part {
        Component::RootDir => {
            let r: Vec<u8> = vec![47];
            assert(r@ =~= seq![47u8]);
            r
        },
        Component::CurDir => {
            let r: Vec<u8> = vec![46];
            assert(r@ =~= seq![46u8]);
            r
        },
        Component::ParentDir => {
            let r: Vec<u8> = vec![46, 46];
            assert(r@ =~= seq![46u8, 46u8]);
            r
        },
        Component::Normal(name) => vstd::slice::slice_to_vec(name),
    }
}

/// Spells out the components from position `from` on.
pub fn render(spans: &Vec<Span<'_>>, from: usize) -> (r: Vec<u8>)
    requires
        from <= spans@.len(),
    ensures
        r@ == rendered(span_parts(spans@).skip(from as int)),
{
    let ghost list = span_parts(spans@).skip(from as int);
    let mut r: Vec<u8> = Vec::new();
    let mut i: usize = from;
    while i < spans.len()
        invariant
            from <= i <= spans@.len(),
            list == span_parts(spans@).skip(from as int),
            list.len() == spans@.len() - from,
            r@ == rendered(list.take(i - from)),
        decreases spans@.len() - i,
    {
        let text: Vec<u8> = part_text(&spans[i].part);
        assert(list.take(i - from + 1).drop_last() =~= list.take(i - from));
        assert(list.take(i - from + 1).last() == spans@[i as int].part@);
        push(&mut r, text.as_slice());
        i = i + 1;
    }
    assert(list.take(i - from) =~= list);
    r
}

} // verus!
