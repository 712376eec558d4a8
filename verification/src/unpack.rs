//! Unpacking: what is to be done in the file system for an entry, and where.

use crate::bytes::{find_from, lemma_find_from, lemma_find_from_is};
use crate::contained::{
    check_link, climbs, climbs_out, depth_of, extended_by, follow_link, is_nameless,
    link_keeps_inside, link_parts,
};
use crate::entry::{content, is_complete, left_over, Entry, EntryFields, EntryIo, EntryView, Options};
use crate::entry_type::EntryType;
use crate::error::TarError;
use crate::header::octal_u32;
use crate::number::octal;
use crate::path::{
    components, has_root, is_absolute, is_inside, joined, lead, parts, parts_from, push, same_bytes,
    segment_part, span_parts, starts_with, Component, Part, Span,
};
use crate::pax::{records, PaxExtensions};
use crate::stored_path::lemma_parts_split;
use vstd::prelude::*;
use vstd::slice::{slice_subrange, slice_to_vec};

verus! {

/// Where an entry goes.
pub enum Placement {
    /// Nowhere: its path would lead outside.
    Skipped,
    /// To the directory that is unpacked into: its path has no name.
    Root,
    /// To a path below that directory.
    At(Vec<u8>),
}

/// Where an entry goes, as a mathematical value.
#[verifier::ext_equal]
pub enum Placed {
    /// Nowhere: its path would lead outside.
    Skipped,
    /// To the directory that is unpacked into: its path has no name.
    Root,
    /// To a path below that directory.
    At(Seq<u8>),
}

impl View for Placement {
    type V = Placed;

    open spec fn view(&self) -> Placed {
        match self {
            Placement::Skipped => Placed::Skipped,
            Placement::Root => Placed::Root,
            Placement::At(p) => Placed::At(p@),
        }
    }
}

/// The path that some components lead to from `dst`, unless there is a `..` among them.
///
/// The root and `.` lead nowhere else.
pub open spec fn walked(dst: Seq<u8>, list: Seq<Part>) -> Option<Seq<u8>>
    decreases list.len(),
{
    if list.len() == 0 {
        Some(dst)
    } else {
        match walked(dst, list.drop_last()) {
            None => None,
            Some(at) => match list.last() {
                Part::ParentDir => None,
                Part::Normal(name) => Some(joined(at, name)),
                _ => Some(at),
            },
        }
    }
}

/// The names among some components.
pub open spec fn names(list: Seq<Part>) -> Seq<Part>
    decreases list.len(),
{
    if list.len() == 0 {
        Seq::empty()
    } else {
        let before = names(list.drop_last());
        if list.last() is Normal {
            before.push(list.last())
        } else {
            before
        }
    }
}

/// Where an entry with the given path goes when it is unpacked into `dst`.
pub open spec fn placed(dst: Seq<u8>, path: Seq<u8>) -> Placed {
    match walked(dst, parts(path)) {
        None => Placed::Skipped,
        Some(at) => if names(parts(path)).len() == 0 {
            Placed::Root
        } else {
            Placed::At(at)
        },
    }
}

proof fn lemma_walked_none(dst: Seq<u8>, list: Seq<Part>, n: int)
    requires
        0 <= n <= list.len(),
        walked(dst, list.take(n)) is None,
    ensures
        walked(dst, list) is None,
    decreases list.len(),
{
    if n == list.len() {
        assert(list.take(n) =~= list);
    } else {
        assert(list.drop_last().take(n) =~= list.take(n));
        lemma_walked_none(dst, list.drop_last(), n);
    }
}

/// Finds out where an entry with the given path goes when it is unpacked into `dst`.
///
/// An entry whose path holds `..` is skipped, lest it be written outside.
pub fn target_in(dst: &[u8], path: &[u8]) -> (r: Placement)
    ensures
        r@ == placed(dst@, path@),
{
    let spans: Vec<Span<'_>> = components(path);
    let ghost list = parts(path@);
    assert(span_parts(spans@).len() == spans@.len());
    let mut at: Vec<u8> = slice_to_vec(dst);
    let mut named: bool = false;
    let mut i: usize = 0;
    assert(list.take(0) =~= Seq::empty());
    while i < spans.len()
        invariant
            i <= spans@.len(),
            list == parts(path@),
            span_parts(spans@) == list,
            list.len() == spans@.len(),
            walked(dst@, list.take(i as int)) == Some(at@),
            named == (names(list.take(i as int)).len() > 0),
        decreases spans@.len() - i,
    {
        assert(list.take(i + 1).drop_last() =~= list.take(i as int));
        assert(list.take(i + 1).last() == spans@[i as int].part@);
        match spans[i].part {
            Component::ParentDir => {
                proof {
                    lemma_walked_none(dst@, list, i + 1);
                }
                return Placement::Skipped;
            },
            Component::Normal(name) => {
                push(&mut at, name);
                named = true;
            },
            _ => {},
        }
        i = i + 1;
    }
    assert(list.take(i as int) =~= list);
    if named {
        Placement::At(at)
    } else {
        Placement::Root
    }
}

/// Whether some bytes can be a name in a path.
pub open spec fn is_name(name: Seq<u8>) -> bool {
    &&& name.len() > 0
    &&& !name.contains(47u8)
    &&& name != seq![46u8]
    &&& name != seq![46u8, 46u8]
}

/// A path that is extended by a name has that name as one more component.
pub proof fn lemma_parts_joined(base: Seq<u8>, name: Seq<u8>)
    requires
        is_name(name),
    ensures
        parts(joined(base, name)) == parts(base).push(Part::Normal(name)),
{
    assert forall|k: int| 0 <= k < name.len() implies name[k] != 47 by {
        assert(name.contains(name[k]));
    }
    let alone = seq![Part::Normal(name)];
    assert(parts_from(name, 0) == alone) by {
        lemma_find_from_is(name, 47, 0, name.len() as int);
        assert(name.subrange(0, name.len() as int) =~= name);
        assert(parts_from(name, name.len() + 1int) =~= Seq::empty());
        assert(parts_from(name, 0) =~= alone);
    }
    let p = joined(base, name);
    if base.len() == 0 {
        assert(p =~= name);
        assert(lead(name) is None) by {
            if name[0] == 46 && name.len() == 1 {
                assert(name =~= seq![46u8]);
            }
        }
        assert(parts(base) =~= Seq::empty());
        assert(parts(p) =~= parts(base).push(Part::Normal(name)));
    } else if base.last() == 47 {
        let n = base.len() - 1;
        lemma_parts_split(p, n, 0);
        assert(p.take(n) =~= base.take(n));
        assert(p.skip(n + 1) =~= name);
        lemma_parts_split(base, n, 0);
        assert(parts_from(base.skip(n + 1), 0) =~= Seq::empty());
        assert(parts_from(base, 0) =~= parts_from(base.take(n), 0));
        assert(lead(p) == lead(base));
        assert(parts(p) =~= parts(base).push(Part::Normal(name)));
    } else {
        let n = base.len() as int;
        lemma_parts_split(p, n, 0);
        assert(p.take(n) =~= base);
        assert(p.skip(n + 1) =~= name);
        assert(lead(p) == lead(base));
        assert(parts(p) =~= parts(base).push(Part::Normal(name)));
    }
}

/// The names among the components of a path can be names.
pub proof fn lemma_parts_are_names(p: Seq<u8>, i: int)
    requires
        0 <= i,
    ensures
        forall|k: int|
            0 <= k < parts_from(p, i).len() ==> (#[trigger] parts_from(p, i)[k] matches Part::Normal(
                name,
            ) ==> is_name(name)),
    decreases p.len() + 1 - i,
{
    if i < p.len() {
        let j = find_from(p, 47, i);
        lemma_find_from(p, 47, i);
        lemma_parts_are_names(p, j + 1);
        let rest = parts_from(p, j + 1);
        let segment = p.subrange(i, j);
        assert forall|k: int| 0 <= k < parts_from(p, i).len() implies (
        #[trigger] parts_from(p, i)[k] matches Part::Normal(name) ==> is_name(name)) by {
            match segment_part(segment) {
                Some(part) => {
                    if k > 0 {
                        assert(parts_from(p, i)[k] == rest[k - 1]);
                    } else if segment.contains(47u8) {
                        let m = choose|m: int| 0 <= m < segment.len() && segment[m] == 47u8;
                        assert(p[i + m] == 47);
                    }
                },
                None => {
                    assert(parts_from(p, i)[k] == rest[k]);
                },
            }
        }
    }
}

proof fn lemma_walked_inside(dst: Seq<u8>, list: Seq<Part>)
    requires
        walked(dst, list) is Some,
        forall|k: int|
            0 <= k < list.len() ==> (#[trigger] list[k] matches Part::Normal(name) ==> is_name(
                name,
            )),
    ensures
        parts(walked(dst, list)->Some_0) == parts(dst) + names(list),
    decreases list.len(),
{
    if list.len() == 0 {
        assert(parts(dst) + names(list) =~= parts(dst));
    } else {
        let front = list.drop_last();
        assert forall|k: int| 0 <= k < front.len() implies (#[trigger] front[k] matches Part::Normal(
            name,
        ) ==> is_name(name)) by {
            assert(front[k] == list[k]);
        }
        lemma_walked_inside(dst, front);
        let at = walked(dst, front)->Some_0;
        match list[list.len() - 1] {
            Part::Normal(name) => {
                lemma_parts_joined(at, name);
                assert(parts(dst) + names(list) =~= (parts(dst) + names(front)).push(
                    Part::Normal(name),
                ));
            },
            _ => {},
        }
    }
}

/// An entry is never placed outside the directory that is unpacked into: the components of its
/// place are those of the directory and then the names in the entry's path.
pub proof fn law_placed_inside(dst: Seq<u8>, path: Seq<u8>)
    ensures
        placed(dst, path) matches Placed::At(p) ==> is_inside(p, dst) && parts(p) == parts(dst)
            + names(parts(path)),
{
    let list = parts(path);
    if walked(dst, list) is Some {
        lemma_parts_are_names(path, 0);
        assert forall|k: int| 0 <= k < list.len() implies (#[trigger] list[k] matches Part::Normal(
            name,
        ) ==> is_name(name)) by {
            if lead(path) is Some {
                if k > 0 {
                    assert(list[k] == parts_from(path, 0)[k - 1]);
                }
            } else {
                assert(list[k] == parts_from(path, 0)[k]);
            }
        }
        lemma_walked_inside(dst, list);
        let p = walked(dst, list)->Some_0;
        assert(parts(p).take(parts(dst).len() as int) =~= parts(dst));
    }
}

/// Checks that a path with all links resolved is inside the directory that is unpacked into.
pub fn check_inside(root: &[u8], resolved: &[u8]) -> (r: Result<(), TarError>)
    ensures
        r == if is_inside(resolved@, root@) {
            Ok(())
        } else {
            Err(TarError::OutsideDestination)
        },
{
    if starts_with(resolved, root) {
        Ok(())
    } else {
        Err(TarError::OutsideDestination)
    }
}

/// What is done with a file besides writing its bytes.
pub struct FilePlan {
    /// The runs of bytes that are written.
    pub data: Vec<EntryIo>,
    /// The modification time that it gets, if any.
    pub mtime: Option<u64>,
    /// The mode that it gets, if any.
    pub mode: Option<u32>,
    /// The owner and the group that it gets, if any.
    pub owner: Option<(u32, u32)>,
    /// The extended attributes that it gets.
    pub xattrs: Vec<(Vec<u8>, Vec<u8>)>,
    /// Whether it takes the place of a file that exists.
    pub overwrite: bool,
}

/// What is done with a file besides writing its bytes, as a mathematical value.
#[verifier::ext_equal]
pub struct FilePlanned {
    /// The runs of bytes that are written.
    pub data: Seq<EntryIo>,
    /// The modification time that it gets, if any.
    pub mtime: Option<u64>,
    /// The mode that it gets, if any.
    pub mode: Option<u32>,
    /// The owner and the group that it gets, if any.
    pub owner: Option<(u32, u32)>,
    /// The extended attributes that it gets.
    pub xattrs: Seq<(Seq<u8>, Seq<u8>)>,
    /// Whether it takes the place of a file that exists.
    pub overwrite: bool,
}

/// Attributes as mathematical values.
pub open spec fn attributes(list: Seq<(Vec<u8>, Vec<u8>)>) -> Seq<(Seq<u8>, Seq<u8>)> {
    list.map_values(|kv: (Vec<u8>, Vec<u8>)| (kv.0@, kv.1@))
}

impl View for FilePlan {
    type V = FilePlanned;

    open spec fn view(&self) -> FilePlanned {
        FilePlanned {
            data: self.data@,
            mtime: self.mtime,
            mode: self.mode,
            owner: self.owner,
            xattrs: attributes(self.xattrs@),
            overwrite: self.overwrite,
        }
    }
}

/// What is to be done for an entry.
pub enum UnpackPlan {
    /// Nothing: the entry only says something of another one.
    Nothing,
    /// A directory is to be created, unless it exists.
    Directory,
    /// A hard link to the given path is to be created.
    HardLink(Vec<u8>),
    /// A symbolic link to the given path is to be created.
    Symlink(Vec<u8>),
    /// A file is to be written.
    File(FilePlan),
}

/// What is to be done for an entry, as a mathematical value.
#[verifier::ext_equal]
pub enum Planned {
    /// Nothing: the entry only says something of another one.
    Nothing,
    /// A directory is to be created, unless it exists.
    Directory,
    /// A hard link to the given path is to be created.
    HardLink(Seq<u8>),
    /// A symbolic link to the given path is to be created.
    Symlink(Seq<u8>),
    /// A file is to be written.
    File(FilePlanned),
}

impl View for UnpackPlan {
    type V = Planned;

    open spec fn view(&self) -> Planned {
        match self {
            UnpackPlan::Nothing => Planned::Nothing,
            UnpackPlan::Directory => Planned::Directory,
            UnpackPlan::HardLink(p) => Planned::HardLink(p@),
            UnpackPlan::Symlink(p) => Planned::Symlink(p@),
            UnpackPlan::File(f) => Planned::File(f@),
        }
    }
}

/// The mode that a file gets when its header states `mode`.
///
/// Only the permissions are kept unless all bits are asked for. The masked bits are taken away.
pub open spec fn unpacked_mode(mode: u32, options: Options) -> u32 {
    let kept = if options.preserve_permissions {
        mode
    } else {
        mode & 0o777
    };
    kept & !options.mask
}

/// What the keys of extended attributes start with.
pub open spec fn xattr_prefix() -> Seq<u8> {
    seq![83u8, 67u8, 72u8, 73u8, 76u8, 89u8, 46u8, 120u8, 97u8, 116u8, 116u8, 114u8, 46u8]
}

/// The extended attributes among some pax records. What is malformed is passed over.
pub open spec fn xattrs_in(list: Seq<Result<(Seq<u8>, Seq<u8>), TarError>>) -> Seq<
    (Seq<u8>, Seq<u8>),
>
    decreases list.len(),
{
    if list.len() == 0 {
        Seq::empty()
    } else {
        let rest = xattrs_in(list.skip(1));
        match list[0] {
            Ok((key, value)) => if key.len() >= 13 && key.take(13) == xattr_prefix() {
                seq![(key.skip(13), value)] + rest
            } else {
                rest
            },
            Err(_) => rest,
        }
    }
}

/// What is done with the file of an entry besides writing its bytes.
pub open spec fn file_plan(e: EntryView) -> FilePlanned {
    let o = e.options;
    let mode = octal_u32(e.header.subrange(100, 108));
    let uid = octal_u32(e.header.subrange(108, 116));
    let gid = octal_u32(e.header.subrange(116, 124));
    let mtime = octal(e.header.subrange(136, 148));
    FilePlanned {
        data: e.data,
        mtime: if o.preserve_mtime && mtime is Ok {
            Some(mtime->Ok_0)
        } else {
            None
        },
        mode: if mode is Ok {
            Some(unpacked_mode(mode->Ok_0, o))
        } else {
            None
        },
        owner: if o.preserve_ownerships && uid is Ok && gid is Ok {
            Some((uid->Ok_0, gid->Ok_0))
        } else {
            None
        },
        xattrs: if o.unpack_xattrs && e.pax_extensions is Some {
            xattrs_in(records(e.pax_extensions))
        } else {
            Seq::empty()
        },
        overwrite: o.overwrite,
    }
}

/// The symbolic link that is made at `dst`.
///
/// A root and a `.` are dropped from the name that it points to, and something must be left. Below
/// a `root`, a link to the root directory can be made all the same. Without a `root`, the link must
/// not climb out of the path that leads to it.
pub open spec fn linked(link: Seq<u8>, dst: Seq<u8>, root: Option<Seq<u8>>) -> Result<
    Planned,
    TarError,
> {
    let list = link_parts(link);
    if list.len() == 0 {
        if root is Some && is_absolute(link) {
            Ok(Planned::Symlink(seq![47u8]))
        } else {
            Err(TarError::LinkNameEmpty)
        }
    } else if root is None && climbs(depth_of(dst), list) {
        Err(TarError::OutsideDestination)
    } else {
        Ok(Planned::Symlink(extended_by(Seq::empty(), list)))
    }
}

/// The hard link that is made at `dst`.
///
/// A `.` is dropped from the name that it points to. The name stands below `root`, unless it is
/// absolute, and must not climb out of it. Without a `root` the link is made as a symbolic one is.
pub open spec fn hard_linked(link: Seq<u8>, dst: Seq<u8>, root: Option<Seq<u8>>) -> Result<
    Planned,
    TarError,
> {
    let list = link_parts(link);
    if list.len() == 0 {
        Err(TarError::LinkNameEmpty)
    } else {
        match root {
            None => if climbs(depth_of(dst), list) {
                Err(TarError::OutsideDestination)
            } else {
                Ok(Planned::HardLink(extended_by(Seq::empty(), list)))
            },
            Some(base) => if !link_keeps_inside(base, link) {
                Err(TarError::OutsideDestination)
            } else {
                Ok(
                    Planned::HardLink(
                        extended_by(
                            if is_absolute(link) {
                                seq![47u8]
                            } else {
                                base
                            },
                            list,
                        ),
                    ),
                )
            },
        }
    }
}

/// What is to be done for an entry.
///
/// A link needs a name to point to. Whatever is no directory, no link and no record about another
/// entry is a file.
pub open spec fn planned(e: EntryView, dst: Seq<u8>, root: Option<Seq<u8>>) -> Result<
    Planned,
    TarError,
> {
    let kind = e.header[156];
    if kind == 53 {
        Ok(Planned::Directory)
    } else if kind == 49 || kind == 50 {
        match e.link() {
            None => Err(TarError::LinkNameMissing),
            Some(link) => if kind == 49 {
                hard_linked(link, dst, root)
            } else {
                linked(link, dst, root)
            },
        }
    } else if kind == 103 || kind == 120 || kind == 76 || kind == 75 {
        Ok(Planned::Nothing)
    } else {
        Ok(Planned::File(file_plan(e)))
    }
}

/// Whether a plan is the one that is expected.
pub open spec fn is_planned(r: Result<UnpackPlan, TarError>, p: Result<Planned, TarError>) -> bool {
    match p {
        Ok(plan) => r matches Ok(q) && q@ == plan,
        Err(e) => r == Err::<UnpackPlan, TarError>(e),
    }
}

/// The mode that a file gets when its header states `mode`.
pub fn set_perms(mode: u32, options: &Options) -> (r: u32)
    ensures
        r == unpacked_mode(mode, *options),
{
    let kept: u32 = if options.preserve_permissions {
        mode
    } else {
        mode & 0o777
    };
    kept & !options.mask
}

/// Whether a key is that of an extended attribute.
fn is_xattr_key(key: &[u8]) -> (r: bool)
    ensures
        r == (key@.len() >= 13 && key@.take(13) == xattr_prefix()),
{
    let prefix: [u8; 13] = [83, 67, 72, 73, 76, 89, 46, 120, 97, 116, 116, 114, 46];
    assert(prefix@ =~= xattr_prefix());
    if key.len() < 13 {
        return false;
    }
    let front: &[u8] = slice_subrange(key, 0, 13);
    assert(front@ =~= key@.take(13));
    same_bytes(front, prefix.as_slice())
}

/// Finds the extended attributes among the pax records of an entry.
pub fn set_xattrs(data: &[u8]) -> (r: Vec<(Vec<u8>, Vec<u8>)>)
    ensures
        attributes(r@) == xattrs_in(records(Some(data@))),
{
    let mut found: Vec<(Vec<u8>, Vec<u8>)> = Vec::new();
    let mut list: PaxExtensions<'_> = PaxExtensions::new(data);
    let ghost all = xattrs_in(records(Some(data@)));
    assert(attributes(found@) + all =~= all);
    loop
        invariant
            attributes(found@) + xattrs_in(records(list@)) == all,
            all == xattrs_in(records(Some(data@))),
        decreases (match list@ {
            Some(s) => s.len() + 1,
            None => 0,
        }),
    {
        let ghost before = list@;
        let ghost done = attributes(found@);
        match list.next() {
            None => {
                assert(records(before) =~= Seq::empty());
                assert(attributes(found@) =~= all);
                return found;
            },
            Some(r) => {
                proof {
                    lemma_find_from(before->Some_0, 10, 0);
                }
                assert(records(before).skip(1) =~= records(list@));
                match r {
                    Ok(e) => {
                        assert(records(before)[0] == Ok::<(Seq<u8>, Seq<u8>), TarError>(e@));
                        let key: &[u8] = e.key_bytes();
                        if is_xattr_key(key) {
                            let name: &[u8] = slice_subrange(key, 13, key.len());
                            assert(name@ =~= key@.skip(13));
                            let item: (Vec<u8>, Vec<u8>) = (
                                slice_to_vec(name),
                                slice_to_vec(e.value_bytes()),
                            );
                            let ghost now = found@;
                            found.push(item);
                            assert(attributes(found@) =~= attributes(now).push(
                                (key@.skip(13), e@.1),
                            ));
                            let ghost rest = xattrs_in(records(list@));
                            assert(done + (seq![(key@.skip(13), e@.1)] + rest) =~= attributes(
                                found@,
                            ) + rest);
                        }
                    },
                    Err(_) => {
                        assert(records(before)[0] is Err);
                    },
                }
            },
        }
    }
}

/// The directory that is unpacked into, as a mathematical value.
pub open spec fn root_of(root: Option<&[u8]>) -> Option<Seq<u8>> {
    match root {
        Some(base) => Some(base@),
        None => None,
    }
}

/// Finds out what symbolic link is made at `dst`.
fn plan_link(link: &[u8], dst: &[u8], root: Option<&[u8]>) -> (r: Result<UnpackPlan, TarError>)
    ensures
        is_planned(r, linked(link@, dst@, root_of(root))),
{
    if is_nameless(link) {
        if root.is_some() && has_root(link) {
            let target: Vec<u8> = vec![47];
            assert(target@ =~= seq![47u8]);
            return Ok(UnpackPlan::Symlink(target));
        }
        return Err(TarError::LinkNameEmpty);
    }
    if root.is_none() && climbs_out(dst, link) {
        return Err(TarError::OutsideDestination);
    }
    let none: &[u8] = slice_subrange(link, 0, 0);
    assert(none@ =~= Seq::empty());
    Ok(UnpackPlan::Symlink(follow_link(none, link)))
}

/// Finds out what hard link is made at `dst`.
fn plan_hard_link(link: &[u8], dst: &[u8], root: Option<&[u8]>) -> (r: Result<UnpackPlan, TarError>)
    ensures
        is_planned(r, hard_linked(link@, dst@, root_of(root))),
{
    if is_nameless(link) {
        return Err(TarError::LinkNameEmpty);
    }
    match root {
        None => {
            if climbs_out(dst, link) {
                return Err(TarError::OutsideDestination);
            }
            let none: &[u8] = slice_subrange(link, 0, 0);
            assert(none@ =~= Seq::empty());
            Ok(UnpackPlan::HardLink(follow_link(none, link)))
        },
        Some(base) => {
            if !check_link(base, link) {
                return Err(TarError::OutsideDestination);
            }
            if has_root(link) {
                let top: &[u8] = slice_subrange(link, 0, 1);
                assert(top@ =~= seq![47u8]);
                Ok(UnpackPlan::HardLink(follow_link(top, link)))
            } else {
                Ok(UnpackPlan::HardLink(follow_link(base, link)))
            }
        },
    }
}

impl EntryFields {
    /// Finds out what is to be done for this entry at `dst`.
    ///
    /// `root` is the directory that is unpacked into, if there is one.
    pub fn plan(&self, dst: &[u8], root: Option<&[u8]>) -> (r: Result<UnpackPlan, TarError>)
        ensures
            is_planned(
                r,
                planned(self@, dst@, root_of(root)),
            ),
    {
        let kind: EntryType = self.header.entry_type();
        if kind.is_dir() {
            return Ok(UnpackPlan::Directory);
        }
        if kind.is_hard_link() || kind.is_symlink() {
            let link: Vec<u8> = match self.link_name() {
                Some(link) => link,
                None => {
                    return Err(TarError::LinkNameMissing);
                },
            };
            return if kind.is_hard_link() {
                plan_hard_link(link.as_slice(), dst, root)
            } else {
                plan_link(link.as_slice(), dst, root)
            };
        }
        if kind.is_pax_global_extensions() || kind.is_pax_local_extensions()
            || kind.is_gnu_longname() || kind.is_gnu_longlink() {
            return Ok(UnpackPlan::Nothing);
        }
        let options: Options = self.options;
        let mtime: Option<u64> = if options.preserve_mtime {
            match self.header.mtime() {
                Ok(mtime) => Some(mtime),
                Err(_) => None,
            }
        } else {
            None
        };
        let mode: Option<u32> = match self.header.mode() {
            Ok(mode) => Some(set_perms(mode, &options)),
            Err(_) => None,
        };
        let owner: Option<(u32, u32)> = if options.preserve_ownerships {
            match (self.header.uid(), self.header.gid()) {
                (Ok(uid), Ok(gid)) => Some((uid, gid)),
                _ => None,
            }
        } else {
            None
        };
        let xattrs: Vec<(Vec<u8>, Vec<u8>)> = if options.unpack_xattrs {
            match &self.pax_extensions {
                Some(data) => set_xattrs(data.as_slice()),
                None => Vec::new(),
            }
        } else {
            Vec::new()
        };
        let data: Vec<EntryIo> = slice_to_vec(self.data.as_slice());
        let plan: FilePlan = FilePlan {
            data,
            mtime,
            mode,
            owner,
            xattrs,
            overwrite: options.overwrite,
        };
        assert(plan@ =~= file_plan(self@));
        Ok(UnpackPlan::File(plan))
    }
}

/// Checks that all bytes of a run were written.
pub fn check_copied(expected: u64, copied: u64) -> (r: Result<(), TarError>)
    ensures
        r == if copied == expected {
            Ok(())
        } else {
            Err(TarError::ShortWrite)
        },
{
    if copied != expected {
        Err(TarError::ShortWrite)
    } else {
        Ok(())
    }
}

/// What is to be done in the file system for an entry.
pub enum UnpackAction {
    /// Nothing.
    Nothing,
    /// A directory is to be created, unless it exists.
    Directory,
    /// A hard link to the given path is to be created.
    HardLink(Vec<u8>),
    /// A symbolic link to the given path is to be created.
    Symlink(Vec<u8>),
    /// A file is to be written, with the given bytes.
    File(FilePlan, Vec<u8>),
}

/// What is to be done in the file system for an entry, as a mathematical value.
#[verifier::ext_equal]
pub enum Acted {
    /// Nothing.
    Nothing,
    /// A directory is to be created, unless it exists.
    Directory,
    /// A hard link to the given path is to be created.
    HardLink(Seq<u8>),
    /// A symbolic link to the given path is to be created.
    Symlink(Seq<u8>),
    /// A file is to be written, with the given bytes.
    File(FilePlanned, Seq<u8>),
}

impl View for UnpackAction {
    type V = Acted;

    open spec fn view(&self) -> Acted {
        match self {
            UnpackAction::Nothing => Acted::Nothing,
            UnpackAction::Directory => Acted::Directory,
            UnpackAction::HardLink(p) => Acted::HardLink(p@),
            UnpackAction::Symlink(p) => Acted::Symlink(p@),
            UnpackAction::File(f, bytes) => Acted::File(f@, bytes@),
        }
    }
}

/// What is to be done at `dst` in the file system for an entry whose data stands in `source`.
///
/// A file must be there as a whole.
pub open spec fn acted(
    e: EntryView,
    source: Seq<u8>,
    dst: Seq<u8>,
    root: Option<Seq<u8>>,
) -> Result<Acted, TarError> {
    match planned(e, dst, root) {
        Err(e) => Err(e),
        Ok(Planned::Nothing) => Ok(Acted::Nothing),
        Ok(Planned::Directory) => Ok(Acted::Directory),
        Ok(Planned::HardLink(p)) => Ok(Acted::HardLink(p)),
        Ok(Planned::Symlink(p)) => Ok(Acted::Symlink(p)),
        Ok(Planned::File(f)) => if is_complete(e.data, source) {
            Ok(Acted::File(f, content(e.data, source)))
        } else {
            Err(TarError::ShortWrite)
        },
    }
}

/// Whether an action is the one that is expected.
pub open spec fn is_acted(r: Result<UnpackAction, TarError>, a: Result<Acted, TarError>) -> bool {
    match a {
        Ok(action) => r matches Ok(b) && b@ == action,
        Err(e) => r == Err::<UnpackAction, TarError>(e),
    }
}

/// Whether `entry` is what is left of `e` once something was done for it.
///
/// The data of a file that is written is read to its end; otherwise nothing is read.
pub open spec fn is_spent(entry: Entry<'_>, e: EntryView, source: Seq<u8>, a: Acted) -> bool {
    if a is File {
        entry.fields@ == (EntryView { data: Seq::empty(), ..e }) && entry.source@ == left_over(
            e.data,
            source,
        )
    } else {
        entry.fields@ == e && entry.source@ == source
    }
}

/// One thing to be done in the file system, and where.
pub struct UnpackStep {
    /// Where.
    pub place: Placement,
    /// What.
    pub action: UnpackAction,
}

/// One thing to be done in the file system, and where, as a mathematical value.
#[verifier::ext_equal]
pub struct Stepped {
    /// Where.
    pub place: Placed,
    /// What.
    pub action: Acted,
}

impl View for UnpackStep {
    type V = Stepped;

    open spec fn view(&self) -> Stepped {
        Stepped { place: self.place@, action: self.action@ }
    }
}

/// What is to be done for an entry that is unpacked into `dst`, and where.
///
/// Nothing is done for an entry that is placed nowhere below `dst`.
pub open spec fn stepped(e: EntryView, source: Seq<u8>, dst: Seq<u8>) -> Result<Stepped, TarError> {
    let place = placed(dst, e.path());
    if !(place is At) {
        Ok(Stepped { place, action: Acted::Nothing })
    } else {
        match acted(e, source, place->At_0, Some(dst)) {
            Ok(action) => Ok(Stepped { place, action }),
            Err(e) => Err(e),
        }
    }
}

/// Whether a step is the one that is expected.
pub open spec fn is_stepped(r: Result<UnpackStep, TarError>, s: Result<Stepped, TarError>) -> bool {
    match s {
        Ok(step) => r matches Ok(t) && t@ == step,
        Err(e) => r == Err::<UnpackStep, TarError>(e),
    }
}

/// Returns whether the archive holds all bytes of a file.
fn holds_all(data: &Vec<EntryIo>, source: &[u8]) -> (r: bool)
    ensures
        r == is_complete(data@, source@),
{
    let mut left: usize = source.len();
    let mut i: usize = 0;
    assert(data@.skip(0) =~= data@);
    assert(source@.skip(0) =~= source@);
    while i < data.len()
        invariant
            i <= data@.len(),
            left <= source@.len(),
            is_complete(data@, source@) == is_complete(
                data@.skip(i as int),
                source@.skip(source@.len() - left),
            ),
        decreases data@.len() - i,
    {
        let ghost rest = data@.skip(i as int);
        let ghost tail = source@.skip(source@.len() - left);
        assert(rest.skip(1) =~= data@.skip(i + 1));
        match data[i] {
            EntryIo::Pad(_) => {},
            EntryIo::Data(n) => {
                if n > left as u64 {
                    return false;
                }
                assert(tail.skip(n as int) =~= source@.skip(source@.len() - (left - n)));
                left = left - n as usize;
            },
        }
        i = i + 1;
    }
    true
}

impl<'a> Entry<'a> {
    /// Finds out what is to be done for this entry when it is put at `dst`.
    ///
    /// Whoever puts the entry there has to see to it that the place is a safe one.
    pub fn unpack(&mut self, dst: &[u8]) -> (r: Result<UnpackAction, TarError>)
        ensures
            is_acted(r, acted(old(self).fields@, old(self).source@, dst@, None)),
            is_spent(
                *final(self),
                old(self).fields@,
                old(self).source@,
                match r {
                    Ok(action) => action@,
                    Err(_) => Acted::Nothing,
                },
            ),
    {
        self.act(dst, None)
    }

    /// Finds out what is to be done for this entry when it is unpacked into `dst`, and where.
    ///
    /// Nothing is ever placed outside `dst`. An entry whose path holds `..` is skipped. Where links
    /// lead is for `check_step` to see, just before the step is done.
    pub fn unpack_in(&mut self, dst: &[u8]) -> (r: Result<UnpackStep, TarError>)
        ensures
            is_stepped(r, stepped(old(self).fields@, old(self).source@, dst@)),
            is_spent(
                *final(self),
                old(self).fields@,
                old(self).source@,
                match r {
                    Ok(step) => step.action@,
                    Err(_) => Acted::Nothing,
                },
            ),
    {
        let path: Vec<u8> = self.fields.path_bytes();
        match target_in(dst, path.as_slice()) {
            Placement::At(p) => match self.act(p.as_slice(), Some(dst)) {
                Ok(action) => Ok(UnpackStep { place: Placement::At(p), action }),
                Err(e) => Err(e),
            },
            place => Ok(UnpackStep { place, action: UnpackAction::Nothing }),
        }
    }

    fn act(&mut self, dst: &[u8], root: Option<&[u8]>) -> (r: Result<UnpackAction, TarError>)
        ensures
            is_acted(
                r,
                acted(old(self).fields@, old(self).source@, dst@, root_of(root)),
            ),
            is_spent(
                *final(self),
                old(self).fields@,
                old(self).source@,
                match r {
                    Ok(action) => action@,
                    Err(_) => Acted::Nothing,
                },
            ),
    {
        match self.fields.plan(dst, root) {
            Ok(UnpackPlan::Nothing) => Ok(UnpackAction::Nothing),
            Ok(UnpackPlan::Directory) => Ok(UnpackAction::Directory),
            Ok(UnpackPlan::HardLink(p)) => Ok(UnpackAction::HardLink(p)),
            Ok(UnpackPlan::Symlink(p)) => Ok(UnpackAction::Symlink(p)),
            Ok(UnpackPlan::File(plan)) => {
                if !holds_all(&self.fields.data, self.source) {
                    return Err(TarError::ShortWrite);
                }
                match self.read_all() {
                    Ok(bytes) => Ok(UnpackAction::File(plan, bytes)),
                    Err(e) => Err(e),
                }
            },
            Err(e) => Err(e),
        }
    }
}

} // verus!
