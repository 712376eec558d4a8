//! What unpacking keeps of an entry: where it goes, and with which permissions.

use crate::archive_laws::is_fresh;
use crate::entry::{content, is_complete, EntryView, Options};
use crate::entry_type::type_of;
use crate::error::TarError;
use crate::front_laws::is_kept;
use crate::header::{with_cksum, with_metadata, HeaderMode, Metadata};
use crate::header_laws::law_cksum_right;
use crate::meta_laws::{law_cksum_states_same, law_metadata_stated, law_type_of_mode, states};
use crate::path::{parts, Part};
use crate::pax::{all_records, law_records_read_back};
use crate::unpack::{
    file_plan, law_placed_inside, names, placed, planned, stepped, unpacked_mode, walked, xattrs_in,
    Acted, Placed, Planned, Stepped,
};
use vstd::prelude::*;

verus! {

proof fn lemma_walked_complete(dst: Seq<u8>, list: Seq<Part>)
    ensures
        walked(dst, list) is None <==> list.contains(Part::ParentDir),
    decreases list.len(),
{
    if list.len() > 0 {
        let front = list.drop_last();
        lemma_walked_complete(dst, front);
        assert(list =~= front.push(list.last()));
        if front.contains(Part::ParentDir) {
            let k = choose|k: int| 0 <= k < front.len() && front[k] == Part::ParentDir;
            assert(list[k] == Part::ParentDir);
        }
        if list.last() is ParentDir {
            assert(list[list.len() - 1] == Part::ParentDir);
        }
        if list.contains(Part::ParentDir) {
            let k = choose|k: int| 0 <= k < list.len() && list[k] == Part::ParentDir;
            if k < front.len() {
                assert(front[k] == Part::ParentDir);
            }
        }
    }
}

proof fn lemma_names(list: Seq<Part>)
    ensures
        names(list) == list.filter(|q: Part| q is Normal),
        names(list).len() > 0 <==> exists|k: int| 0 <= k < list.len() && #[trigger] list[k] is Normal,
    decreases list.len(),
{
    reveal(Seq::filter);
    if list.len() > 0 {
        let front = list.drop_last();
        lemma_names(front);
        if list.last() is Normal {
            assert(list[list.len() - 1] is Normal);
        }
        if names(front).len() > 0 {
            let k = choose|k: int| 0 <= k < front.len() && #[trigger] front[k] is Normal;
            assert(list[k] is Normal);
        }
        if exists|k: int| 0 <= k < list.len() && #[trigger] list[k] is Normal {
            let k = choose|k: int| 0 <= k < list.len() && #[trigger] list[k] is Normal;
            if k < front.len() {
                assert(front[k] is Normal);
            }
        }
    }
}

/// Every entry has a place, unless there is a `..` in its path.
///
/// An entry is skipped exactly if some component of its path is `..`. Of the others, those whose
/// path has no name go to the directory itself; every other entry goes to the path whose components
/// are those of the directory and then the names in the entry's path, all of them and in order.
pub proof fn law_placed_completely(dst: Seq<u8>, path: Seq<u8>)
    ensures
        placed(dst, path) is Skipped <==> exists|k: int|
            0 <= k < parts(path).len() && #[trigger] parts(path)[k] is ParentDir,
        placed(dst, path) is Root <==> forall|k: int|
            0 <= k < parts(path).len() ==> !(#[trigger] parts(path)[k] is ParentDir) && !(parts(
                path,
            )[k] is Normal),
        placed(dst, path) matches Placed::At(p) ==> parts(p) == parts(dst) + parts(path).filter(
            |q: Part| q is Normal,
        ),
{
    let list = parts(path);
    lemma_walked_complete(dst, list);
    lemma_names(list);
    law_placed_inside(dst, path);
    if list.contains(Part::ParentDir) {
        let k = choose|k: int| 0 <= k < list.len() && list[k] == Part::ParentDir;
        assert(parts(path)[k] is ParentDir);
    }
    if exists|k: int| 0 <= k < list.len() && #[trigger] list[k] is ParentDir {
        let k = choose|k: int| 0 <= k < list.len() && #[trigger] list[k] is ParentDir;
        assert(list[k] == Part::ParentDir);
    }
}

/// Of the nine permission bits, a file gets exactly those that its header states and the mask does
/// not take away. The bits above them are dropped, unless all bits are asked for.
///
/// So a mode without further bits is kept as it is where nothing is masked.
pub proof fn law_mode_kept(mode: u32, options: Options, bit: u32)
    requires
        bit < 32,
    ensures
        bit < 9 || options.preserve_permissions ==> ((unpacked_mode(mode, options) >> bit) & 1 == 1
            <==> (mode >> bit) & 1 == 1 && (options.mask >> bit) & 1 == 0),
        bit >= 9 && !options.preserve_permissions ==> (unpacked_mode(mode, options) >> bit) & 1 == 0,
        options.mask == 0 && mode <= 0o777 ==> unpacked_mode(mode, options) == mode,
        options.mask == 0 && options.preserve_permissions ==> unpacked_mode(mode, options) == mode,
        unpacked_mode(mode, options) <= mode,
{
    let mask = options.mask;
    assert(bit < 9 ==> ((((mode & 0o777) & !mask) >> bit) & 1 == 1 <==> (mode >> bit) & 1 == 1 && (
    mask >> bit) & 1 == 0)) by (bit_vector);
    assert(bit < 32 ==> (((mode & !mask) >> bit) & 1 == 1 <==> (mode >> bit) & 1 == 1 && (mask
        >> bit) & 1 == 0)) by (bit_vector);
    assert(9 <= bit < 32 ==> (((mode & 0o777) & !mask) >> bit) & 1 == 0) by (bit_vector);
    assert(mask == 0 && mode <= 0o777 ==> (mode & 0o777) & !mask == mode) by (bit_vector);
    assert(mask == 0 ==> mode & !mask == mode) by (bit_vector);
    assert(mode & !mask <= mode && (mode & 0o777) & !mask <= mode) by (bit_vector);
}

/// What is done for an entry depends on its type: a directory is created, a link is made if it has a
/// link name, nothing is done for records about other entries, and whatever else there is is a
/// file, with the bytes of the entry.
pub proof fn law_plan_by_type(e: EntryView, dst: Seq<u8>, root: Option<Seq<u8>>)
    ensures
        ({
            let kind = type_of(e.header[156]);
            let r = planned(e, dst, root);
            &&& r == Ok::<Planned, TarError>(Planned::Directory) <==> kind is Directory
            &&& r == Ok::<Planned, TarError>(Planned::Nothing) <==> kind is XHeader || kind
                is XGlobalHeader || kind is GNULongName || kind is GNULongLink
            &&& r == Err::<Planned, TarError>(TarError::LinkNameMissing) <==> (kind is Link || kind
                is Symlink) && e.link() is None
            &&& r is Err ==> kind is Link || kind is Symlink
            &&& r matches Ok(Planned::HardLink(_)) ==> kind is Link
            &&& r matches Ok(Planned::Symlink(_)) ==> kind is Symlink
            &&& r matches Ok(Planned::File(f)) ==> f == file_plan(e) && f.data == e.data
        }),
{
}

/// A file gets what its header states and the options ask for: a mode whenever there is one, the
/// time and the owner if they are to be preserved, and extended attributes if they are to be
/// unpacked. It gets nothing else.
pub proof fn law_plan_as_stated(e: EntryView, mode: u32, uid: u32, gid: u32, mtime: u64)
    requires
        states(e.header, 100, 108, mode as int),
        states(e.header, 108, 116, uid as int),
        states(e.header, 116, 124, gid as int),
        states(e.header, 136, 148, mtime as int),
    ensures
        ({
            let f = file_plan(e);
            let o = e.options;
            &&& f.mode == Some(unpacked_mode(mode, o))
            &&& o.mask == 0 && mode <= 0o777 ==> f.mode == Some(mode)
            &&& f.mtime == if o.preserve_mtime {
                Some(mtime)
            } else {
                None
            }
            &&& f.owner == if o.preserve_ownerships {
                Some((uid, gid))
            } else {
                None
            }
            &&& !o.unpack_xattrs || e.pax_extensions is None ==> f.xattrs.len() == 0
            &&& f.overwrite == o.overwrite
        }),
{
    law_mode_kept(mode, e.options, 0);
}

/// A file that was added with its metadata is unpacked with its permissions and its modification
/// time. The header may be read back with another spelling of owner and group.
pub proof fn law_metadata_restored(
    e: EntryView,
    h: Seq<u8>,
    meta: Metadata,
    dst: Seq<u8>,
    root: Option<Seq<u8>>,
)
    requires
        is_fresh(h),
        is_kept(e.header, with_cksum(with_metadata(h, meta, HeaderMode::Complete))),
        meta.mode & 0o170000 == 0o100000,
        meta.mode <= 0o177777,
        0 <= meta.mtime < 0o100000000000,
        e.options.mask == 0,
    ensures
        ({
            let r = planned(e, dst, root);
            &&& r matches Ok(Planned::File(f))
            &&& e.options.preserve_permissions ==> f.mode == Some(meta.mode)
            &&& !e.options.preserve_permissions ==> f.mode == Some((meta.mode % 0o1000) as u32)
            &&& e.options.preserve_mtime ==> f.mtime == Some(meta.mtime as u64)
            &&& f.data == e.data
        }),
{
    let w = with_metadata(h, meta, HeaderMode::Complete);
    let c = with_cksum(w);
    law_metadata_stated(h, meta, HeaderMode::Complete);
    law_type_of_mode(meta.mode);
    law_cksum_states_same(w, 100, 108, meta.mode as int);
    law_cksum_states_same(w, 136, 148, meta.mtime as int);
    law_cksum_right(w);
    assert(c.subrange(156, 157)[0] == w.subrange(156, 157)[0]);
    assert(e.header.take(108).subrange(100, 108) =~= e.header.subrange(100, 108));
    assert(c.take(108).subrange(100, 108) =~= c.subrange(100, 108));
    assert(e.header.skip(124).subrange(12, 24) =~= e.header.subrange(136, 148));
    assert(c.skip(124).subrange(12, 24) =~= c.subrange(136, 148));
    assert(e.header.skip(124)[32] == e.header[156]);
    assert(c.skip(124)[32] == c[156]);
    assert(c[156] == 48);
    let mode = meta.mode;
    let mask = e.options.mask;
    assert(mask == 0 ==> (mode & 0o777) & !mask == mode % 0o1000) by (bit_vector);
    assert(mask == 0 ==> mode & !mask == mode) by (bit_vector);
}

proof fn lemma_xattrs(list: Seq<(Seq<u8>, Seq<u8>)>)
    ensures
        xattrs_in(
            list.map_values(|kv: (Seq<u8>, Seq<u8>)| Ok::<(Seq<u8>, Seq<u8>), TarError>(kv)),
        ) == list.filter(|kv: (Seq<u8>, Seq<u8>)| is_attribute(kv.0)).map_values(
            |kv: (Seq<u8>, Seq<u8>)| (kv.0.skip(13), kv.1),
        ),
    decreases list.len(),
{
    let f = |kv: (Seq<u8>, Seq<u8>)| Ok::<(Seq<u8>, Seq<u8>), TarError>(kv);
    let p = |kv: (Seq<u8>, Seq<u8>)| is_attribute(kv.0);
    let g = |kv: (Seq<u8>, Seq<u8>)| (kv.0.skip(13), kv.1);
    reveal(Seq::filter);
    if list.len() == 0 {
        assert(xattrs_in(list.map_values(f)) =~= list.filter(p).map_values(g));
    } else {
        let rest = list.skip(1);
        lemma_xattrs(rest);
        assert(list.map_values(f).skip(1) =~= rest.map_values(f));
        let one = seq![list[0]];
        assert(list =~= one + rest);
        Seq::filter_distributes_over_add(one, rest, p);
        assert(one.drop_last() =~= Seq::empty());
        assert(one.drop_last().filter(p) =~= Seq::empty());
        assert(xattrs_in(list.map_values(f)) =~= list.filter(p).map_values(g));
    }
}

/// Whether a key is that of an extended attribute: it starts with `SCHILY.xattr.`.
pub open spec fn is_attribute(key: Seq<u8>) -> bool {
    key.len() >= 13 && key.take(13) == seq![
        83u8, 67u8, 72u8, 73u8, 76u8, 89u8, 46u8, 120u8, 97u8, 116u8, 116u8, 114u8, 46u8,
    ]
}

/// The extended attributes that were written as pax records are restored: all of them, in order,
/// each under its name and with its value; and no other record is taken for one.
pub proof fn law_xattrs_restored(e: EntryView, list: Seq<(Seq<u8>, Seq<u8>)>)
    requires
        forall|k: int|
            0 <= k < list.len() ==> !(#[trigger] list[k]).0.contains(61u8) && !list[k].0.contains(
                10u8,
            ) && !list[k].1.contains(10u8),
        all_records(list).len() <= usize::MAX,
        e.pax_extensions == Some(all_records(list)),
        e.options.unpack_xattrs,
    ensures
        file_plan(e).xattrs == list.filter(
            |kv: (Seq<u8>, Seq<u8>)| is_attribute(kv.0),
        ).map_values(|kv: (Seq<u8>, Seq<u8>)| (kv.0.skip(13), kv.1)),
{
    law_records_read_back(list);
    lemma_xattrs(list);
}

/// An entry is unpacked as it was placed: nothing is done for one that has no place below the
/// directory, and what is done for any other is what is planned for it there. A file is written
/// with its bytes, all of which must be there.
pub proof fn law_step_as_planned(e: EntryView, source: Seq<u8>, dst: Seq<u8>)
    ensures
        ({
            let r = stepped(e, source, dst);
            let place = placed(dst, e.path());
            &&& r matches Ok(s) ==> s.place == place
            &&& !(place is At) ==> (r matches Ok(s) && s.action is Nothing)
            &&& place matches Placed::At(p) ==> match planned(e, p, Some(dst)) {
                Err(error) => r == Err::<Stepped, TarError>(error),
                Ok(Planned::File(f)) => match r {
                    Ok(s) => s.action == Acted::File(f, content(e.data, source)),
                    Err(error) => error == TarError::ShortWrite && !is_complete(e.data, source),
                },
                Ok(Planned::Directory) => r matches Ok(s) && s.action is Directory,
                Ok(Planned::Nothing) => r matches Ok(s) && s.action is Nothing,
                Ok(Planned::Symlink(t)) => r matches Ok(s) && s.action == Acted::Symlink(t),
                Ok(Planned::HardLink(t)) => r matches Ok(s) && s.action == Acted::HardLink(t),
            }
        }),
{
}

} // verus!
