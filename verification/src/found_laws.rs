//! What is found in headers, in tables and at the end of an archive.

use crate::archive::{expected, look, read_on, Found, Place};
use crate::archive_laws::law_end_read_back;
use crate::builder::Writing;
use crate::entry::zeros;
use crate::fields::{GnuHeader, GnuSparseHeader, OldHeader, UstarHeader};
use crate::gather_laws::law_is_before;
use crate::machine::{after_fill, begun, raw_settled, Walk};
use crate::number::octal_field;
use crate::number_laws::law_octal_written;
use crate::realpath::target_of;
use crate::streamer::{body_at, FileBody};
use crate::unpack_all::{inserted, is_before, sorted, Late};
use vstd::prelude::*;

verus! {

/// The fields of a header of the oldest format, one behind the other, are the header.
pub proof fn law_old_fields(f: OldHeader<'_>, h: Seq<u8>)
    requires
        h.len() == 512,
        f.is_of(h),
    ensures
        f.name@ + f.mode@ + f.uid@ + f.gid@ + f.size@ + f.mtime@ + f.cksum@ + f.linkflag@
            + f.linkname@ + f.pad@ == h,
        f.name@.len() == 100 && f.mode@.len() == 8 && f.uid@.len() == 8 && f.gid@.len() == 8,
        f.size@.len() == 12 && f.mtime@.len() == 12 && f.cksum@.len() == 8,
        f.linkflag@.len() == 1 && f.linkname@.len() == 100,
{
    assert(f.name@ + f.mode@ + f.uid@ + f.gid@ + f.size@ + f.mtime@ + f.cksum@ + f.linkflag@
        + f.linkname@ + f.pad@ =~= h);
}

/// The fields of a UStar header, one behind the other, are the header.
pub proof fn law_ustar_fields(f: UstarHeader<'_>, h: Seq<u8>)
    requires
        h.len() == 512,
        f.is_of(h),
    ensures
        f.name@ + f.mode@ + f.uid@ + f.gid@ + f.size@ + f.mtime@ + f.cksum@ + f.typeflag@
            + f.linkname@ + f.magic@ + f.version@ + f.uname@ + f.gname@ + f.dev_major@ + f.dev_minor@
            + f.prefix@ + f.pad@ == h,
        f.name@.len() == 100 && f.mode@.len() == 8 && f.uid@.len() == 8 && f.gid@.len() == 8,
        f.size@.len() == 12 && f.mtime@.len() == 12 && f.cksum@.len() == 8,
        f.typeflag@.len() == 1 && f.linkname@.len() == 100 && f.magic@.len() == 6,
        f.version@.len() == 2 && f.uname@.len() == 32 && f.gname@.len() == 32,
        f.dev_major@.len() == 8 && f.dev_minor@.len() == 8 && f.prefix@.len() == 155,
{
    assert(f.name@ + f.mode@ + f.uid@ + f.gid@ + f.size@ + f.mtime@ + f.cksum@ + f.typeflag@
        + f.linkname@ + f.magic@ + f.version@ + f.uname@ + f.gname@ + f.dev_major@ + f.dev_minor@
        + f.prefix@ + f.pad@ =~= h);
}

/// The fields of a GNU header, one behind the other, are the header.
pub proof fn law_gnu_fields(f: GnuHeader<'_>, h: Seq<u8>)
    requires
        h.len() == 512,
        f.is_of(h),
    ensures
        f.name@ + f.mode@ + f.uid@ + f.gid@ + f.size@ + f.mtime@ + f.cksum@ + f.typeflag@
            + f.linkname@ + f.magic@ + f.version@ + f.uname@ + f.gname@ + f.dev_major@ + f.dev_minor@
            + f.atime@ + f.ctime@ + f.offset@ + f.longnames@ + f.unused@ + f.sparse@ + f.isextended@
            + f.realsize@ + f.pad@ == h,
        f.name@.len() == 100 && f.mode@.len() == 8 && f.uid@.len() == 8 && f.gid@.len() == 8,
        f.size@.len() == 12 && f.mtime@.len() == 12 && f.cksum@.len() == 8,
        f.typeflag@.len() == 1 && f.linkname@.len() == 100 && f.magic@.len() == 6,
        f.version@.len() == 2 && f.uname@.len() == 32 && f.gname@.len() == 32,
        f.dev_major@.len() == 8 && f.dev_minor@.len() == 8 && f.atime@.len() == 12,
        f.ctime@.len() == 12 && f.offset@.len() == 12 && f.longnames@.len() == 4,
        f.unused@.len() == 1 && f.sparse@.len() == 96 && f.isextended@.len() == 1,
        f.realsize@.len() == 12,
{
    assert(f.name@ + f.mode@ + f.uid@ + f.gid@ + f.size@ + f.mtime@ + f.cksum@ + f.typeflag@
        + f.linkname@ + f.magic@ + f.version@ + f.uname@ + f.gname@ + f.dev_major@ + f.dev_minor@
        + f.atime@ + f.ctime@ + f.offset@ + f.longnames@ + f.unused@ + f.sparse@ + f.isextended@
        + f.realsize@ + f.pad@ =~= h);
}

/// A sparse block whose offset and length were written is in use, whatever they are.
pub proof fn law_block_in_use(
    b: GnuSparseHeader,
    before: Seq<u8>,
    after: Seq<u8>,
    offset: u64,
    length: u64,
)
    requires
        before.len() == 12,
        after.len() == 12,
        b.offset@ == octal_field(before, offset as int),
        b.numbytes@ == octal_field(after, length as int),
    ensures
        !b.unused(),
{
    law_octal_written(before, offset as int, 0);
    law_octal_written(after, length as int, 0);
}

/// An archive whose end is written ends there: a walk that comes to it finds the end. What was
/// written before stays, and the end is written only once.
pub proof fn law_ended(w: Writing, at: Place)
    requires
        !w.finished,
        !at.walk.done,
        !at.walk.raw,
        !at.walk.seekable,
        !at.walk.options.ignore_zeros,
        at.walk.next == w.out.len(),
        0 <= at.pos <= at.walk.next,
        w.out.len() + 1024 <= u64::MAX,
    ensures
        expected(w.ended().out, at) == Some(Found::End),
        w.ended().out.take(w.out.len() as int) == w.out,
        w.out.len() % 512 == 0 ==> w.ended().out.len() % 512 == 0,
        w.ended().ended() == w.ended(),
        w.ended().mode == w.mode,
{
    law_end_read_back(w.out, Seq::empty(), at);
    assert(w.out + zeros(1024) + Seq::<u8>::empty() =~= w.ended().out);
    assert(w.ended().out.take(w.out.len() as int) =~= w.out);
}

proof fn lemma_not_before_itself(a: Seq<u8>)
    ensures
        !is_before(a, a),
{
    law_is_before(a, a);
}

proof fn lemma_inserted_stable(list: Seq<Late>, d: Late, path: Seq<u8>)
    ensures
        inserted(list, d).filter(|x: Late| x.path == path) == if d.path == path {
            list.filter(|x: Late| x.path == path).push(d)
        } else {
            list.filter(|x: Late| x.path == path)
        },
    decreases list.len(),
{
    reveal(Seq::filter);
    let p = |x: Late| x.path == path;
    let r = inserted(list, d);
    if list.len() > 0 && is_before(list.last().path, d.path) {
        let front = list.drop_last();
        lemma_inserted_stable(front, d, path);
        lemma_not_before_itself(d.path);
        let s = inserted(front, d);
        assert(r.drop_last() =~= s);
        assert(r.last() == list.last());
    } else {
        assert(r.drop_last() =~= list);
        assert(r.last() == d);
    }
}

/// Of directories with one path, the first stays first when they are put in order.
pub proof fn law_sorted_stable(list: Seq<Late>, path: Seq<u8>)
    ensures
        sorted(list).filter(|x: Late| x.path == path) == list.filter(|x: Late| x.path == path),
    decreases list.len(),
{
    reveal(Seq::filter);
    if list.len() > 0 {
        let front = list.drop_last();
        law_sorted_stable(front, path);
        lemma_inserted_stable(sorted(front), list.last(), path);
    }
}

/// A table of links says of a path what the first link with that path points to, and nothing if no
/// link has the path.
pub proof fn law_target_of(links: Seq<(Vec<u8>, Vec<u8>)>, p: Seq<u8>, n: int)
    ensures
        target_of(links, p) is None <==> forall|k: int|
            0 <= k < links.len() ==> (#[trigger] links[k]).0@ != p,
        0 <= n < links.len() && links[n].0@ == p && (forall|k: int|
            0 <= k < n ==> (#[trigger] links[k]).0@ != p) ==> target_of(links, p) == Some(
            links[n].1@,
        ),
    decreases links.len(),
{
    if links.len() > 0 {
        let rest = links.skip(1);
        law_target_of(rest, p, n - 1);
        assert(forall|k: int| 0 <= k < rest.len() ==> #[trigger] rest[k] == links[k + 1]);
        if links[0].0@ != p {
            if target_of(rest, p) is None {
                assert forall|k: int| 0 <= k < links.len() implies (#[trigger] links[k]).0@ != p by {
                    if k > 0 {
                        assert(rest[k - 1].0@ != p);
                    }
                }
            } else {
                let k = choose|k: int| 0 <= k < rest.len() && (#[trigger] rest[k]).0@ == p;
                assert(links[k + 1].0@ == p);
            }
            if 0 < n < links.len() {
                assert(rest[n - 1] == links[n]);
            }
        }
    }
}

/// Whether a file of a table is meant by a path: a link is only meant if links are followed.
pub open spec fn is_meant(f: FileBody, path: Seq<u8>, follow: bool) -> bool {
    f.path@ == path && (f.is_link ==> follow)
}

/// A table of files says of a path what the first file holds that is meant by it, and nothing if none
/// is meant.
pub proof fn law_body_at(table: Seq<FileBody>, path: Seq<u8>, follow: bool, n: int)
    ensures
        body_at(table, path, follow) is None <==> forall|k: int|
            0 <= k < table.len() ==> !is_meant(#[trigger] table[k], path, follow),
        0 <= n < table.len() && is_meant(table[n], path, follow) && (forall|k: int|
            0 <= k < n ==> !is_meant(#[trigger] table[k], path, follow)) ==> body_at(
            table,
            path,
            follow,
        ) == Some(table[n].data@),
    decreases table.len(),
{
    if table.len() > 0 {
        let rest = table.skip(1);
        law_body_at(rest, path, follow, n - 1);
        assert(forall|k: int| 0 <= k < rest.len() ==> #[trigger] rest[k] == table[k + 1]);
        if !is_meant(table[0], path, follow) {
            if body_at(rest, path, follow) is None {
                assert forall|k: int| 0 <= k < table.len() implies !is_meant(
                    #[trigger] table[k],
                    path,
                    follow,
                ) by {
                    if k > 0 {
                        assert(!is_meant(rest[k - 1], path, follow));
                    }
                }
            } else {
                let k = choose|k: int|
                    0 <= k < rest.len() && is_meant(#[trigger] rest[k], path, follow);
                assert(is_meant(table[k + 1], path, follow));
            }
            if 0 < n < table.len() {
                assert(rest[n - 1] == table[n]);
            }
        }
    }
}

/// A block of zeros is passed over by a raw walk if zeros are to be ignored: the walk comes to what
/// stands behind it.
pub proof fn law_raw_zeros_passed(obj: Seq<u8>, at: Place)
    requires
        !at.walk.done,
        at.walk.raw,
        !at.walk.seekable,
        at.walk.options.ignore_zeros,
        0 <= at.pos <= at.walk.next,
        at.walk.next + 512 <= obj.len() <= u64::MAX,
        forall|k: int| at.walk.next <= k < at.walk.next + 512 ==> #[trigger] obj[k] == 0,
    ensures
        look(obj, at).1 == look(
            obj,
            Place { walk: Walk { next: (at.walk.next + 512) as u64, ..at.walk }, ..at },
        ).1,
{
    let n = at.walk.next as int;
    let block = obj.subrange(n, n + 512);
    assert(block =~= zeros(512));
    let w = begun(at.walk, at.pos as u64).0;
    assert(after_fill(w, block) == raw_settled(w, block));
    let later = Walk { next: (n + 512) as u64, ..at.walk };
    let v = begun(later, at.pos as u64).0;
    assert(raw_settled(w, block).0 == v);
    assert(look(obj, at) == read_on(obj, Place { walk: w, pos: n }, 512));
    assert(read_on(obj, Place { walk: w, pos: n }, 512) == read_on(
        obj,
        Place { walk: v, pos: n + 512 },
        512,
    ));
}

} // verus!
