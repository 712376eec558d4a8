//! What reading a header gives back of what was written to it.

use crate::bytes::{
    find_from, lemma_find_from, slashed, store_error, stored_at, truncated, with_field,
};
use crate::error::TarError;
use crate::header::{
    byte_sum, checksum, header_link, header_link_stored, header_path, header_path_stored, is_gnu,
    is_ustar, lemma_ustar_path_stored, octal_u32, split_parent, with_cksum, with_metadata,
    with_octal, without_cksum, HeaderMode, Metadata,
};
use crate::number::{law_octal_round_trip, octal, octal_field};
use crate::path::{
    ends, ends_from, is_absolute, lead, lemma_ends, parent_of, parts, parts_from, segment_part,
    slash_at_end, Part,
};
use crate::stored_path::{
    archive_path, law_archive_path_split, law_path_stored, lemma_path_stored_len,
    lemma_root_refused, lemma_spelling_filled, lemma_stored_text,
};
use vstd::arithmetic::power::pow;
use vstd::prelude::*;

verus! {

/// Writing one field leaves every other field as it was.
pub proof fn law_field_kept(h: Seq<u8>, lo: int, field: Seq<u8>, a: int, b: int)
    requires
        0 <= lo,
        lo + field.len() <= h.len(),
        0 <= a <= b <= h.len(),
        b <= lo || lo + field.len() <= a,
    ensures
        with_field(h, lo, field).subrange(a, b) == h.subrange(a, b),
{
    assert(with_field(h, lo, field).subrange(a, b) =~= h.subrange(a, b));
}

/// A field holds what was written to it, and the header keeps its length.
pub proof fn law_field_written(h: Seq<u8>, lo: int, field: Seq<u8>)
    requires
        0 <= lo,
        lo + field.len() <= h.len(),
    ensures
        with_field(h, lo, field).len() == h.len(),
        with_field(h, lo, field).subrange(lo, lo + field.len()) == field,
{
    assert(with_field(h, lo, field).subrange(lo, lo + field.len()) =~= field);
}

/// A number that fits its field is read back from the header, if the field ends in a nul or
/// a space, as every field of a fresh header does.
pub proof fn law_number_read_back(h: Seq<u8>, lo: int, hi: int, value: u64)
    requires
        0 <= lo,
        lo + 2 <= hi <= h.len(),
        h[hi - 1] == 0 || h[hi - 1] == 32,
        value < pow(8, (hi - lo - 1) as nat),
    ensures
        octal(with_octal(h, lo, hi, value as int).subrange(lo, hi)) == Ok::<u64, TarError>(value),
        value <= u32::MAX ==> octal_u32(with_octal(h, lo, hi, value as int).subrange(lo, hi)) == Ok::<
            u32,
            TarError,
        >(value as u32),
{
    let field = h.subrange(lo, hi);
    law_field_written(h, lo, octal_field(field, value as int));
    law_octal_round_trip(field, value);
}

pub proof fn lemma_sum_bound(s: Seq<u8>)
    ensures
        0 <= byte_sum(s) <= 255 * s.len(),
    decreases s.len(),
{
    if s.len() > 0 {
        lemma_sum_bound(s.drop_last());
    }
}

/// Filling in the checksum makes it the right one: the stored number is the checksum of the
/// header as it then stands.
pub proof fn law_cksum_right(h: Seq<u8>)
    requires
        h.len() == 512,
    ensures
        with_cksum(h).len() == 512,
        checksum(with_cksum(h)) == checksum(h),
        octal_u32(with_cksum(h).subrange(148, 156)) == Ok::<u32, TarError>(checksum(h) as u32),
        0 <= checksum(h) <= 130560,
        forall|a: int, b: int|
            0 <= a <= b <= 512 && (b <= 148 || 156 <= a) ==> #[trigger] with_cksum(h).subrange(a, b)
                == h.subrange(a, b),
{
    let empty = without_cksum(h);
    lemma_sum_bound(empty);
    let sum = checksum(h);
    assert(without_cksum(with_cksum(h)) =~= empty);
    assert(pow(8, 7) == 2097152) by {
        reveal_with_fuel(pow, 8);
    }
    law_number_read_back(empty, 148, 156, sum as u64);
    assert forall|a: int, b: int|
        0 <= a <= b <= 512 && (b <= 148 || 156 <= a) implies #[trigger] with_cksum(h).subrange(a, b)
        == h.subrange(a, b) by {
        assert(with_cksum(h).subrange(a, b) =~= h.subrange(a, b));
    }
}

/// A name that fits its field is read back from it.
pub proof fn law_name_read_back(h: Seq<u8>, lo: int, hi: int, name: Seq<u8>)
    requires
        0 <= lo <= hi <= h.len(),
        store_error(hi - lo, name) is None,
    ensures
        truncated(
            with_field(h, lo, stored_at(h.subrange(lo, hi), 0, name)).subrange(lo, hi),
        ) == name,
{
    let field = h.subrange(lo, hi);
    law_field_written(h, lo, stored_at(field, 0, name));
    lemma_stored_text(field, name);
}

/// A link name that could be set is read back, with slashes for backslashes.
pub proof fn law_link_read_back(h: Seq<u8>, p: Seq<u8>)
    requires
        h.len() == 512,
        header_link_stored(h, p).1 is Ok,
    ensures
        archive_path(p, true) is Ok,
        header_link(header_link_stored(h, p).0) == Some(slashed(archive_path(p, true)->Ok_0)),
{
    let field = h.subrange(157, 257);
    law_path_stored(field, p, true);
    lemma_path_stored_len(field, p, true);
    let text = archive_path(p, true)->Ok_0;
    lemma_spelling_filled(p, true);
    lemma_stored_text(field, text);
    law_field_written(h, 157, stored_at(field, 0, text));
    let r = header_link_stored(h, p).0;
    assert(r.subrange(157, 257)[0] == r[157]);
}

/// Where a component ends, the path ends or a slash follows; only a leading root ends in a slash.
proof fn lemma_end_at_slash(p: Seq<u8>, i: int, k: int)
    requires
        0 <= i,
        0 <= k < ends_from(p, i).len(),
    ensures
        ({
            let e = ends_from(p, i)[k];
            i < e <= p.len() && p[e - 1] != 47 && (e < p.len() ==> p[e] == 47)
        }),
    decreases p.len() + 1 - i,
{
    let j = find_from(p, 47, i);
    lemma_find_from(p, 47, i);
    match segment_part(p.subrange(i, j)) {
        Some(part) => {
            if k > 0 {
                lemma_end_at_slash(p, j + 1, k - 1);
                assert(ends_from(p, i)[k] == ends_from(p, j + 1)[k - 1]);
            } else {
                assert(p.subrange(i, j).len() > 0);
            }
        },
        None => {
            lemma_end_at_slash(p, j + 1, k);
        },
    }
}

/// A parent is the path up to a slash, unless it is empty or the root.
proof fn lemma_parent_at_slash(p: Seq<u8>)
    requires
        parent_of(p) is Some,
    ensures
        ({
            let q = parent_of(p)->Some_0;
            &&& q.len() < p.len()
            &&& q == p.take(q.len() as int)
            &&& q.len() == 0 || is_absolute(q) || (p[q.len() as int] == 47 && !slash_at_end(q))
        }),
{
    let q = parent_of(p)->Some_0;
    let n = parts(p).len();
    lemma_ends(p);
    if n > 1 {
        let e = ends(p)[n - 2];
        assert(e < ends(p)[n - 1]);
        if lead(p) is Some {
            if n - 2 > 0 {
                lemma_end_at_slash(p, 0, n - 3);
                assert(ends(p)[n - 2] == ends_from(p, 0)[n - 3]);
            }
        } else {
            lemma_end_at_slash(p, 0, n - 2);
        }
    } else {
        assert(q =~= p.take(0));
        assert(ends(p)[0] > 0);
    }
}

proof fn lemma_split_at_slash(p: Seq<u8>)
    requires
        split_parent(p) is Some,
    ensures
        ({
            let q = split_parent(p)->Some_0;
            &&& q.len() < p.len()
            &&& q == p.take(q.len() as int)
            &&& q.len() == 0 || is_absolute(q) || (p[q.len() as int] == 47 && !slash_at_end(q))
        }),
    decreases p.len(),
{
    lemma_parent_at_slash(p);
    let q = parent_of(p)->Some_0;
    if q.len() > 155 {
        lemma_split_at_slash(q);
        let r = split_parent(q)->Some_0;
        assert(r =~= p.take(r.len() as int));
    }
}

/// A path that starts at the root has no spelling, and an empty one neither.
proof fn lemma_no_spelling(p: Seq<u8>)
    requires
        p.len() == 0 || is_absolute(p),
    ensures
        archive_path(p, false) is Err,
{
    if p.len() == 0 {
        assert(parts(p) =~= Seq::empty());
    } else {
        let rest = parts_from(p, 0);
        assert(parts(p) == seq![Part::RootDir] + rest);
        lemma_root_refused(rest);
    }
}

/// A path that could be set is read back, with slashes for backslashes, whatever path the
/// header held before.
pub proof fn law_path_read_back(h: Seq<u8>, p: Seq<u8>)
    requires
        h.len() == 512,
        header_path_stored(h, p).1 is Ok,
    ensures
        archive_path(p, false) is Ok,
        header_path(header_path_stored(h, p).0) == slashed(archive_path(p, false)->Ok_0),
        is_ustar(header_path_stored(h, p).0) == is_ustar(h),
        is_gnu(header_path_stored(h, p).0) == is_gnu(h),
{
    let name = h.subrange(0, 100);
    let prefix = h.subrange(345, 500);
    let r = header_path_stored(h, p).0;
    lemma_ustar_path_stored(name, prefix, p);
    lemma_path_stored_len(name, p, false);
    assert(r.subrange(257, 265) =~= h.subrange(257, 265));
    if !is_ustar(h) || p.len() <= 100 {
        law_path_stored(name, p, false);
        let text = archive_path(p, false)->Ok_0;
        lemma_stored_text(name, text);
        assert(r.subrange(0, 100) =~= stored_at(name, 0, text));
        if is_ustar(h) {
            let none = stored_at(prefix, 0, Seq::empty());
            assert(r.subrange(345, 500) =~= none);
            assert(none[0] == 0);
            assert(find_from(none, 0, 0) == 0);
            assert(truncated(none).len() == 0);
            assert(slashed(truncated(none)).len() == 0);
        }
    } else {
        let q = split_parent(p)->Some_0;
        let rest = p.skip((q.len() + 1) as int);
        lemma_split_at_slash(p);
        law_path_stored(prefix, q, false);
        law_path_stored(name, rest, false);
        let front = archive_path(q, false)->Ok_0;
        let back = archive_path(rest, false)->Ok_0;
        if q.len() == 0 || is_absolute(q) {
            lemma_no_spelling(q);
        }
        law_archive_path_split(p, q.len() as int);
        lemma_stored_text(prefix, front);
        lemma_stored_text(name, back);
        lemma_spelling_filled(q, false);
        assert(r.subrange(0, 100) =~= stored_at(name, 0, back));
        assert(r.subrange(345, 500) =~= stored_at(prefix, 0, front));
        assert(slashed(front).push(47u8) + slashed(back) =~= slashed(front.push(47u8) + back));
    }
}

/// A header that is filled deterministically depends on nothing but the type of a file, its
/// length and whether its owner may execute it: neither on its owner nor on its times, nor on
/// any other permission.
pub proof fn law_deterministic(h: Seq<u8>, a: Metadata, b: Metadata)
    requires
        a.file_type() == b.file_type(),
        a.mode & 0o100 == b.mode & 0o100,
        a.len == b.len,
    ensures
        with_metadata(h, a, HeaderMode::Deterministic) == with_metadata(
            h,
            b,
            HeaderMode::Deterministic,
        ),
{
}

} // verus!
