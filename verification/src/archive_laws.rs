//! What reading an archive gives back of what was written to it.

use crate::bytes::{lemma_find_from, slashed, store_error, truncated, with_field};
use crate::builder::{appended, file_added, long_header, prepared};
use crate::entry::{content, least, left_over, zeros, EntryIo, Options};
use crate::entry_type::EntryType;
use crate::error::TarError;
use crate::header::{
    blank_gnu, checksum, gnu_magic, header_link, header_path, header_path_stored, is_gnu, is_ustar, octal_u32,
    type_of_mode, ustar_magic, with_attributes, with_cksum, with_metadata, with_octal,
    with_size_no_device, without_cksum, HeaderMode, Metadata, S_IFDIR,
};
use crate::header_laws::{law_cksum_right, law_path_read_back};
use crate::archive::{expected, lemma_zeros_no_entry, look, rest_of, Found, Place};
use crate::machine::{layout, sparse_runs, Walk};
use crate::number::{
    law_octal_round_trip, lemma_octal_shift, octal, octal_field, octal_shift,
};
use crate::front_laws::{
    law_front_read_back, lemma_described, pax_record, pax_size, reads_back, text_record, text_size,
};
use crate::parser::{
    completed, has_right_cksum, is_ordinary, no_front, ordinary, padded, plain_number,
    Described, Front,
};
use crate::stored_path::{archive_path, law_path_stored, lemma_path_stored_len};
use vstd::arithmetic::power::{lemma_pow_positive, pow};
use vstd::prelude::*;

verus! {

/// An archive of whole blocks is still one of whole blocks when an entry is added.
pub proof fn law_whole_blocks(out: Seq<u8>, header: Seq<u8>, data: Seq<u8>)
    requires
        out.len() % 512 == 0,
        header.len() == 512,
    ensures
        appended(out, header, data).len() % 512 == 0,
        appended(out, header, data).len() == out.len() + 512 + padded(data.len() as int),
        padded(data.len() as int) >= data.len(),
        padded(data.len() as int) - data.len() < 512,
{
}

/// Writing only the digits that have room is writing the number cut to these digits.
proof fn lemma_shift_cut(v: int, m: nat, k: int)
    requires
        0 <= v,
        0 <= k < m,
    ensures
        octal_shift(v % pow(8, m), k) % 8 == octal_shift(v, k) % 8,
    decreases k,
{
    reveal(pow);
    lemma_pow_positive(8, (m - 1) as nat);
    let p = pow(8, (m - 1) as nat);
    vstd::arithmetic::div_mod::lemma_mod_breakdown(v, 8, p);
    assert(v % pow(8, m) == 8 * ((v / 8) % p) + v % 8);
    vstd::arithmetic::div_mod::lemma_mod_bound(v / 8, p);
    if k > 0 {
        assert((v % pow(8, m)) / 8 == (v / 8) % p);
        lemma_shift_cut(v / 8, (m - 1) as nat, k - 1);
    }
}

/// A field of octal digits in front of a nul or a space is a plain number: the number that was
/// written, cut to the digits that have room.
pub(crate) proof fn lemma_octal_field_plain(field: Seq<u8>, value: int)
    requires
        2 <= field.len() <= 12,
        field.last() == 0 || field.last() == 32,
        0 <= value,
    ensures
        ({
            let w = value % pow(8, (field.len() - 1) as nat);
            &&& 0 <= w <= u64::MAX
            &&& plain_number(octal_field(field, value)) == Some(w as u64)
            &&& octal(octal_field(field, value)) == Ok::<u64, TarError>(w as u64)
        }),
{
    reveal(plain_number);
    let m = (field.len() - 1) as nat;
    lemma_pow_positive(8, m);
    let w = value % pow(8, m);
    vstd::arithmetic::div_mod::lemma_mod_bound(value, pow(8, m));
    lemma_small_powers();
    lemma_pow_up(m);
    let stored = octal_field(field, value);
    assert(stored =~= octal_field(field, w)) by {
        assert forall|i: int| 0 <= i < field.len() - 1 implies stored[i] == octal_field(field, w)[i] by {
            lemma_shift_cut(value, m, field.len() - 2 - i);
        }
    }
    law_octal_round_trip(field, w as u64);
    assert forall|i: int| 0 <= i < field.len() - 1 implies 48 <= #[trigger] stored[i] < 56 by {
        lemma_octal_shift(value, field.len() - 2 - i);
    }
    lemma_find_from(stored, 0, 0);
    let text = truncated(stored);
    assert forall|k: int| 0 <= k < text.len() implies text[k] < 128 by {
        if k < field.len() - 1 {
            assert(text[k] == stored[k]);
        }
    }
    assert(stored[0] != 0);
}

pub(crate) proof fn lemma_small_powers()
    ensures
        pow(8, 11) == 8589934592,
        pow(8, 7) == 2097152,
{
    reveal_with_fuel(pow, 12);
}

proof fn lemma_pow_up(m: nat)
    requires
        1 <= m <= 11,
    ensures
        pow(8, m) <= pow(8, 11),
    decreases 11 - m,
{
    reveal(pow);
    if m < 11 {
        lemma_pow_positive(8, m);
        lemma_pow_up(m + 1);
    }
}

pub(crate) proof fn lemma_with_field(h: Seq<u8>, lo: int, field: Seq<u8>)
    requires
        0 <= lo,
        lo + field.len() <= h.len(),
    ensures
        with_field(h, lo, field).len() == h.len(),
        forall|k: int|
            0 <= k < h.len() ==> #[trigger] with_field(h, lo, field)[k] == if lo <= k < lo
                + field.len() {
                field[k - lo]
            } else {
                h[k]
            },
{
}

/// A header with plain numbers and an ordinary type is ordinary once its checksum is filled in.
pub proof fn law_cksum_makes_ordinary(h: Seq<u8>)
    requires
        h.len() == 512,
        h[156] != 76 && h[156] != 75 && h[156] != 120 && h[156] != 103 && h[156] != 83,
        plain_number(h.subrange(100, 108)) is Some,
        plain_number(h.subrange(108, 116)) is Some,
        plain_number(h.subrange(116, 124)) is Some,
        plain_number(h.subrange(136, 148)) is Some,
        plain_number(h.subrange(124, 136)) matches Some(size) && size + 511 <= u64::MAX,
        is_ustar(h) || is_gnu(h) ==> plain_number(h.subrange(329, 337)) is Some && plain_number(
            h.subrange(337, 345),
        ) is Some,
    ensures
        is_ordinary(with_cksum(h)),
        ordinary(with_cksum(h)) == (Described { header: with_cksum(h), ..ordinary(h) }),
{
    lemma_cksum_right_plain(h);
    let c = with_cksum(h);
    law_cksum_right(h);
    assert(c.subrange(156, 157)[0] == c[156]);
    assert(h.subrange(156, 157)[0] == h[156]);
    assert(c.subrange(100, 108) == h.subrange(100, 108));
    assert(c.subrange(108, 116) == h.subrange(108, 116));
    assert(c.subrange(116, 124) == h.subrange(116, 124));
    assert(c.subrange(136, 148) == h.subrange(136, 148));
    assert(c.subrange(124, 136) == h.subrange(124, 136));
    assert(c.subrange(257, 265) == h.subrange(257, 265));
    assert(c.subrange(329, 337) == h.subrange(329, 337));
    assert(c.subrange(337, 345) == h.subrange(337, 345));
    assert(c.subrange(0, 100) == h.subrange(0, 100));
    assert(c.subrange(345, 500) == h.subrange(345, 500));
    assert(c.subrange(157, 257) == h.subrange(157, 257));
}

pub(crate) proof fn lemma_cksum_right_plain(h: Seq<u8>)
    requires
        h.len() == 512,
    ensures
        has_right_cksum(with_cksum(h)),
        with_cksum(h).len() == 512,
{
    law_cksum_right(h);
    let empty = without_cksum(h);
    let field = empty.subrange(148, 156);
    assert(field =~= Seq::new(8, |k: int| 32u8));
    lemma_octal_field_plain(field, checksum(h));
    lemma_small_powers();
    let w = checksum(h) % pow(8, 7);
    assert(w == checksum(h)) by {
        vstd::arithmetic::div_mod::lemma_small_mod(checksum(h) as nat, pow(8, 7) as nat);
    }
    assert(with_cksum(h).subrange(148, 156) =~= octal_field(field, checksum(h)));
}

/// Writing a number to a field leaves every other field as it was.
pub(crate) proof fn lemma_octal_step(h: Seq<u8>, lo: int, hi: int, value: int)
    requires
        h.len() == 512,
        0 <= lo <= hi <= 512,
    ensures
        with_octal(h, lo, hi, value).len() == 512,
        with_octal(h, lo, hi, value).subrange(lo, hi) == octal_field(h.subrange(lo, hi), value),
        forall|a: int, b: int|
            0 <= a <= b <= 512 && (b <= lo || hi <= a) ==> #[trigger] with_octal(
                h,
                lo,
                hi,
                value,
            ).subrange(a, b) == h.subrange(a, b),
{
    let r = with_octal(h, lo, hi, value);
    assert(r.subrange(lo, hi) =~= octal_field(h.subrange(lo, hi), value));
    assert forall|a: int, b: int| 0 <= a <= b <= 512 && (b <= lo || hi <= a) implies #[trigger] r.subrange(
        a,
        b,
    ) == h.subrange(a, b) by {
        assert(r.subrange(a, b) =~= h.subrange(a, b));
    }
}

pub(crate) proof fn lemma_type_step(h: Seq<u8>, byte: u8)
    requires
        h.len() == 512,
    ensures
        with_field(h, 156, seq![byte]).len() == 512,
        with_field(h, 156, seq![byte]).subrange(156, 157) == seq![byte],
        forall|a: int, b: int|
            0 <= a <= b <= 512 && (b <= 156 || 157 <= a) ==> #[trigger] with_field(
                h,
                156,
                seq![byte],
            ).subrange(a, b) == h.subrange(a, b),
{
    let r = with_field(h, 156, seq![byte]);
    assert(r.subrange(156, 157) =~= seq![byte]);
    assert forall|a: int, b: int| 0 <= a <= b <= 512 && (b <= 156 || 157 <= a) implies #[trigger] r.subrange(
        a,
        b,
    ) == h.subrange(a, b) by {
        assert(r.subrange(a, b) =~= h.subrange(a, b));
    }
}

/// Whether the numeric fields of a header end in nuls, as those of a fresh header do.
pub open spec fn is_fresh(h: Seq<u8>) -> bool {
    &&& h.len() == 512
    &&& h[107] == 0 && h[115] == 0 && h[123] == 0 && h[135] == 0 && h[147] == 0
    &&& h[336] == 0 && h[344] == 0
}

/// Owner, group, time, mode and type are what was written; the rest is as it was.
proof fn lemma_attributes(h: Seq<u8>, mtime: u64, uid: u32, gid: u32, mode: u32, kind: EntryType)
    requires
        is_fresh(h),
    ensures
        ({
            let r = with_attributes(h, mtime, uid, gid, mode, kind);
            &&& is_fresh(r)
            &&& plain_number(r.subrange(100, 108)) is Some
            &&& plain_number(r.subrange(108, 116)) is Some
            &&& plain_number(r.subrange(116, 124)) is Some
            &&& plain_number(r.subrange(136, 148)) is Some
            &&& r[156] == kind.byte()
            &&& forall|a: int, b: int|
                0 <= a <= b <= 512 && (b <= 100 || 157 <= a) ==> #[trigger] r.subrange(a, b)
                    == h.subrange(a, b)
        }),
{
    let h1 = with_octal(h, 136, 148, mtime as int);
    let h2 = with_octal(h1, 108, 116, uid as int);
    let h3 = with_octal(h2, 116, 124, gid as int);
    let h4 = with_octal(h3, 100, 108, mode as int);
    let r = with_field(h4, 156, seq![kind.byte()]);
    lemma_octal_step(h, 136, 148, mtime as int);
    lemma_octal_step(h1, 108, 116, uid as int);
    lemma_octal_step(h2, 116, 124, gid as int);
    lemma_octal_step(h3, 100, 108, mode as int);
    lemma_type_step(h4, kind.byte());
    assert(r.subrange(156, 157)[0] == r[156]);
    lemma_octal_field_plain(h.subrange(136, 148), mtime as int);
    lemma_octal_field_plain(h.subrange(108, 116), uid as int);
    lemma_octal_field_plain(h.subrange(116, 124), gid as int);
    lemma_octal_field_plain(h.subrange(100, 108), mode as int);
    assert(r.subrange(136, 148) == h1.subrange(136, 148));
    assert(r.subrange(108, 116) == octal_field(h.subrange(108, 116), uid as int));
    assert(r.subrange(116, 124) == octal_field(h.subrange(116, 124), gid as int));
    assert(r.subrange(100, 108) == octal_field(h.subrange(100, 108), mode as int));
    assert(r.subrange(135, 136)[0] == r[135]);
    assert(h.subrange(135, 136)[0] == h[135]);
    assert(r.subrange(336, 337)[0] == r[336]);
    assert(h.subrange(336, 337)[0] == h[336]);
    assert(r.subrange(344, 345)[0] == r[344]);
    assert(h.subrange(344, 345)[0] == h[344]);
    assert(r[107] == r.subrange(100, 108)[7]);
    assert(r[115] == r.subrange(108, 116)[7]);
    assert(r[123] == r.subrange(116, 124)[7]);
    assert(r[147] == r.subrange(136, 148)[11]);
    assert forall|a: int, b: int| 0 <= a <= b <= 512 && (b <= 100 || 157 <= a) implies #[trigger] r.subrange(
        a,
        b,
    ) == h.subrange(a, b) by {
        assert(h4.subrange(a, b) == h3.subrange(a, b));
        assert(h3.subrange(a, b) == h2.subrange(a, b));
        assert(h2.subrange(a, b) == h1.subrange(a, b));
    }
}

/// The size is what was written, and the rest is as it was but for the device numbers.
proof fn lemma_size_no_device(h: Seq<u8>, size: u64)
    requires
        is_fresh(h),
    ensures
        ({
            let r = with_size_no_device(h, size);
            &&& is_fresh(r)
            &&& plain_number(r.subrange(124, 136)) == Some((size as int % pow(8, 11)) as u64)
            &&& 0 <= size as int % pow(8, 11) < pow(8, 11)
            &&& is_ustar(r) || is_gnu(r) ==> plain_number(r.subrange(329, 337)) is Some
                && plain_number(r.subrange(337, 345)) is Some
            &&& forall|a: int, b: int|
                0 <= a <= b <= 512 && (b <= 124 || 136 <= a) && (b <= 329 || 345 <= a)
                    ==> #[trigger] r.subrange(a, b) == h.subrange(a, b)
        }),
{
    let h1 = with_octal(h, 124, 136, size as int);
    lemma_octal_step(h, 124, 136, size as int);
    lemma_octal_field_plain(h.subrange(124, 136), size as int);
    lemma_pow_positive(8, 11);
    vstd::arithmetic::div_mod::lemma_mod_bound(size as int, pow(8, 11));
    let h2 = with_octal(h1, 329, 337, 0);
    let h3 = with_octal(h2, 337, 345, 0);
    lemma_octal_step(h1, 329, 337, 0);
    lemma_octal_step(h2, 337, 345, 0);
    let r = with_size_no_device(h, size);
    assert(h1.subrange(257, 265) == h.subrange(257, 265));
    assert(h3.subrange(257, 265) == h1.subrange(257, 265));
    assert(h1.subrange(329, 337) =~= h.subrange(329, 337));
    assert(h2.subrange(337, 345) == h.subrange(337, 345));
    lemma_octal_field_plain(h1.subrange(329, 337), 0);
    lemma_octal_field_plain(h2.subrange(337, 345), 0);
    assert(h3.subrange(329, 337) == h2.subrange(329, 337));
    assert(h3.subrange(124, 136) == h1.subrange(124, 136));
    assert forall|a: int, b: int|
        0 <= a <= b <= 512 && (b <= 124 || 136 <= a) && (b <= 329 || 345 <= a) implies #[trigger] r.subrange(
        a,
        b,
    ) == h.subrange(a, b) by {
        assert(h3.subrange(a, b) == h2.subrange(a, b));
        assert(h2.subrange(a, b) == h1.subrange(a, b));
        assert(h1.subrange(a, b) == h.subrange(a, b));
    }
    assert(r.subrange(100, 124) == h.subrange(100, 124));
    assert(r[107] == r.subrange(100, 124)[7] && h[107] == h.subrange(100, 124)[7]);
    assert(r[115] == r.subrange(100, 124)[15] && h[115] == h.subrange(100, 124)[15]);
    assert(r[123] == r.subrange(100, 124)[23] && h[123] == h.subrange(100, 124)[23]);
    assert(r[135] == r.subrange(124, 136)[11]);
    assert(r.subrange(136, 148) == h.subrange(136, 148));
    assert(r[147] == r.subrange(136, 148)[11] && h[147] == h.subrange(136, 148)[11]);
    assert(r[336] == 0) by {
        assert(h3[336] == h3.subrange(329, 337)[7]);
        assert(h1[336] == h1.subrange(329, 337)[7]);
        assert(h[336] == h.subrange(329, 337)[7]);
    }
    assert(r[344] == 0) by {
        assert(h3[344] == h3.subrange(337, 345)[7]);
        assert(h1.subrange(337, 345) == h.subrange(337, 345));
        assert(h1[344] == h1.subrange(337, 345)[7]);
        assert(h[344] == h.subrange(337, 345)[7]);
    }
}

/// A fresh header that is filled from metadata is ordinary once its checksum is filled in. It
/// keeps its path, its link name and its format, and states the size.
pub proof fn law_metadata_makes_ordinary(h: Seq<u8>, meta: Metadata, mode: HeaderMode)
    requires
        is_fresh(h),
    ensures
        ({
            let c = with_cksum(with_metadata(h, meta, mode));
            let size = if meta.file_type() == S_IFDIR {
                0
            } else {
                meta.len as int
            };
            &&& is_ordinary(c)
            &&& size < pow(8, 11) ==> ordinary(c).size == size
            &&& c.subrange(0, 100) == h.subrange(0, 100)
            &&& c.subrange(157, 329) == h.subrange(157, 329)
            &&& c.subrange(345, 512) == h.subrange(345, 512)
        }),
{
    let size = if meta.file_type() == S_IFDIR {
        0
    } else {
        meta.len
    };
    let kind = type_of_mode(meta.mode);
    let mid = match mode {
        HeaderMode::Complete => with_attributes(
            h,
            meta.mtime as u64,
            meta.uid,
            meta.gid,
            meta.mode,
            kind,
        ),
        HeaderMode::Deterministic => with_attributes(
            h,
            0,
            0,
            0,
            if meta.file_type() == S_IFDIR || meta.mode & 0o100 == 0o100 {
                0o755
            } else {
                0o644
            },
            kind,
        ),
    };
    match mode {
        HeaderMode::Complete => {
            lemma_attributes(h, meta.mtime as u64, meta.uid, meta.gid, meta.mode, kind);
        },
        HeaderMode::Deterministic => {
            lemma_attributes(
                h,
                0,
                0,
                0,
                if meta.file_type() == S_IFDIR || meta.mode & 0o100 == 0o100 {
                    0o755
                } else {
                    0o644
                },
                kind,
            );
        },
    }
    lemma_size_no_device(mid, size);
    let r = with_metadata(h, meta, mode);
    lemma_small_powers();
    assert(r.subrange(100, 108) == mid.subrange(100, 108));
    assert(r.subrange(108, 116) == mid.subrange(108, 116));
    assert(r.subrange(116, 124) == mid.subrange(116, 124));
    assert(r.subrange(136, 148) == mid.subrange(136, 148));
    assert(r.subrange(156, 157) == mid.subrange(156, 157));
    assert(r.subrange(156, 157)[0] == r[156]);
    assert(mid.subrange(156, 157)[0] == mid[156]);
    law_cksum_makes_ordinary(r);
    law_cksum_right(r);
    let c = with_cksum(r);
    assert(c.subrange(0, 100) == r.subrange(0, 100));
    assert(r.subrange(0, 100) == mid.subrange(0, 100));
    assert(c.subrange(157, 329) == r.subrange(157, 329));
    assert(r.subrange(157, 329) == mid.subrange(157, 329));
    assert(c.subrange(345, 512) == r.subrange(345, 512));
    assert(r.subrange(345, 512) == mid.subrange(345, 512));
    if size < pow(8, 11) {
        vstd::arithmetic::div_mod::lemma_small_mod(size as nat, pow(8, 11) as nat);
    }
}

/// An entry that was added with an ordinary header is read back, whatever follows it: its header,
/// its path, its link name, its data, and where the next entry stands.
pub proof fn law_entry_read_back(
    out: Seq<u8>,
    h: Seq<u8>,
    data: Seq<u8>,
    rest: Seq<u8>,
    options: Options,
)
    requires
        is_ordinary(h),
        ordinary(h).size == data.len(),
        appended(out, h, data).len() <= u64::MAX,
    ensures
        reads_back(
            appended(out, h, data) + rest,
            out.len() as int,
            options,
            h,
            header_path(h),
            header_link(h),
            data,
            appended(out, h, data).len() as int,
        ),
{
    let at = out.len() as int;
    assert(appended(out + (pax_record(None) + text_record(None, 76) + text_record(None, 75)), h, data)
        =~= appended(out, h, data));
    law_front_read_back(out, None, None, None, h, data, rest);
    lemma_described(ordinary(h), (at + 512) as u64, 512, options);
    lemma_one_run(data, rest_of(appended(out, h, data) + rest, at + 512));
}

pub(crate) proof fn lemma_one_run(data: Seq<u8>, source: Seq<u8>)
    requires
        data.len() <= u64::MAX,
    ensures
        data.len() <= source.len() ==> content(
            seq![EntryIo::Data(data.len() as u64)],
            source,
        ) == source.take(data.len() as int),
{
    let run = seq![EntryIo::Data(data.len() as u64)];
    assert(run.skip(1) =~= Seq::empty());
    if data.len() <= source.len() {
        assert(content(run.skip(1), source.skip(data.len() as int)) =~= Seq::empty());
        assert(source.take(data.len() as int) + Seq::<u8>::empty() =~= source.take(
            data.len() as int,
        ));
    }
}

/// Setting the path of a header that is not a UStar header changes nothing else.
proof fn lemma_fresh_with_path(h: Seq<u8>, path: Seq<u8>)
    requires
        is_fresh(h),
        is_gnu(h),
        !is_ustar(h),
    ensures
        is_fresh(header_path_stored(h, path).0),
        is_gnu(header_path_stored(h, path).0),
        !is_ustar(header_path_stored(h, path).0),
        header_path_stored(h, path).0[157] == h[157],
{
    lemma_path_stored_len(h.subrange(0, 100), path, false);
    let r = header_path_stored(h, path).0;
    assert(r.len() == 512);
    assert forall|k: int| 100 <= k < 512 implies r[k] == h[k] by {}
    assert(r.subrange(257, 265) =~= h.subrange(257, 265));
}

pub(crate) proof fn lemma_blank_gnu()
    ensures
        blank_gnu().len() == 512,
        is_gnu(blank_gnu()),
        !is_ustar(blank_gnu()),
        is_fresh(blank_gnu()),
        forall|k: int| 0 <= k < 257 || 265 <= k < 512 ==> #[trigger] blank_gnu()[k] == 0,
{
    let g = blank_gnu();
    assert(g.subrange(257, 265) =~= gnu_magic());
    assert(g.subrange(257, 265)[5] == 32);
    assert(ustar_magic()[5] == 0);
}

/// The header of a file that is added to an archive.
pub open spec fn file_header(path: Seq<u8>, meta: Metadata, mode: HeaderMode) -> Seq<u8> {
    with_cksum(with_metadata(prepared(Seq::empty(), blank_gnu(), path).header, meta, mode))
}

/// A file that was added under a path that a header can hold is read back, whatever follows it:
/// its header, its path in the spelling of archives, its data, and where the next entry stands.
///
/// The metadata must state the length of the data, and the size must have room in its field.
pub proof fn law_file_read_back(
    out: Seq<u8>,
    path: Seq<u8>,
    meta: Metadata,
    data: Seq<u8>,
    mode: HeaderMode,
    rest: Seq<u8>,
    options: Options,
)
    requires
        archive_path(path, false) is Ok,
        store_error(100, archive_path(path, false)->Ok_0) is None,
        data.len() == if meta.file_type() == S_IFDIR {
            0
        } else {
            meta.len as int
        },
        data.len() < 8589934592,
        file_added(out, path, meta, data, mode).0.len() <= u64::MAX,
    ensures
        file_added(out, path, meta, data, mode).1 is Ok,
        reads_back(
            file_added(out, path, meta, data, mode).0 + rest,
            out.len() as int,
            options,
            file_header(path, meta, mode),
            slashed(archive_path(path, false)->Ok_0),
            None,
            data,
            file_added(out, path, meta, data, mode).0.len() as int,
        ),
{
    let g = blank_gnu();
    lemma_blank_gnu();
    lemma_fresh_with_path(g, path);
    law_path_stored(g.subrange(0, 100), path, false);
    let h = header_path_stored(g, path).0;
    law_path_read_back(g, path);
    law_metadata_makes_ordinary(h, meta, mode);
    lemma_small_powers();
    let c = with_cksum(with_metadata(h, meta, mode));
    assert(c.subrange(157, 329).subrange(100, 108) =~= c.subrange(257, 265));
    assert(h.subrange(157, 329).subrange(100, 108) =~= h.subrange(257, 265));
    assert(c.subrange(345, 512).subrange(0, 155) =~= c.subrange(345, 500));
    assert(h.subrange(345, 512).subrange(0, 155) =~= h.subrange(345, 500));
    assert(header_path(c) == header_path(h));
    assert(c.subrange(157, 329)[0] == c[157] && h.subrange(157, 329)[0] == h[157]);
    law_entry_read_back(out, c, data, rest, options);
}

/// A file that was added under a path that a header cannot hold is read back with that very
/// path, whatever follows it.
///
/// Left out are paths that end in a nul, and paths that are longer than the parser allows.
pub proof fn law_long_file_read_back(
    out: Seq<u8>,
    path: Seq<u8>,
    meta: Metadata,
    data: Seq<u8>,
    mode: HeaderMode,
    rest: Seq<u8>,
    options: Options,
)
    requires
        header_path_stored(blank_gnu(), path).1 is Err,
        100 <= path.len() < 1048576,
        file_added(out, path, meta, data, mode).1 is Ok,
        path.last() != 0,
        data.len() == if meta.file_type() == S_IFDIR {
            0
        } else {
            meta.len as int
        },
        data.len() < 8589934592,
        file_added(out, path, meta, data, mode).0.len() <= u64::MAX,
    ensures
        reads_back(
            file_added(out, path, meta, data, mode).0 + rest,
            out.len() as int,
            options,
            file_header(path, meta, mode),
            slashed(path),
            None,
            data,
            file_added(out, path, meta, data, mode).0.len() as int,
        ),
{
    let g = blank_gnu();
    lemma_blank_gnu();
    lemma_fresh_with_path(g, path);
    let g1 = header_path_stored(g, path).0;
    lemma_fresh_with_path(g1, path.take(100));
    let h = header_path_stored(g1, path.take(100)).0;
    law_metadata_makes_ordinary(h, meta, mode);
    lemma_small_powers();
    let c = with_cksum(with_metadata(h, meta, mode));
    assert(!is_ustar(c)) by {
        assert(c.subrange(157, 329).subrange(100, 108) =~= c.subrange(257, 265));
        assert(h.subrange(157, 329).subrange(100, 108) =~= h.subrange(257, 265));
    }
    assert(c.subrange(157, 329)[0] == c[157] && h.subrange(157, 329)[0] == h[157]);
    lemma_long_entry(out, path, c, data, rest, options);
    assert(file_added(out, path, meta, data, mode).0 == appended(
        appended(out, long_header(path.len() + 1int, 76), path.push(0u8)),
        c,
        data,
    ));
}

/// An entry behind a long path is read back with that path.
proof fn lemma_long_entry(
    out: Seq<u8>,
    path: Seq<u8>,
    c: Seq<u8>,
    data: Seq<u8>,
    rest: Seq<u8>,
    options: Options,
)
    requires
        is_ordinary(c),
        !is_ustar(c),
        c[157] == 0,
        ordinary(c).size == data.len(),
        0 < path.len() < 1048576,
        path.last() != 0,
        appended(
            appended(out, long_header(path.len() + 1int, 76), path.push(0u8)),
            c,
            data,
        ).len() <= u64::MAX,
    ensures
        ({
            let added = appended(
                appended(out, long_header(path.len() + 1int, 76), path.push(0u8)),
                c,
                data,
            );
            reads_back(
                added + rest,
                out.len() as int,
                options,
                c,
                slashed(path),
                None,
                data,
                added.len() as int,
            )
        }),
{
    let added = appended(
        appended(out, long_header(path.len() + 1int, 76), path.push(0u8)),
        c,
        data,
    );
    let front = pax_record(None) + text_record(Some(path), 76) + text_record(None, 75);
    let at = (out.len() + front.len() + 512) as u64;
    assert(out + front =~= appended(out, long_header(path.len() + 1int, 76), path.push(0u8)));
    law_front_read_back(out, None, Some(path), None, c, data, rest);
    let f = Front {
        name: Some(path),
        bytes: pax_size(None) + text_size(Some(path)) + text_size(None),
        ..no_front()
    };
    lemma_described(completed(ordinary(c), f), at, front.len() + 512int, options);
    lemma_one_run(data, rest_of(added + rest, at as int));
}

/// A raw walk that stands at an entry whose header has the right checksum and states the length
/// of the data finds the entry, its header as it was written, its data, and where the next
/// entry stands.
pub proof fn law_raw_read_back(
    out: Seq<u8>,
    h: Seq<u8>,
    data: Seq<u8>,
    rest: Seq<u8>,
    walk: Walk,
)
    requires
        h.len() == 512,
        h != zeros(512),
        octal_u32(h.subrange(148, 156)) matches Ok(sum) && sum == checksum(h),
        octal(h.subrange(124, 136)) matches Ok(size) && size == data.len(),
        !walk.done,
        walk.raw,
        walk.next == out.len(),
        appended(out, h, data).len() <= u64::MAX,
    ensures
        ({
            let obj = appended(out, h, data) + rest;
            let (place, found) = look(obj, Place { walk, pos: out.len() as int });
            &&& found matches Found::Entry(e)
            &&& e.header == h
            &&& e.header_pos == out.len()
            &&& e.size == data.len()
            &&& content(e.data, rest_of(obj, place.pos)) == data
            &&& place.walk.next == appended(out, h, data).len()
            &&& !place.walk.done
        }),
{
    let obj = appended(out, h, data) + rest;
    let at = out.len() as int;
    assert(obj.subrange(at, at + 512) =~= h);
    let source = rest_of(obj, at + 512);
    lemma_one_run(data, source);
    if data.len() > 0 {
        assert(source.take(data.len() as int) =~= data);
    } else {
        assert(source.take(0) =~= data);
    }
}

/// Behind the last entry of a finished archive a walk comes to the end.
pub proof fn law_end_read_back(out: Seq<u8>, rest: Seq<u8>, at: Place)
    requires
        !at.walk.done,
        !at.walk.raw,
        !at.walk.seekable,
        !at.walk.options.ignore_zeros,
        at.walk.next == out.len(),
        0 <= at.pos <= at.walk.next,
        (out + zeros(1024) + rest).len() <= u64::MAX,
    ensures
        expected(out + zeros(1024) + rest, at) == Some(Found::End),
{
    let obj = out + zeros(1024) + rest;
    let n = out.len() as int;
    assert(obj.skip(n).take(512) =~= zeros(512));
    lemma_zeros_no_entry(obj.skip(n));
    assert(obj.subrange(n, n + 1024) =~= zeros(1024));
}

/// The runs of two lists give the bytes of the first and then those of the second.
pub proof fn lemma_content_append(a: Seq<EntryIo>, b: Seq<EntryIo>, source: Seq<u8>)
    ensures
        content(a + b, source) == content(a, source) + content(b, left_over(a, source)),
        left_over(a + b, source) == left_over(b, left_over(a, source)),
    decreases a.len(),
{
    if a.len() == 0 {
        assert(a + b =~= b);
        assert(content(a, source) + content(b, source) =~= content(b, source));
    } else {
        assert((a + b).skip(1) =~= a.skip(1) + b);
        match a[0] {
            EntryIo::Pad(n) => {
                lemma_content_append(a.skip(1), b, source);
                assert(content(a + b, source) =~= content(a, source) + content(
                    b,
                    left_over(a, source),
                ));
            },
            EntryIo::Data(n) => {
                let k = least(n as int, source.len() as int);
                lemma_content_append(a.skip(1), b, source.skip(k));
                assert(content(a + b, source) =~= content(a, source) + content(
                    b,
                    left_over(a, source),
                ));
            },
        }
    }
}

/// Blocks that were laid out have the length and use the bytes that are counted for them.
pub proof fn lemma_layout_content(map: Seq<(u64, u64)>, on_disk: int, source: Seq<u8>)
    requires
        layout(map, on_disk) is Ok,
        0 <= on_disk <= source.len(),
    ensures
        ({
            let all = layout(map, on_disk)->Ok_0;
            &&& content(all.data, source).len() == all.end
            &&& left_over(all.data, source) == source.skip(all.used)
            &&& 0 <= all.used <= on_disk
            &&& 0 <= all.end <= u64::MAX
        }),
    decreases map.len(),
{
    if map.len() == 0 {
        assert(source.skip(0) =~= source);
    } else {
        lemma_layout_content(map.drop_last(), on_disk, source);
        let before = layout(map.drop_last(), on_disk)->Ok_0;
        let (offset, length) = map.last();
        let gap = if before.end < offset {
            seq![EntryIo::Pad((offset - before.end) as u64)]
        } else {
            Seq::empty()
        };
        let run = seq![EntryIo::Data(length)];
        let left = source.skip(before.used);
        lemma_content_append(before.data, gap, source);
        lemma_content_append(before.data + gap, run, source);
        assert(content(gap, left).len() == offset - before.end && left_over(gap, left) == left) by {
            reveal_with_fuel(content, 2);
            reveal_with_fuel(left_over, 2);
            if before.end < offset {
                assert(gap.skip(1) =~= Seq::empty());
            }
        }
        assert(content(run, left).len() == length && left_over(run, left) == left.skip(
            length as int,
        )) by {
            reveal_with_fuel(content, 2);
            reveal_with_fuel(left_over, 2);
            assert(run.skip(1) =~= Seq::empty());
        }
        assert(left.skip(length as int) =~= source.skip(before.used + length));
    }
}

/// A sparse file that can be laid out is read with exactly its size, if the archive holds all
/// bytes that its header states.
pub proof fn law_sparse_size(
    map: Seq<(u64, u64)>,
    real_size: u64,
    on_disk: u64,
    source: Seq<u8>,
)
    requires
        sparse_runs(map, real_size, on_disk) is Ok,
        on_disk <= source.len(),
    ensures
        content(sparse_runs(map, real_size, on_disk)->Ok_0, source).len() == real_size,
{
    lemma_layout_content(map, on_disk as int, source);
}

} // verus!
