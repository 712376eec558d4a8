//! The different ways in which names, checksums and values are written agree.

use crate::block_writer::{needed_for, Needed};
use crate::builder::{appended, prepared};
use crate::bytes::{find_from, lemma_find_from, stored_at, truncated, with_field};
use crate::error::TarError;
use crate::header::{
    blank, byte_sum, checksum, header_path_stored, is_ustar, without_cksum,
};
use crate::number::numeral;
use crate::number_laws::{are_digits, law_numeral, weighed};
use crate::pax::{
    all_records, law_record_read_back, law_records_read_back, lemma_all_records_front, parse_record,
    record, records, split_line, value_in,
};
use crate::stored_path::{
    archive_path, law_path_stored, lemma_path_stored_len, lemma_stored_text, path_stored,
};
use crate::stream_append::{path_extended, text_length};
use crate::tempdir::leaf;
use vstd::prelude::*;
use vstd::utf8::valid_utf8;

verus! {

/// The length that is found is that of text, and no longer start is text.
pub proof fn law_text_length(b: Seq<u8>, n: int)
    requires
        0 <= n <= b.len(),
    ensures
        0 <= text_length(b, n) <= n,
        text_length(b, n) == 0 || valid_utf8(b.take(text_length(b, n))),
        forall|k: int| text_length(b, n) < k <= n ==> !valid_utf8(#[trigger] b.take(k)),
    decreases n,
{
    if n > 0 && !valid_utf8(b.take(n)) {
        law_text_length(b, n - 1);
    }
}

/// Headers that are written piece by piece are those that are written at once: the same paths are
/// refused, the header of the entry is the same, and a long path stands in a record before it.
pub proof fn law_needed_as_built(out: Seq<u8>, h: Seq<u8>, path: Seq<u8>)
    ensures
        ({
            let p = prepared(out, h, path);
            match needed_for(h, path) {
                Err(e) => p.result == Err::<(), TarError>(e),
                Ok(Needed::One(own)) => p.result is Ok && p.header == own && p.out == out,
                Ok(Needed::Two(record, own)) => p.result is Ok && p.header == own && p.out
                    == appended(out, record, path.push(0u8)),
            }
        }),
{
}

/// A path that is added to a streamed archive has the same header and the same record before it as
/// one that is added to any other, if the start that the header can hold is text.
pub proof fn law_streamed_path_as_built(out: Seq<u8>, h: Seq<u8>, path: Seq<u8>)
    requires
        path.len() >= 100 ==> valid_utf8(path.take(100)),
        path.len() < u64::MAX,
    ensures
        ({
            let p = prepared(out, h, path);
            let x = path_extended(h, path);
            &&& x.result == p.result
            &&& x.header == p.header
            &&& x.result is Ok ==> out + x.record == p.out
        }),
{
    let p = prepared(out, h, path);
    let x = path_extended(h, path);
    if x.result is Ok {
        assert(out + x.record =~= p.out);
    }
}

proof fn lemma_value(list: Seq<(Seq<u8>, Seq<u8>)>, key: Seq<u8>, n: int)
    requires
        0 <= n < list.len(),
        list[n].0 == key,
        forall|k: int| 0 <= k < n ==> (#[trigger] list[k]).0 != key,
        list[n].1.len() > 0,
        are_digits(list[n].1, 10),
        0 <= weighed(list[n].1, 10) <= u64::MAX,
    ensures
        value_in(
            list.map_values(|kv: (Seq<u8>, Seq<u8>)| Ok::<(Seq<u8>, Seq<u8>), TarError>(kv)),
            key,
        ) == Some(weighed(list[n].1, 10) as u64),
    decreases list.len(),
{
    let f = |kv: (Seq<u8>, Seq<u8>)| Ok::<(Seq<u8>, Seq<u8>), TarError>(kv);
    assert(list.map_values(f)[0] == f(list[0]));
    if n == 0 {
        law_numeral(list[0].1, 10);
    } else {
        let rest = list.skip(1);
        assert(rest[n - 1] == list[n]);
        assert forall|k: int| 0 <= k < n - 1 implies (#[trigger] rest[k]).0 != key by {
            assert(rest[k] == list[k + 1]);
        }
        lemma_value(rest, key, n - 1);
        assert(list.map_values(f).skip(1) =~= rest.map_values(f));
        assert(list[0].0 != key);
    }
}

proof fn lemma_no_value(list: Seq<(Seq<u8>, Seq<u8>)>, key: Seq<u8>)
    requires
        forall|k: int| 0 <= k < list.len() ==> (#[trigger] list[k]).0 != key,
    ensures
        value_in(
            list.map_values(|kv: (Seq<u8>, Seq<u8>)| Ok::<(Seq<u8>, Seq<u8>), TarError>(kv)),
            key,
        ) is None,
    decreases list.len(),
{
    let f = |kv: (Seq<u8>, Seq<u8>)| Ok::<(Seq<u8>, Seq<u8>), TarError>(kv);
    if list.len() > 0 {
        let rest = list.skip(1);
        assert forall|k: int| 0 <= k < rest.len() implies (#[trigger] rest[k]).0 != key by {
            assert(rest[k] == list[k + 1]);
        }
        lemma_no_value(rest, key);
        assert(list.map_values(f).skip(1) =~= rest.map_values(f));
        assert(list.map_values(f)[0] == f(list[0]));
        assert(list[0].0 != key);
    }
}

/// A number that was written as a pax record is found by its key: the first one with that key. None
/// is found if no record has the key.
pub proof fn law_value_found(list: Seq<(Seq<u8>, Seq<u8>)>, key: Seq<u8>, n: int)
    requires
        forall|k: int|
            0 <= k < list.len() ==> !(#[trigger] list[k]).0.contains(61u8) && !list[k].0.contains(
                10u8,
            ) && !list[k].1.contains(10u8),
        all_records(list).len() <= usize::MAX,
    ensures
        0 <= n < list.len() && list[n].0 == key && (forall|k: int|
            0 <= k < n ==> (#[trigger] list[k]).0 != key) && list[n].1.len() > 0 && are_digits(
            list[n].1,
            10,
        ) && 0 <= weighed(list[n].1, 10) <= u64::MAX ==> value_in(
            records(Some(all_records(list))),
            key,
        ) == Some(weighed(list[n].1, 10) as u64),
        (forall|k: int| 0 <= k < list.len() ==> (#[trigger] list[k]).0 != key) ==> value_in(
            records(Some(all_records(list))),
            key,
        ) is None,
{
    law_records_read_back(list);
    if forall|k: int| 0 <= k < list.len() ==> (#[trigger] list[k]).0 != key {
        lemma_no_value(list, key);
    } else if 0 <= n < list.len() && list[n].0 == key && (forall|k: int|
        0 <= k < n ==> (#[trigger] list[k]).0 != key) && list[n].1.len() > 0 && are_digits(
        list[n].1,
        10,
    ) && 0 <= weighed(list[n].1, 10) <= u64::MAX {
        lemma_value(list, key, n);
    }
}

/// The name of a temporary directory ends in its random part. In front of that stand the prefix and
/// a dot, if there is a prefix; without one nothing does, so that the name starts with no dot.
pub proof fn law_leaf(prefix: Seq<u8>, suffix: Seq<u8>)
    ensures
        prefix.len() == 0 ==> leaf(prefix, suffix) == suffix,
        prefix.len() > 0 ==> leaf(prefix, suffix) == prefix + seq![46u8] + suffix,
{
    assert(prefix.push(46u8) + suffix =~= prefix + seq![46u8] + suffix);
}

proof fn lemma_sum_update(s: Seq<u8>, k: int, b: u8)
    requires
        0 <= k < s.len(),
    ensures
        byte_sum(s.update(k, b)) == byte_sum(s) - s[k] + b,
    decreases s.len(),
{
    let t = s.update(k, b);
    let n = s.len() - 1;
    if k < n {
        lemma_sum_update(s.drop_last(), k, b);
        assert(t.drop_last() =~= s.drop_last().update(k, b));
    } else {
        assert(t.drop_last() =~= s.drop_last());
    }
}

proof fn lemma_sum_zeros(s: Seq<u8>)
    requires
        forall|k: int| 0 <= k < s.len() ==> #[trigger] s[k] == 0,
    ensures
        byte_sum(s) == 0,
    decreases s.len(),
{
    if s.len() > 0 {
        assert(s[s.len() - 1] == 0);
        lemma_sum_zeros(s.drop_last());
    }
}

/// Every byte of a header counts in its checksum, but for those of the checksum itself, which count
/// as blanks: a byte that grows makes the checksum grow by as much.
pub proof fn law_checksum_counts(h: Seq<u8>, k: int, b: u8)
    requires
        h.len() == 512,
        0 <= k < 512,
    ensures
        k < 148 || 156 <= k ==> checksum(h.update(k, b)) == checksum(h) - h[k] + b,
        148 <= k < 156 ==> checksum(h.update(k, b)) == checksum(h),
{
    let field = Seq::new(8, |k: int| 32u8);
    if 148 <= k < 156 {
        assert(with_field(h.update(k, b), 148, field) =~= with_field(h, 148, field));
    } else {
        assert(with_field(h.update(k, b), 148, field) =~= with_field(h, 148, field).update(k, b));
        lemma_sum_update(without_cksum(h), k, b);
    }
}

/// The checksum of a blank header is that of eight blanks.
pub proof fn law_checksum_blank()
    ensures
        checksum(blank()) == 8 * 32,
{
    let s = blank();
    lemma_sum_zeros(s);
    let all = without_cksum(blank());
    let s1 = s.update(148, 32);
    let s2 = s1.update(149, 32);
    let s3 = s2.update(150, 32);
    let s4 = s3.update(151, 32);
    let s5 = s4.update(152, 32);
    let s6 = s5.update(153, 32);
    let s7 = s6.update(154, 32);
    let s8 = s7.update(155, 32);
    lemma_sum_update(s, 148, 32);
    lemma_sum_update(s1, 149, 32);
    lemma_sum_update(s2, 150, 32);
    lemma_sum_update(s3, 151, 32);
    lemma_sum_update(s4, 152, 32);
    lemma_sum_update(s5, 153, 32);
    lemma_sum_update(s6, 154, 32);
    lemma_sum_update(s7, 155, 32);
    assert(all =~= s8);
}

/// Only a line that is made of its own length, a blank, a key, an equals sign and a value is a
/// record: the length counts the line and the newline behind it, and the key holds no equals sign.
pub proof fn law_record_shape(line: Seq<u8>)
    ensures
        parse_record(line) is Err ==> parse_record(line) == Err::<(Seq<u8>, Seq<u8>), TarError>(
            TarError::PaxMalformed,
        ),
        parse_record(line) matches Ok((key, value)) ==> {
            &&& !key.contains(61u8)
            &&& exists|digits: Seq<u8>|
                #![trigger digits.len()]
                line == digits + seq![32u8] + key + seq![61u8] + value && !digits.contains(32u8)
                    && numeral(digits, 10) == Some(line.len() + 1int)
        },
{
    let space = find_from(line, 32, 0);
    let equals = find_from(line, 61, space + 1);
    lemma_find_from(line, 32, 0);
    if let Ok((key, value)) = parse_record(line) {
        lemma_find_from(line, 61, space + 1);
        let digits = line.take(space);
        assert(line =~= digits + seq![32u8] + key + seq![61u8] + value);
        if key.contains(61u8) {
            let k = choose|k: int| 0 <= k < key.len() && key[k] == 61;
            assert(line[space + 1 + k] == 61);
        }
        if digits.contains(32u8) {
            let k = choose|k: int| 0 <= k < digits.len() && digits[k] == 32;
            assert(line[k] == 32);
        }
        assert(digits.len() == space);
    }
}

/// Behind a line that is no record no number is found any more.
pub proof fn law_no_value_behind_error(
    list: Seq<Result<(Seq<u8>, Seq<u8>), TarError>>,
    key: Seq<u8>,
    n: int,
)
    requires
        0 <= n < list.len(),
        list[n] is Err,
        forall|k: int|
            0 <= k < n ==> (#[trigger] list[k] matches Ok((other, _)) && other != key),
    ensures
        value_in(list, key) is None,
    decreases list.len(),
{
    if n > 0 {
        let rest = list.skip(1);
        assert(rest[n - 1] == list[n]);
        assert(list[0] is Ok);
        assert forall|k: int| 0 <= k < n - 1 implies (#[trigger] rest[k] matches Ok((other, _))
            && other != key) by {
            assert(rest[k] == list[k + 1]);
        }
        law_no_value_behind_error(rest, key, n - 1);
    }
}

/// Records are read up to the first empty line, and what follows it is not.
pub proof fn law_records_end(list: Seq<(Seq<u8>, Seq<u8>)>, rest: Seq<u8>)
    requires
        forall|k: int|
            0 <= k < list.len() ==> !(#[trigger] list[k]).0.contains(61u8) && !list[k].0.contains(
                10u8,
            ) && !list[k].1.contains(10u8),
        all_records(list).len() <= usize::MAX,
    ensures
        records(Some(all_records(list) + seq![10u8] + rest)) == list.map_values(
            |kv: (Seq<u8>, Seq<u8>)| Ok::<(Seq<u8>, Seq<u8>), TarError>(kv),
        ),
    decreases list.len(),
{
    let f = |kv: (Seq<u8>, Seq<u8>)| Ok::<(Seq<u8>, Seq<u8>), TarError>(kv);
    let tail = seq![10u8] + rest;
    let text = all_records(list) + seq![10u8] + rest;
    assert(text =~= all_records(list) + tail);
    if list.len() == 0 {
        assert(text =~= tail);
        assert(find_from(text, 10, 0) == 0);
        assert(split_line(text).0.len() == 0);
        assert(records(Some(text)) =~= list.map_values(f));
    } else {
        lemma_all_records_front(list);
        let more = list.skip(1);
        assert forall|k: int| 0 <= k < more.len() implies !(#[trigger] more[k]).0.contains(61u8)
            && !more[k].0.contains(10u8) && !more[k].1.contains(10u8) by {
            assert(more[k] == list[k + 1]);
        }
        law_records_end(more, rest);
        let behind = all_records(more) + seq![10u8] + rest;
        assert(!list[0].0.contains(61u8));
        law_record_read_back(list[0].0, list[0].1, behind);
        assert(text =~= record(list[0].0, list[0].1) + behind);
        assert(records(Some(text)) == seq![f(list[0])] + records(Some(behind)));
        assert(records(Some(text)) =~= list.map_values(f));
    }
}

/// A header before a record that holds a long path holds the start of that path, as it is spelled in
/// an archive.
pub proof fn law_long_path_start(out: Seq<u8>, h: Seq<u8>, path: Seq<u8>)
    requires
        h.len() == 512,
        !is_ustar(h),
        path.len() >= 100,
        header_path_stored(h, path).1 is Err,
        path.len() < u64::MAX,
        prepared(out, h, path).result is Ok,
    ensures
        archive_path(path.take(100), false) is Ok,
        truncated(prepared(out, h, path).header.subrange(0, 100)) == archive_path(
            path.take(100),
            false,
        )->Ok_0,
        prepared(out, h, path).header.skip(100) == h.skip(100),
{
    let old = h.subrange(0, 100);
    let first = path_stored(old, path, false).0;
    lemma_path_stored_len(old, path, false);
    let h1 = with_field(h, 0, first);
    assert(h1.subrange(257, 265) =~= h.subrange(257, 265));
    let name = h1.subrange(0, 100);
    law_path_stored(name, path.take(100), false);
    lemma_path_stored_len(name, path.take(100), false);
    let text = archive_path(path.take(100), false)->Ok_0;
    lemma_stored_text(name, text);
    let r = prepared(out, h, path).header;
    assert(r.subrange(0, 100) =~= stored_at(name, 0, text));
    assert(r.skip(100) =~= h.skip(100));
}

} // verus!
