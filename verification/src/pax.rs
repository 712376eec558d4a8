//! Pax extension records: lines of a length, a key and a value.

pub use tar_core::{PAX_ATIME, PAX_CTIME, PAX_GID, PAX_GNAME, PAX_LINKPATH};
pub use tar_core::{PAX_MTIME, PAX_PATH, PAX_SIZE, PAX_UID, PAX_UNAME};

pub use tar_core::PAX_GNU_SPARSE as PAX_GNUSPARSE;
pub use tar_core::PAX_GNU_SPARSE_MAJOR as PAX_GNUSPARSEMAJOR;
pub use tar_core::PAX_GNU_SPARSE_MAP as PAX_GNUSPARSEMAP;
pub use tar_core::PAX_GNU_SPARSE_MINOR as PAX_GNUSPARSEMINOR;
pub use tar_core::PAX_GNU_SPARSE_NAME as PAX_GNUSPARSENAME;
pub use tar_core::PAX_GNU_SPARSE_NUMBLOCKS as PAX_GNUSPARSENUMBLOCKS;
pub use tar_core::PAX_GNU_SPARSE_NUMBYTES as PAX_GNUSPARSENUMBYTES;
pub use tar_core::PAX_GNU_SPARSE_OFFSET as PAX_GNUSPARSEOFFSET;
pub use tar_core::PAX_GNU_SPARSE_REALSIZE as PAX_GNUSPARSEREALSIZE;
pub use tar_core::PAX_GNU_SPARSE_SIZE as PAX_GNUSPARSESIZE;
pub use tar_core::PAX_SCHILY_XATTR as PAX_SCHILYXATTR;

use crate::bytes::{find, find_from, lemma_find_from, lemma_find_from_is};
use crate::error::TarError;
use crate::number::{digits_value, numeral_up_to, parse_numeral, utf8_text};
use crate::path::{extend, same_bytes};
use vstd::arithmetic::power::pow;
use vstd::prelude::*;
use vstd::slice::slice_subrange;
use vstd::utf8::{encode_utf8, valid_utf8};

verus! {

/// Indicates that no key is suitable.
pub const PAX_NONE: &'static str = "";

/// The character set.
pub const PAX_CHARSET: &'static str = "charset";

/// A comment.
pub const PAX_COMMENT: &'static str = "comment";

/// The key and the value on a line, or an error if the line is no record.
///
/// A record is a length, a space, a key, an equals sign and a value. The length counts the
/// whole line, the newline behind it too.
pub open spec fn parse_record(line: Seq<u8>) -> Result<(Seq<u8>, Seq<u8>), TarError> {
    let space = find_from(line, 32, 0);
    let equals = find_from(line, 61, space + 1);
    if space < line.len() && numeral_up_to(line.take(space), 10, usize::MAX as int) == Some(
        line.len() + 1int,
    ) && equals < line.len() {
        Ok((line.subrange(space + 1, equals), line.skip(equals + 1)))
    } else {
        Err(TarError::PaxMalformed)
    }
}

/// The line at the front of what is left, and what is left behind it.
pub open spec fn split_line(rest: Seq<u8>) -> (Seq<u8>, Option<Seq<u8>>) {
    let end = find_from(rest, 10, 0);
    (
        rest.take(end),
        if end < rest.len() {
            Some(rest.skip(end + 1))
        } else {
            None
        },
    )
}

/// The records up to the first empty line.
pub open spec fn records(rest: Option<Seq<u8>>) -> Seq<Result<(Seq<u8>, Seq<u8>), TarError>>
    decreases (match rest {
        Some(s) => s.len() + 1,
        None => 0,
    }),
{
    match rest {
        None => Seq::empty(),
        Some(s) => {
            let (line, left) = split_line(s);
            proof {
                lemma_find_from(s, 10, 0);
            }
            if line.len() == 0 {
                Seq::empty()
            } else {
                seq![parse_record(line)] + records(left)
            }
        },
    }
}

/// The number that the first record with the given key holds, if everything before it is
/// well-formed and it is a number.
pub open spec fn value_in(
    list: Seq<Result<(Seq<u8>, Seq<u8>), TarError>>,
    key: Seq<u8>,
) -> Option<u64>
    decreases list.len(),
{
    if list.len() == 0 {
        None
    } else {
        match list[0] {
            Err(_) => None,
            Ok((k, v)) => if k == key {
                match numeral_up_to(v, 10, u64::MAX as int) {
                    Some(n) => Some(n as u64),
                    None => None,
                }
            } else {
                value_in(list.skip(1), key)
            },
        }
    }
}

/// The records in the data of a pax entry, in order.
pub struct PaxExtensions<'entry> {
    rest: Option<&'entry [u8]>,
}

impl<'entry> View for PaxExtensions<'entry> {
    type V = Option<Seq<u8>>;

    /// What is left to be read, if anything.
    closed spec fn view(&self) -> Option<Seq<u8>> {
        match self.rest {
            Some(s) => Some(s@),
            None => None,
        }
    }
}

/// A key and a value.
pub struct PaxExtension<'entry> {
    key: &'entry [u8],
    value: &'entry [u8],
}

impl<'entry> View for PaxExtension<'entry> {
    type V = (Seq<u8>, Seq<u8>);

    closed spec fn view(&self) -> (Seq<u8>, Seq<u8>) {
        (self.key@, self.value@)
    }
}

/// Reads the key and the value on a line.
fn read_record<'entry>(line: &'entry [u8]) -> (r: Result<PaxExtension<'entry>, TarError>)
    ensures
        match r {
            Ok(e) => parse_record(line@) == Ok::<(Seq<u8>, Seq<u8>), TarError>(e@),
            Err(e) => parse_record(line@) == Err::<(Seq<u8>, Seq<u8>), TarError>(e),
        },
{
    let space: usize = find(line, 32, 0);
    let n: usize = line.len();
    if space >= n {
        return Err(TarError::PaxMalformed);
    }
    let length: &[u8] = slice_subrange(line, 0, space);
    assert(length@ =~= line@.take(space as int));
    match parse_numeral(length, 10) {
        Some(reported) => {
            if reported == 0 || reported > usize::MAX as u64 || reported - 1 != n as u64 {
                return Err(TarError::PaxMalformed);
            }
        },
        None => {
            return Err(TarError::PaxMalformed);
        },
    }
    let equals: usize = find(line, 61, space + 1);
    if equals >= n {
        return Err(TarError::PaxMalformed);
    }
    let key: &[u8] = slice_subrange(line, space + 1, equals);
    let value: &[u8] = slice_subrange(line, equals + 1, n);
    assert(value@ =~= line@.skip(equals + 1));
    Ok(PaxExtension { key, value })
}

impl<'entry> PaxExtensions<'entry> {
    /// Starts to read the records in the data of an entry.
    pub fn new(a: &'entry [u8]) -> (r: Self)
        ensures
            r@ == Some(a@),
    {
        PaxExtensions { rest: Some(a) }
    }

    /// Returns the next record.
    ///
    /// An empty line ends the records. A later call goes on behind it.
    pub fn next(&mut self) -> (r: Option<Result<PaxExtension<'entry>, TarError>>)
        ensures
            match old(self)@ {
                None => r is None && final(self)@ is None,
                Some(s) => {
                    let (line, left) = split_line(s);
                    &&& final(self)@ == left
                    &&& match r {
                        None => line.len() == 0,
                        Some(Ok(e)) => line.len() > 0 && parse_record(line) == Ok::<
                            (Seq<u8>, Seq<u8>),
                            TarError,
                        >(e@),
                        Some(Err(e)) => line.len() > 0 && parse_record(line) == Err::<
                            (Seq<u8>, Seq<u8>),
                            TarError,
                        >(e),
                    }
                },
            },
    {
        let s: &'entry [u8] = match self.rest {
            None => {
                return None;
            },
            Some(s) => s,
        };
        let end: usize = find(s, 10, 0);
        let line: &'entry [u8] = slice_subrange(s, 0, end);
        assert(line@ =~= s@.take(end as int));
        if end < s.len() {
            let left: &'entry [u8] = slice_subrange(s, end + 1, s.len());
            assert(left@ =~= s@.skip(end + 1));
            self.rest = Some(left);
        } else {
            self.rest = None;
        }
        if line.len() == 0 {
            None
        } else {
            Some(read_record(line))
        }
    }
}

impl<'entry> PaxExtension<'entry> {
    /// Returns the key as text.
    pub fn key(&self) -> (r: Result<&'entry str, TarError>)
        ensures
            if valid_utf8(self@.0) {
                r matches Ok(s) && encode_utf8(s@) == self@.0
            } else {
                r == Err::<&'entry str, TarError>(TarError::TextNotUtf8)
            },
    {
        match utf8_text(self.key) {
            Some(s) => Ok(s),
            None => Err(TarError::TextNotUtf8),
        }
    }

    /// Returns the bytes of the key.
    pub fn key_bytes(&self) -> (r: &'entry [u8])
        ensures
            r@ == self@.0,
    {
        self.key
    }

    /// Returns the value as text.
    pub fn value(&self) -> (r: Result<&'entry str, TarError>)
        ensures
            if valid_utf8(self@.1) {
                r matches Ok(s) && encode_utf8(s@) == self@.1
            } else {
                r == Err::<&'entry str, TarError>(TarError::TextNotUtf8)
            },
    {
        match utf8_text(self.value) {
            Some(s) => Ok(s),
            None => Err(TarError::TextNotUtf8),
        }
    }

    /// Returns the bytes of the value.
    pub fn value_bytes(&self) -> (r: &'entry [u8])
        ensures
            r@ == self@.1,
    {
        self.value
    }
}

/// Finds the number that the first record with the given key holds.
///
/// Returns `None` if a line before that record is malformed, if the records end before it, or
/// if its value is no number.
pub fn pax_extensions_value(a: &[u8], key: &str) -> (r: Option<u64>)
    ensures
        r == value_in(records(Some(a@)), encode_utf8(key@)),
{
    let mut list: PaxExtensions<'_> = PaxExtensions::new(a);
    let ghost wanted = encode_utf8(key@);
    loop
        invariant
            wanted == encode_utf8(key@),
            value_in(records(list@), wanted) == value_in(records(Some(a@)), wanted),
        decreases (match list@ {
            Some(s) => s.len() + 1,
            None => 0,
        }),
    {
        let ghost before = list@;
        match list.next() {
            None => {
                return None;
            },
            Some(Err(_)) => {
                assert(records(before)[0] is Err);
                return None;
            },
            Some(Ok(extension)) => {
                assert(records(before)[0] == Ok::<(Seq<u8>, Seq<u8>), TarError>(extension@));
                if same_bytes(extension.key_bytes(), key.as_bytes()) {
                    return parse_numeral(extension.value_bytes(), 10);
                }
                assert(records(before).skip(1) =~= records(list@));
                proof {
                    lemma_find_from(before->Some_0, 10, 0);
                }
            },
        }
    }
}

/// The decimal digits of a number.
pub open spec fn decimal(n: int) -> Seq<u8>
    decreases n,
{
    if n < 10 {
        seq![(48 + n) as u8]
    } else {
        decimal(n / 10).push((48 + n % 10) as u8)
    }
}

/// How many digits the length of a record has, if it is `rest` without them and has at
/// least `d`.
pub open spec fn length_digits(rest: int, d: nat) -> nat
    decreases 64 - d,
{
    if rest + d < pow(10, d) || d >= 64 {
        d
    } else {
        length_digits(rest, d + 1)
    }
}

/// The length of a record that has `rest` bytes besides the digits of its length.
pub open spec fn record_length(rest: int) -> int {
    rest + length_digits(rest, 1)
}

/// The record of a key and a value.
pub open spec fn record(key: Seq<u8>, value: Seq<u8>) -> Seq<u8> {
    decimal(record_length((3 + key.len() + value.len()) as int)).push(32u8) + key.push(61u8)
        + value.push(10u8)
}

/// Appends the decimal digits of a number.
fn push_decimal(data: &mut Vec<u8>, n: u128)
    ensures
        final(data)@ == old(data)@ + decimal(n as int),
    decreases n,
{
    let ghost before = data@;
    if n >= 10 {
        push_decimal(data, n / 10);
    }
    data.push(48 + (n % 10) as u8);
    assert(data@ =~= before + decimal(n as int));
}

/// Computes the length of a record that has `rest` bytes besides the digits of its length.
fn compute_record_length(rest: u128) -> (r: u128)
    requires
        rest <= 3 * 0x1_0000_0000_0000_0000,
    ensures
        r == record_length(rest as int),
{
    let mut digits: u128 = 1;
    let mut limit: u128 = 10;
    proof {
        lemma_powers();
    }
    while rest + digits >= limit
        invariant
            1 <= digits <= 21,
            limit == pow(10, digits as nat),
            limit <= 1_000_000_000_000_000_000_000,
            length_digits(rest as int, 1) == length_digits(rest as int, digits as nat),
            rest <= 3 * 0x1_0000_0000_0000_0000,
            digits == 21 ==> limit == 1_000_000_000_000_000_000_000,
        decreases 30 - digits,
    {
        proof {
            reveal(pow);
            lemma_powers();
            lemma_pow_monotone(digits as nat);
        }
        digits = digits + 1;
        limit = limit * 10;
    }
    rest + digits
}

proof fn lemma_powers()
    ensures
        pow(10, 1) == 10,
        pow(10, 20) == 100_000_000_000_000_000_000,
        pow(10, 21) == 1_000_000_000_000_000_000_000,
{
    reveal_with_fuel(pow, 22);
}

proof fn lemma_pow_monotone(d: nat)
    requires
        d < 21,
    ensures
        pow(10, d + 1) <= pow(10, 21),
    decreases 21 - d,
{
    reveal(pow);
    if d + 1 < 21 {
        lemma_pow_monotone(d + 1);
        vstd::arithmetic::power::lemma_pow_positive(10, d + 1);
    }
}

/// Appends the record of a key and a value.
pub fn push_record(data: &mut Vec<u8>, key: &str, value: &[u8])
    ensures
        final(data)@ == old(data)@ + record(encode_utf8(key@), value@),
{
    let ghost before = data@;
    let bytes: &[u8] = key.as_bytes();
    let rest: u128 = 3 + bytes.len() as u128 + value.len() as u128;
    let length: u128 = compute_record_length(rest);
    push_decimal(data, length);
    data.push(32);
    extend(data, bytes);
    data.push(61);
    extend(data, value);
    data.push(10);
    assert(data@ =~= before + record(bytes@, value@));
}

proof fn lemma_decimal(n: int)
    requires
        0 <= n,
    ensures
        decimal(n).len() > 0,
        forall|k: int| 0 <= k < decimal(n).len() ==> 48 <= #[trigger] decimal(n)[k] < 58,
        digits_value(decimal(n), 10) == Some(n),
    decreases n,
{
    reveal_with_fuel(digits_value, 2);
    if n >= 10 {
        lemma_decimal(n / 10);
        assert(decimal(n).drop_last() =~= decimal(n / 10));
    } else {
        assert(decimal(n).drop_last() =~= Seq::empty());
    }
}

proof fn lemma_decimal_len(n: int, d: nat)
    requires
        0 <= n < pow(10, d),
        d >= 1,
        d > 1 ==> n >= pow(10, (d - 1) as nat),
    ensures
        decimal(n).len() == d,
    decreases d,
{
    reveal(pow);
    assert(pow(10, 0) == 1);
    assert(pow(10, 1) == 10) by {
        reveal_with_fuel(pow, 2);
    }
    if d > 1 {
        vstd::arithmetic::power::lemma_pow_positive(10, (d - 2) as nat);
        lemma_decimal_len(n / 10, (d - 1) as nat);
    }
}

proof fn lemma_length_digits(rest: int, d: nat)
    requires
        0 <= rest < pow(10, 22),
        1 <= d <= 23,
        d > 1 ==> rest + d - 1 >= pow(10, (d - 1) as nat),
    ensures
        ({
            let e = length_digits(rest, d);
            d <= e <= 23 && rest + e < pow(10, e) && (e > 1 ==> rest + e - 1 >= pow(
                10,
                (e - 1) as nat,
            ))
        }),
    decreases 23 - d,
{
    if rest + d >= pow(10, d) {
        if d == 23 {
            assert(pow(10, 23) == 10 * pow(10, 22)) by {
                reveal(pow);
            }
            assert(pow(10, 22) == 10_000_000_000_000_000_000_000) by {
                reveal_with_fuel(pow, 23);
            }
        } else {
            lemma_length_digits(rest, d + 1);
        }
    }
}

/// A record is read back as the key and the value that it was made of, whatever follows it.
///
/// The key must hold neither an equals sign nor a newline, and the value no newline.
pub proof fn law_record_read_back(key: Seq<u8>, value: Seq<u8>, rest: Seq<u8>)
    requires
        !key.contains(61u8),
        !key.contains(10u8),
        !value.contains(10u8),
        record(key, value).len() <= usize::MAX,
    ensures
        record(key, value).len() == record_length((3 + key.len() + value.len()) as int),
        split_line(record(key, value) + rest) == (record(key, value).drop_last(), Some(rest)),
        parse_record(record(key, value).drop_last()) == Ok::<(Seq<u8>, Seq<u8>), TarError>(
            (key, value),
        ),
{
    let left = (3 + key.len() + value.len()) as int;
    let length = record_length(left);
    let digits = decimal(length);
    let all = record(key, value);
    let line = all.drop_last();
    assert(pow(10, 22) == 10_000_000_000_000_000_000_000) by {
        reveal_with_fuel(pow, 23);
    }
    lemma_length_digits(left, 1);
    lemma_decimal(length);
    lemma_decimal_len(length, length_digits(left, 1));
    assert(all.len() == length);
    let d = digits.len() as int;
    let equals = d + 1 + key.len();
    assert(line.len() == length - 1);
    assert forall|k: int| 0 <= k < d implies line[k] == digits[k] by {}
    lemma_find_from_is(line, 32, 0, d);
    assert forall|k: int| d + 1 <= k < equals implies line[k] != 61 by {
        assert(line[k] == key[k - d - 1]);
        assert(key.contains(key[k - d - 1]));
    }
    lemma_find_from_is(line, 61, d + 1, equals);
    assert(line.take(d) =~= digits);
    assert(digits[0] != 43);
    assert(line.subrange(d + 1, equals) =~= key);
    assert(line.skip(equals + 1) =~= value);
    let text = all + rest;
    assert forall|k: int| 0 <= k < length - 1 implies text[k] != 10 by {
        if k < d {
            assert(text[k] == digits[k]);
        } else if d < k < equals {
            assert(text[k] == key[k - d - 1]);
            assert(key.contains(key[k - d - 1]));
        } else if k > equals {
            assert(text[k] == value[k - equals - 1]);
            assert(value.contains(value[k - equals - 1]));
        }
    }
    lemma_find_from_is(text, 10, 0, length - 1);
    assert(text.take(length - 1) =~= line);
    assert(text.skip(length) =~= rest);
}

/// The records of some keys and values, one behind the other.
pub open spec fn all_records(list: Seq<(Seq<u8>, Seq<u8>)>) -> Seq<u8>
    decreases list.len(),
{
    if list.len() == 0 {
        Seq::empty()
    } else {
        all_records(list.drop_last()) + record(list.last().0, list.last().1)
    }
}

/// The first record of several stands before the others.
pub proof fn lemma_all_records_front(list: Seq<(Seq<u8>, Seq<u8>)>)
    requires
        list.len() > 0,
    ensures
        all_records(list) == record(list[0].0, list[0].1) + all_records(list.skip(1)),
    decreases list.len(),
{
    reveal_with_fuel(all_records, 2);
    if list.len() == 1 {
        assert(list.drop_last() =~= Seq::empty());
        assert(list.skip(1) =~= Seq::empty());
        assert(all_records(list) =~= record(list[0].0, list[0].1) + all_records(list.skip(1)));
    } else {
        lemma_all_records_front(list.drop_last());
        assert(list.drop_last().skip(1) =~= list.skip(1).drop_last());
        assert(list.drop_last()[0] == list[0]);
        assert(all_records(list) =~= record(list[0].0, list[0].1) + all_records(list.skip(1)));
    }
}

/// What was written as records is read back, in order and without an error.
///
/// No key may hold an equals sign or a newline, and no value a newline.
pub proof fn law_records_read_back(list: Seq<(Seq<u8>, Seq<u8>)>)
    requires
        forall|k: int|
            0 <= k < list.len() ==> !(#[trigger] list[k]).0.contains(61u8) && !list[k].0.contains(
                10u8,
            ) && !list[k].1.contains(10u8),
        all_records(list).len() <= usize::MAX,
    ensures
        records(Some(all_records(list))) == list.map_values(
            |kv: (Seq<u8>, Seq<u8>)| Ok::<(Seq<u8>, Seq<u8>), TarError>(kv),
        ),
    decreases list.len(),
{
    let f = |kv: (Seq<u8>, Seq<u8>)| Ok::<(Seq<u8>, Seq<u8>), TarError>(kv);
    let text = all_records(list);
    if list.len() == 0 {
        assert(find_from(text, 10, 0) == 0);
        assert(split_line(text).0.len() == 0);
        assert(records(Some(text)) =~= list.map_values(f));
    } else {
        lemma_all_records_front(list);
        let rest = list.skip(1);
        assert forall|k: int| 0 <= k < rest.len() implies !(#[trigger] rest[k]).0.contains(61u8)
            && !rest[k].0.contains(10u8) && !rest[k].1.contains(10u8) by {
            assert(rest[k] == list[k + 1]);
        }
        law_records_read_back(rest);
        assert(!list[0].0.contains(61u8));
        law_record_read_back(list[0].0, list[0].1, all_records(rest));
        assert(records(Some(text)) == seq![f(list[0])] + records(Some(all_records(rest))));
        assert(records(Some(text)) =~= list.map_values(f));
    }
}

} // verus!
