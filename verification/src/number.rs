//! Numbers in text: octal header fields and decimal record fields.

use crate::bytes::{lemma_find_from_is, truncate, truncated};
use crate::error::TarError;
use vstd::arithmetic::power::pow;
use vstd::prelude::*;
use vstd::string::StrSliceExecFns;
use vstd::utf8::{
    decode_utf8, encode_utf8, encode_utf8_decode_utf8, encode_utf8_valid_utf8, is_ascii_chars,
    is_ascii_chars_encode_utf8, valid_utf8,
};

verus! {

/// The value of an ASCII digit below `radix`.
pub open spec fn digit_value(b: u8, radix: int) -> Option<int> {
    if 48 <= b < 58 && b - 48 < radix {
        Some(b - 48)
    } else {
        None
    }
}

/// The value of a run of digits, most significant first.
pub open spec fn digits_value(s: Seq<u8>, radix: int) -> Option<int>
    decreases s.len(),
{
    if s.len() == 0 {
        Some(0)
    } else {
        match (digits_value(s.drop_last(), radix), digit_value(s.last(), radix)) {
            (Some(v), Some(d)) => Some(v * radix + d),
            _ => None,
        }
    }
}

/// The value of a numeral: an optional `+`, then at least one digit.
pub open spec fn numeral(s: Seq<u8>, radix: int) -> Option<int> {
    let digits = if s.len() > 0 && s[0] == 43 {
        s.skip(1)
    } else {
        s
    };
    if digits.len() == 0 {
        None
    } else {
        digits_value(digits, radix)
    }
}

/// The value of a numeral that is at most `max`.
pub open spec fn numeral_up_to(s: Seq<u8>, radix: int, max: int) -> Option<int> {
    match numeral(s, radix) {
        Some(v) => if v <= max {
            Some(v)
        } else {
            None
        },
        None => None,
    }
}

/// A longer run of digits has no smaller value, and is no number if its start is none.
proof fn lemma_digits_prefix(s: Seq<u8>, n: int, radix: int)
    requires
        0 <= n <= s.len(),
        1 <= radix,
    ensures
        digits_value(s.take(n), radix) is None ==> digits_value(s, radix) is None,
        digits_value(s, radix) matches Some(v) ==> digits_value(s.take(n), radix) matches Some(w)
            && 0 <= w <= v,
    decreases s.len(),
{
    if n == s.len() {
        assert(s.take(n) =~= s);
        lemma_digits_nonnegative(s, radix);
    } else {
        lemma_digits_prefix(s.drop_last(), n, radix);
        assert(s.drop_last().take(n) =~= s.take(n));
        match (digits_value(s.drop_last(), radix), digit_value(s.last(), radix)) {
            (Some(v), Some(d)) => {
                assert(v <= v * radix) by (nonlinear_arith)
                    requires
                        1 <= radix,
                        0 <= v,
                ;
            },
            _ => {},
        }
    }
}

proof fn lemma_digits_nonnegative(s: Seq<u8>, radix: int)
    requires
        1 <= radix,
    ensures
        digits_value(s, radix) matches Some(v) ==> 0 <= v,
    decreases s.len(),
{
    if s.len() > 0 {
        lemma_digits_nonnegative(s.drop_last(), radix);
        match digits_value(s.drop_last(), radix) {
            Some(v) => {
                assert(0 <= v * radix) by (nonlinear_arith)
                    requires
                        1 <= radix,
                        0 <= v,
                ;
            },
            None => {},
        }
    }
}

/// Reads a numeral that fits in a `u64`.
pub fn parse_numeral(s: &[u8], radix: u64) -> (r: Option<u64>)
    requires
        2 <= radix <= 10,
    ensures
        match r {
            Some(v) => numeral_up_to(s@, radix as int, u64::MAX as int) == Some(v as int),
            None => numeral_up_to(s@, radix as int, u64::MAX as int) is None,
        },
{
    let start: usize = if s.len() > 0 && s[0] == 43 {
        1
    } else {
        0
    };
    let ghost digits = s@.skip(start as int);
    assert(start == 0 ==> digits =~= s@);
    if start == s.len() {
        return None;
    }
    let mut value: u64 = 0;
    let mut i: usize = start;
    while i < s.len()
        invariant
            2 <= radix <= 10,
            start <= i <= s@.len(),
            digits == s@.skip(start as int),
            numeral(s@, radix as int) == digits_value(digits, radix as int),
            digits_value(digits.take(i - start), radix as int) == Some(value as int),
        decreases s@.len() - i,
    {
        let b: u8 = s[i];
        let ghost n = i - start;
        assert(digits.take(n + 1).drop_last() =~= digits.take(n));
        assert(digits.take(n + 1).last() == b);
        proof {
            lemma_digits_prefix(digits, n + 1, radix as int);
        }
        if b < 48 || b >= 58 || (b - 48) as u64 >= radix {
            return None;
        }
        let d: u64 = (b - 48) as u64;
        assert(digits_value(digits.take(n + 1), radix as int) == Some(value * radix + d));
        match value.checked_mul(radix) {
            None => {
                return None;
            },
            Some(m) => {
                match m.checked_add(d) {
                    None => {
                        return None;
                    },
                    Some(v) => {
                        value = v;
                    },
                }
            },
        }
        i = i + 1;
    }
    assert(digits.take(i - start) =~= digits);
    Some(value)
}

/// Characters with the Unicode `White_Space` property.
pub open spec fn is_white_space(c: char) -> bool {
    let u = c as u32;
    ||| 0x9 <= u <= 0xd
    ||| u == 0x20
    ||| u == 0x85
    ||| u == 0xa0
    ||| u == 0x1680
    ||| 0x2000 <= u <= 0x200a
    ||| u == 0x2028
    ||| u == 0x2029
    ||| u == 0x202f
    ||| u == 0x205f
    ||| u == 0x3000
}

fn white_space(c: char) -> (r: bool)
    ensures
        r == is_white_space(c),
{
    let u: u32 = c as u32;
    (0x9 <= u && u <= 0xd) || u == 0x20 || u == 0x85 || u == 0xa0 || u == 0x1680 || (0x2000 <= u
        && u <= 0x200a) || u == 0x2028 || u == 0x2029 || u == 0x202f || u == 0x205f || u == 0x3000
}

/// Text without the white space at its start.
pub open spec fn trim_start(s: Seq<char>) -> Seq<char>
    decreases s.len(),
{
    if s.len() > 0 && is_white_space(s[0]) {
        trim_start(s.skip(1))
    } else {
        s
    }
}

/// Text without the white space at its end.
pub open spec fn trim_end(s: Seq<char>) -> Seq<char>
    decreases s.len(),
{
    if s.len() > 0 && is_white_space(s.last()) {
        trim_end(s.drop_last())
    } else {
        s
    }
}

/// The byte of an ASCII character; other characters become a byte that is no digit.
pub open spec fn ascii_byte(c: char) -> u8 {
    if (c as u32) < 128 {
        c as u8
    } else {
        255
    }
}

/// The bytes of text that matter for a numeral.
pub open spec fn ascii_bytes(s: Seq<char>) -> Seq<u8> {
    s.map_values(|c: char| ascii_byte(c))
}

/// The number in an octal header field.
///
/// The field ends at its first nul; white space around the number is ignored.
pub open spec fn octal(field: Seq<u8>) -> Result<u64, TarError> {
    let text = truncated(field);
    if !valid_utf8(text) {
        Err(TarError::NumericNotUtf8)
    } else {
        match numeral_up_to(
            ascii_bytes(trim_end(trim_start(decode_utf8(text)))),
            8,
            u64::MAX as int,
        ) {
            Some(v) => Ok(v as u64),
            None => Err(TarError::NumericInvalid),
        }
    }
}

/// Views bytes as text.
///
/// Calls `core::str::from_utf8`, which succeeds if and only if the bytes are
/// valid UTF-8; the text then has exactly these bytes.
#[verifier::external_body]
pub(crate) fn utf8_text(b: &[u8]) -> (r: Option<&str>)
    ensures
        r is Some == valid_utf8(b@),
        r matches Some(s) ==> encode_utf8(s@) == b@,
{
    core::str::from_utf8(b).ok()
}

/// Finds where text starts and ends without the white space around it.
fn trim_range(s: &str) -> (r: (usize, usize))
    ensures
        r.0 <= r.1 <= s@.len(),
        s@.subrange(r.0 as int, r.1 as int) == trim_end(trim_start(s@)),
{
    let n: usize = s.unicode_len();
    let mut lo: usize = 0;
    assert(s@.subrange(0, n as int) =~= s@);
    while lo < n && white_space(s.get_char(lo))
        invariant
            lo <= n == s@.len(),
            trim_start(s@.subrange(lo as int, n as int)) == trim_start(s@),
        decreases n - lo,
    {
        assert(s@.subrange(lo as int, n as int).skip(1) =~= s@.subrange(lo + 1, n as int));
        lo = lo + 1;
    }
    let ghost started = s@.subrange(lo as int, n as int);
    assert(started == trim_start(s@));
    let mut hi: usize = n;
    while hi > lo && white_space(s.get_char(hi - 1))
        invariant
            lo <= hi <= n == s@.len(),
            trim_end(s@.subrange(lo as int, hi as int)) == trim_end(started),
        decreases hi,
    {
        assert(s@.subrange(lo as int, hi as int).drop_last() =~= s@.subrange(lo as int, hi - 1));
        hi = hi - 1;
    }
    (lo, hi)
}

/// Returns text without the white space around it.
pub fn trim(s: &str) -> (r: &str)
    ensures
        r@ == trim_end(trim_start(s@)),
{
    let (lo, hi): (usize, usize) = trim_range(s);
    s.substring_char(lo, hi)
}

/// Reads the number in an octal header field.
pub fn octal_from(field: &[u8]) -> (r: Result<u64, TarError>)
    ensures
        r == octal(field@),
{
    let text: &[u8] = truncate(field);
    let s: &str = match utf8_text(text) {
        Some(s) => s,
        None => {
            return Err(TarError::NumericNotUtf8);
        },
    };
    proof {
        encode_utf8_decode_utf8(s@);
    }
    let (lo, hi): (usize, usize) = trim_range(s);
    let ghost trimmed = s@.subrange(lo as int, hi as int);
    let mut digits: Vec<u8> = Vec::new();
    let mut i: usize = lo;
    while i < hi
        invariant
            lo <= i <= hi <= s@.len(),
            trimmed == s@.subrange(lo as int, hi as int),
            digits@ =~= ascii_bytes(trimmed.take(i - lo)),
        decreases hi - i,
    {
        let c: char = s.get_char(i);
        let u: u32 = c as u32;
        let b: u8 = if u < 128 {
            u as u8
        } else {
            255
        };
        digits.push(b);
        i = i + 1;
    }
    assert(trimmed.take(i - lo) =~= trimmed);
    match parse_numeral(digits.as_slice(), 8) {
        Some(v) => Ok(v),
        None => Err(TarError::NumericInvalid),
    }
}

/// `value` without its `k` least significant octal digits.
pub open spec fn octal_shift(value: int, k: int) -> int
    decreases k,
{
    if k <= 0 {
        value
    } else {
        octal_shift(value / 8, k - 1)
    }
}

/// The ASCII octal digit of `value` at the weight of eight to the power `k`.
pub open spec fn octal_digit(value: int, k: int) -> u8 {
    (48 + octal_shift(value, k) % 8) as u8
}

/// A field once `value` is written to it: the least significant octal digits
/// that fit, with zeros before them. The last byte stays as it is.
pub open spec fn octal_field(field: Seq<u8>, value: int) -> Seq<u8> {
    Seq::new(
        field.len(),
        |i: int|
            if i == field.len() - 1 {
                field[i]
            } else {
                octal_digit(value, field.len() - 2 - i)
            },
    )
}

pub proof fn lemma_octal_shift(value: int, k: int)
    requires
        0 <= k,
        0 <= value,
    ensures
        octal_shift(value, k + 1) == octal_shift(value, k) / 8,
        0 <= octal_shift(value, k) <= value,
    decreases k,
{
    reveal_with_fuel(octal_shift, 2);
    if k > 0 {
        lemma_octal_shift(value / 8, k - 1);
    }
}

/// Writes `value` to a field in octal.
pub fn octal_into(field: &mut [u8], value: u64)
    ensures
        final(field)@ == octal_field(old(field)@, value as int),
{
    let n: usize = field.len();
    let ghost before = field@;
    if n == 0 {
        assert(field@ =~= octal_field(before, value as int));
        return;
    }
    let mut rest: u64 = value;
    let mut i: usize = n - 1;
    while i > 0
        invariant
            i < n == field@.len(),
            n == before.len(),
            rest == octal_shift(value as int, n - 1 - i),
            field@[n - 1] == before[n - 1],
            forall|k: int| i <= k < n - 1 ==> #[trigger] field@[k] == octal_digit(
                value as int,
                n - 2 - k,
            ),
        decreases i,
    {
        i = i - 1;
        field[i] = 48 + (rest % 8) as u8;
        proof {
            lemma_octal_shift(value as int, n - 2 - i);
        }
        rest = rest / 8;
    }
    assert(field@ =~= octal_field(before, value as int));
}

proof fn lemma_octal_shift_out(value: int, k: nat)
    requires
        0 <= value < pow(8, k),
    ensures
        octal_shift(value, k as int) == 0,
    decreases k,
{
    reveal(pow);
    if k > 0 {
        assert(value / 8 < pow(8, (k - 1) as nat));
        lemma_octal_shift_out(value / 8, (k - 1) as nat);
    }
}

/// The first `j` of `n` octal digits of a value stand for the value without the others.
proof fn lemma_octal_digits(value: int, digits: Seq<u8>, j: int)
    requires
        0 <= value,
        octal_shift(value, digits.len() as int) == 0,
        forall|i: int|
            0 <= i < digits.len() ==> #[trigger] digits[i] == octal_digit(
                value,
                digits.len() - 1 - i,
            ),
        0 <= j <= digits.len(),
    ensures
        digits_value(digits.take(j), 8) == Some(octal_shift(value, digits.len() - j)),
    decreases j,
{
    if j > 0 {
        lemma_octal_digits(value, digits, j - 1);
        assert(digits.take(j).drop_last() =~= digits.take(j - 1));
        lemma_octal_shift(value, digits.len() - j);
        assert(digits.take(j).last() == digits[j - 1]);
    }
}

/// ASCII bytes are text with the same characters.
pub proof fn lemma_ascii_text(b: Seq<u8>)
    requires
        forall|k: int| 0 <= k < b.len() ==> #[trigger] b[k] < 128,
    ensures
        valid_utf8(b),
        decode_utf8(b) == b.map_values(|x: u8| x as char),
{
    let c = b.map_values(|x: u8| x as char);
    assert(is_ascii_chars(c));
    is_ascii_chars_encode_utf8(c);
    assert(encode_utf8(c) =~= b);
    encode_utf8_valid_utf8(c);
    encode_utf8_decode_utf8(c);
}

/// A number that has room in a field is read back from it, if the field ends in a nul or
/// a space.
pub proof fn law_octal_round_trip(field: Seq<u8>, value: u64)
    requires
        2 <= field.len(),
        field.last() == 0 || field.last() == 32,
        value < pow(8, (field.len() - 1) as nat),
    ensures
        octal(octal_field(field, value as int)) == Ok::<u64, TarError>(value),
{
    let n = field.len() as int;
    let v = value as int;
    let stored = octal_field(field, v);
    let digits = stored.take(n - 1);
    lemma_octal_shift_out(v, (n - 1) as nat);
    assert forall|i: int| 0 <= i < n - 1 implies #[trigger] digits[i] == octal_digit(v, n - 2 - i)
        && 48 <= digits[i] < 56 by {
        lemma_octal_shift(v, n - 2 - i);
    }
    lemma_octal_digits(v, digits, n - 1);
    assert(digits.take(n - 1) =~= digits);
    let len = if field.last() == 0 {
        n - 1
    } else {
        n
    };
    assert forall|i: int| 0 <= i < len implies stored[i] != 0 by {
        if i < n - 1 {
            assert(stored[i] == digits[i]);
        }
    }
    lemma_find_from_is(stored, 0, 0, len);
    let text = truncated(stored);
    assert forall|k: int| 0 <= k < text.len() implies #[trigger] text[k] < 128 by {
        if k < n - 1 {
            assert(text[k] == digits[k]);
        }
    }
    lemma_ascii_text(text);
    let chars = decode_utf8(text);
    assert(chars[0] == digits[0] as char);
    assert(trim_start(chars) == chars);
    let short = chars.take(n - 1);
    assert(short.last() == digits[n - 2] as char);
    assert(trim_end(short) == short);
    if field.last() == 0 {
        assert(short =~= chars);
    } else {
        assert(chars.last() == ' ');
        assert(chars.drop_last() =~= short);
    }
    assert(trim_end(chars) == short);
    assert(ascii_bytes(short) =~= digits);
    assert(digits[0] != 43);
}

} // verus!
