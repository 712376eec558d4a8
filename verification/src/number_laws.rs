//! What numbers in text stand for.

use crate::bytes::{lemma_find_from_is, truncated};
use crate::error::TarError;
use crate::number::{
    ascii_bytes, digits_value, lemma_ascii_text, numeral, octal, octal_field, octal_shift, trim_end,
    trim_start,
};
use vstd::arithmetic::power::{lemma_pow_positive, pow};
use vstd::prelude::*;
use vstd::utf8::decode_utf8;

verus! {

proof fn lemma_shift_is_division(value: int, k: nat)
    requires
        0 <= value,
    ensures
        octal_shift(value, k as int) == value / pow(8, k),
    decreases k,
{
    reveal(pow);
    if k > 0 {
        let p = pow(8, (k - 1) as nat);
        lemma_shift_is_division(value / 8, (k - 1) as nat);
        lemma_pow_positive(8, (k - 1) as nat);
        vstd::arithmetic::div_mod::lemma_div_denominator(value, 8, p);
        assert(pow(8, k) == 8 * p);
    }
}

/// A number is written with the digit for each power of eight at its place, the last one first from
/// the right, in front of the last byte of its field, which stays.
pub proof fn law_octal_written(field: Seq<u8>, value: int, i: int)
    requires
        field.len() > 0,
        0 <= value,
        0 <= i < field.len() - 1,
    ensures
        octal_field(field, value).len() == field.len(),
        octal_field(field, value).last() == field.last(),
        octal_field(field, value)[i] == 48 + (value / pow(8, (field.len() - 2 - i) as nat)) % 8,
{
    lemma_shift_is_division(value, (field.len() - 2 - i) as nat);
}

/// What digits stand for in a positional system: each counts by its distance from the last one.
pub open spec fn weighed(digits: Seq<u8>, radix: int) -> int
    decreases digits.len(),
{
    if digits.len() == 0 {
        0
    } else {
        (digits[0] - 48) * pow(radix, (digits.len() - 1) as nat) + weighed(digits.skip(1), radix)
    }
}

proof fn lemma_weighed(digits: Seq<u8>, radix: int)
    requires
        digits.len() > 0,
    ensures
        weighed(digits, radix) == weighed(digits.drop_last(), radix) * radix + (digits.last() - 48),
    decreases digits.len(),
{
    reveal(pow);
    let n = digits.len() as int;
    reveal_with_fuel(weighed, 2);
    if n == 1 {
        assert(digits.skip(1) =~= Seq::empty());
        assert(digits.drop_last() =~= Seq::empty());
        assert(pow(radix, 0) == 1);
        assert(weighed(digits, radix) == digits[0] - 48);
    } else {
        let rest = digits.skip(1);
        let less = digits.drop_last();
        lemma_weighed(rest, radix);
        assert(rest.drop_last() =~= less.skip(1));
        let d = digits[0] - 48;
        let p = pow(radix, (n - 2) as nat);
        assert(pow(radix, (n - 1) as nat) == radix * p);
        assert(weighed(less, radix) == d * p + weighed(less.skip(1), radix));
        let w = weighed(less.skip(1), radix);
        assert(d * (radix * p) + w * radix == (d * p + w) * radix) by (nonlinear_arith);
    }
}

/// Whether some bytes are digits.
pub open spec fn are_digits(s: Seq<u8>, radix: int) -> bool {
    forall|k: int| 0 <= k < s.len() ==> 48 <= #[trigger] s[k] < 48 + radix
}

proof fn lemma_digits(s: Seq<u8>, radix: int)
    requires
        0 < radix <= 10,
    ensures
        are_digits(s, radix) ==> digits_value(s, radix) == Some(weighed(s, radix)),
        !are_digits(s, radix) ==> digits_value(s, radix) is None,
    decreases s.len(),
{
    if s.len() > 0 {
        let less = s.drop_last();
        lemma_digits(less, radix);
        lemma_weighed(s, radix);
        if are_digits(s, radix) {
            assert forall|k: int| 0 <= k < less.len() implies 48 <= #[trigger] less[k] < 48 + radix by {
                assert(less[k] == s[k]);
            }
            assert(48 <= s[s.len() - 1] < 48 + radix);
        } else {
            let k = choose|k: int| 0 <= k < s.len() && !(48 <= #[trigger] s[k] < 48 + radix);
            if k < less.len() {
                assert(less[k] == s[k]);
            }
        }
    }
}

/// A numeral of digits stands for what they count by their places, and may have a `+` before them;
/// whatever holds another byte, or no digit, is no number.
pub proof fn law_numeral(digits: Seq<u8>, radix: int)
    requires
        0 < radix <= 10,
    ensures
        digits.len() > 0 && are_digits(digits, radix) ==> numeral(digits, radix) == Some(
            weighed(digits, radix),
        ) && numeral(seq![43u8] + digits, radix) == Some(weighed(digits, radix)),
        digits.len() == 0 ==> numeral(digits, radix) is None && numeral(seq![43u8] + digits, radix)
            is None,
        !are_digits(digits, radix) ==> numeral(seq![43u8] + digits, radix) is None && (digits[0]
            != 43 ==> numeral(digits, radix) is None),
{
    lemma_digits(digits, radix);
    assert((seq![43u8] + digits).skip(1) =~= digits);
    if digits.len() > 0 && are_digits(digits, radix) {
        assert(48 <= digits[0]);
    }
}

proof fn lemma_trim_start(n: nat, text: Seq<char>)
    requires
        text.len() > 0,
        '!' <= text[0] <= '~',
    ensures
        trim_start(Seq::new(n, |k: int| ' ') + text) == text,
    decreases n,
{
    let all = Seq::new(n, |k: int| ' ') + text;
    if n == 0 {
        assert(all =~= text);
    } else {
        lemma_trim_start((n - 1) as nat, text);
        assert(all[0] == ' ');
        assert(all.skip(1) =~= Seq::new((n - 1) as nat, |k: int| ' ') + text);
    }
}

proof fn lemma_trim_end(n: nat, text: Seq<char>)
    requires
        text.len() > 0,
        '!' <= text.last() <= '~',
    ensures
        trim_end(text + Seq::new(n, |k: int| ' ')) == text,
    decreases n,
{
    let all = text + Seq::new(n, |k: int| ' ');
    if n == 0 {
        assert(all =~= text);
    } else {
        lemma_trim_end((n - 1) as nat, text);
        assert(all.last() == ' ');
        assert(all.drop_last() =~= text + Seq::new((n - 1) as nat, |k: int| ' '));
    }
}

/// A field of octal digits, with any number of blanks around them, and with anything behind a nul,
/// is read as the number that the digits stand for; it is refused if that is too large.
pub proof fn law_octal_read(before: nat, digits: Seq<u8>, after: nat, rest: Seq<u8>)
    requires
        digits.len() > 0,
        are_digits(digits, 8),
        rest.len() > 0 ==> rest[0] == 0,
    ensures
        ({
            let blanks = |n: nat| Seq::new(n, |k: int| 32u8);
            let field = blanks(before) + digits + blanks(after) + rest;
            octal(field) == if weighed(digits, 8) <= u64::MAX {
                Ok::<u64, TarError>(weighed(digits, 8) as u64)
            } else {
                Err::<u64, TarError>(TarError::NumericInvalid)
            }
        }),
{
    let head = Seq::new(before, |k: int| 32u8);
    let tail = Seq::new(after, |k: int| 32u8);
    let shown = head + digits + tail;
    let field = shown + rest;
    assert forall|k: int| 0 <= k < shown.len() implies 0 < #[trigger] shown[k] < 128 by {
        if before <= k < before + digits.len() {
            assert(shown[k] == digits[k - before]);
        }
    }
    assert forall|k: int| 0 <= k < shown.len() implies field[k] != 0 by {
        assert(field[k] == shown[k]);
    }
    lemma_find_from_is(field, 0, 0, shown.len() as int);
    assert(truncated(field) =~= shown);
    lemma_ascii_text(shown);
    let chars = decode_utf8(shown);
    let wanted = digits.map_values(|x: u8| x as char);
    let c_head = Seq::new(before, |k: int| ' ');
    let c_tail = Seq::new(after, |k: int| ' ');
    assert(chars =~= c_head + (wanted + c_tail));
    assert(48 <= digits[0] < 56 && 48 <= digits[digits.len() - 1] < 56);
    assert(wanted[0] == digits[0] as char);
    assert(wanted.last() == digits[digits.len() - 1] as char);
    lemma_trim_start(before, wanted + c_tail);
    lemma_trim_end(after, wanted);
    assert(ascii_bytes(wanted) =~= digits) by {
        assert forall|k: int| 0 <= k < digits.len() implies ascii_bytes(wanted)[k] == digits[k] by {
            assert(48 <= digits[k] < 56);
        }
    }
    law_numeral(digits, 8);
    lemma_weighed_positive(digits);
}

proof fn lemma_weighed_positive(digits: Seq<u8>)
    requires
        are_digits(digits, 8),
    ensures
        weighed(digits, 8) >= 0,
    decreases digits.len(),
{
    if digits.len() > 0 {
        let less = digits.drop_last();
        assert forall|k: int| 0 <= k < less.len() implies 48 <= #[trigger] less[k] < 56 by {
            assert(less[k] == digits[k]);
        }
        lemma_weighed_positive(less);
        lemma_weighed(digits, 8);
        assert(48 <= digits[digits.len() - 1]);
    }
}

} // verus!
