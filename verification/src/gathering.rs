//! The sizes of the extension records in front of an entry, which the parser adds up.

use crate::archive::lemma_not_zeros;
use crate::bytes::{lemma_find_from, truncate, truncated};
use crate::entry::zeros;
use crate::header::{is_gnu, is_ustar, Header};
use crate::machine::{all_zero, round_up};
use crate::number::octal_from;
use crate::parser::{
    announced_size, behind_record, chained, has_right_cksum, is_ordinary, is_space, no_front,
    padded, plain_number, record_at_front, wanted, Front,
};
use vstd::arithmetic::power::pow;
use vstd::prelude::*;
use vstd::slice::slice_subrange;

verus! {

/// The value of some bytes as one number, most significant byte first.
pub open spec fn big_endian(s: Seq<u8>) -> int
    decreases s.len(),
{
    if s.len() == 0 {
        0
    } else {
        big_endian(s.drop_last()) * 256 + s.last()
    }
}

/// The number that the parser reads in the size field of a header: octal digits, or the last
/// eight bytes as they are if the first byte has its high bit set.
pub open spec fn size_number(h: Seq<u8>) -> Option<int> {
    if h[124] >= 128 {
        Some(big_endian(h.subrange(128, 136)))
    } else {
        match plain_number(h.subrange(124, 136)) {
            Some(n) => Some(n as int),
            None => None,
        }
    }
}

/// The extension records that the parser has gone through in front of an entry.
pub struct Gathered {
    /// Whether there was a long path.
    pub name: bool,
    /// Whether there was a long link name.
    pub link: bool,
    /// Whether there was a pax record.
    pub pax: bool,
    /// How many bytes they hold.
    pub bytes: int,
}

impl Gathered {
    /// Whether there was a record of a type.
    pub open spec fn has(self, t: u8) -> bool {
        (t == 76 && self.name) || (t == 75 && self.link) || (t == 120 && self.pax)
    }

    /// These records and one more.
    pub open spec fn with(self, t: u8, size: int) -> Gathered {
        Gathered {
            name: self.name || t == 76,
            link: self.link || t == 75,
            pax: self.pax || t == 120,
            bytes: self.bytes + size,
        }
    }
}

/// No extension records.
pub open spec fn none_gathered() -> Gathered {
    Gathered { name: false, link: false, pax: false, bytes: 0 }
}

/// Whether a header stands in front of an extension record for the next entry.
pub open spec fn extends_entry(h: Seq<u8>) -> bool {
    &&& h[156] == 76 || h[156] == 75 || h[156] == 120
    &&& is_gnu(h) || is_ustar(h)
    &&& has_right_cksum(h)
}

/// Whether the sizes of the extension records at the front of some bytes, added to those of the
/// records before them, come to more than a `u64` holds.
///
/// A lone block of zeros is passed over. The parser goes no further than to a second
/// record of one type, or once the sizes come to more than a mebibyte.
#[verifier::opaque]
pub open spec fn sums_over(input: Seq<u8>, g: Gathered) -> bool
    decreases input.len(),
{
    let h = input.take(512);
    if input.len() < 512 {
        false
    } else if h == zeros(512) {
        input.len() >= 1024 && input.subrange(512, 1024) != zeros(512) && sums_over(
            input.skip(512),
            g,
        )
    } else if !extends_entry(h) || g.has(h[156]) {
        false
    } else {
        match size_number(h) {
            None => false,
            Some(n) => if n < 0 || n + 511 > u64::MAX {
                false
            } else if g.bytes + n > u64::MAX {
                true
            } else {
                g.bytes + n <= 1048576 && 512 + padded(n) <= input.len() && sums_over(
                    input.skip(512 + padded(n)),
                    g.with(h[156], n),
                )
            },
        }
    }
}

/// Whether the sizes of the extension records at the front of some bytes come to more than a
/// `u64` holds.
pub open spec fn overflows(input: Seq<u8>) -> bool {
    sums_over(input, none_gathered())
}

/// A field with a plain number does not start with a byte that has its high bit set.
proof fn lemma_plain_start(field: Seq<u8>)
    requires
        field.len() > 0,
        plain_number(field) is Some,
    ensures
        field[0] < 128,
{
    reveal(plain_number);
    if field[0] >= 128 {
        lemma_find_from(field, 0, 0);
        assert(truncated(field)[0] == field[0]);
    }
}

/// Records that the parser takes have no such sizes.
proof fn lemma_chain_sums(b: Seq<u8>, f: Front)
    requires
        f.bytes >= 0,
        chained(b, f) is Some || wanted(b, f) is Some,
    ensures
        !sums_over(b, f.kinds()),
    decreases b.len(),
{
    reveal(chained);
    reveal(wanted);
    reveal(sums_over);
    if b.len() >= 512 {
        let h = b.take(512);
        lemma_not_zeros(h);
        if !is_ordinary(h) {
            assert(h.subrange(124, 136)[0] == h[124]);
            lemma_plain_start(h.subrange(124, 136));
            let at = behind_record(b);
            if at <= b.len() {
                let data = record_at_front(b);
                assert(data.len() == announced_size(h));
                assert(f.with(h[156], data).kinds() == f.kinds().with(h[156], announced_size(h)));
                lemma_chain_sums(b.skip(at), f.with(h[156], data));
            }
        }
    }
}

/// Bytes of which it is known how the parser reads them have no such sizes.
pub proof fn lemma_no_overflow(b: Seq<u8>)
    ensures
        512 <= b.len() < 1024 && b.take(512) == zeros(512) ==> !overflows(b),
        b.len() >= 1024 && b.take(1024) == zeros(1024) ==> !overflows(b),
        wanted(b, no_front()) is Some ==> !overflows(b),
        chained(b, no_front()) is Some ==> !overflows(b),
{
    reveal(sums_over);
    if b.len() >= 1024 && b.take(1024) == zeros(1024) {
        assert(b.take(512) =~= b.take(1024).take(512));
        assert(b.take(512) =~= zeros(512));
        assert(b.subrange(512, 1024) =~= b.take(1024).subrange(512, 1024));
        assert(b.subrange(512, 1024) =~= zeros(512));
    }
    if wanted(b, no_front()) is Some || chained(b, no_front()) is Some {
        lemma_chain_sums(b, no_front());
    }
}

proof fn lemma_big_endian_bound(s: Seq<u8>)
    ensures
        0 <= big_endian(s) < pow(256, s.len()),
    decreases s.len(),
{
    reveal(pow);
    if s.len() > 0 {
        lemma_big_endian_bound(s.drop_last());
    }
}

/// Reads eight bytes as one number, most significant byte first.
fn read_big_endian(s: &[u8]) -> (r: u64)
    requires
        s@.len() == 8,
    ensures
        r == big_endian(s@),
{
    let mut value: u64 = 0;
    let mut i: usize = 0;
    while i < 8
        invariant
            i <= 8 == s@.len(),
            value == big_endian(s@.take(i as int)),
        decreases 8 - i,
    {
        proof {
            let ahead = s@.take(i + 1);
            assert(ahead.drop_last() =~= s@.take(i as int));
            assert(ahead.last() == s@[i as int]);
            lemma_big_endian_bound(ahead);
            reveal_with_fuel(pow, 9);
            assert(pow(256, (i + 1) as nat) <= u64::MAX + 1);
        }
        value = value * 256 + s[i] as u64;
        i = i + 1;
    }
    assert(s@.take(8) =~= s@);
    value
}

/// Reads the number that the parser reads in a field of octal digits.
fn read_plain(field: &[u8]) -> (r: Option<u64>)
    ensures
        r == plain_number(field@),
{
    reveal(plain_number);
    let text: &[u8] = truncate(field);
    let mut blank: bool = true;
    let mut i: usize = 0;
    while i < text.len()
        invariant
            i <= text@.len(),
            text@ == truncated(field@),
            forall|k: int| 0 <= k < i ==> #[trigger] text@[k] < 128,
            blank == (forall|k: int| 0 <= k < i ==> is_space(#[trigger] text@[k])),
        decreases text@.len() - i,
    {
        let b: u8 = text[i];
        if b >= 128 {
            reveal(plain_number);
            return None;
        }
        blank = blank && ((9 <= b && b <= 13) || b == 32);
        i = i + 1;
    }
    if blank {
        return Some(0);
    }
    match octal_from(field) {
        Ok(n) => Some(n),
        Err(_) => None,
    }
}

/// Reads the number that the parser reads in the size field of a header.
fn read_size(header: &Header) -> (r: Option<u64>)
    ensures
        size_number(header@) == match r {
            Some(n) => Some(n as int),
            None => None,
        },
{
    if header.field(124, 125)[0] >= 128 {
        Some(read_big_endian(header.field(128, 136)))
    } else {
        read_plain(header.field(124, 136))
    }
}

/// Returns whether a header stands in front of an extension record for the next entry.
fn is_extension(header: &Header) -> (r: bool)
    ensures
        r == extends_entry(header@),
{
    let t: u8 = header.field(156, 157)[0];
    if t != 76 && t != 75 && t != 120 {
        return false;
    }
    if !header.is_gnu() && !header.is_ustar() {
        return false;
    }
    match read_plain(header.field(148, 156)) {
        Some(sum) => sum == header.compute_cksum() as u64,
        None => false,
    }
}

/// Returns whether the sizes of the extension records at the front of some bytes come to
/// more than a `u64` holds.
pub fn sizes_overflow(input: &[u8]) -> (r: bool)
    ensures
        r == overflows(input@),
{
    let mut name: bool = false;
    let mut link: bool = false;
    let mut pax: bool = false;
    let mut bytes: u64 = 0;
    let mut at: usize = 0;
    assert(input@.skip(0) =~= input@);
    while input.len() - at >= 512
        invariant
            at <= input@.len(),
            bytes <= 1048576,
            overflows(input@) == sums_over(
                input@.skip(at as int),
                Gathered { name, link, pax, bytes: bytes as int },
            ),
        decreases input@.len() - at,
    {
        reveal(sums_over);
        let ghost rest = input@.skip(at as int);
        let block: &[u8] = slice_subrange(input, at, at + 512);
        assert(block@ =~= rest.take(512));
        if all_zero(block) {
            if input.len() - at < 1024 {
                return false;
            }
            let second: &[u8] = slice_subrange(input, at + 512, at + 1024);
            assert(second@ =~= rest.subrange(512, 1024));
            if all_zero(second) {
                return false;
            }
            assert(rest.skip(512) =~= input@.skip(at + 512));
            at = at + 512;
        } else {
            let header: Header = Header::from_block(block);
            let t: u8 = header.field(156, 157)[0];
            assert(t == rest.take(512)[156]);
            if !is_extension(&header) || (t == 76 && name) || (t == 75 && link) || (t == 120
                && pax) {
                return false;
            }
            let size: u64 = match read_size(&header) {
                Some(size) => size,
                None => {
                    return false;
                },
            };
            let rounded: u64 = match round_up(size) {
                Some(rounded) => rounded,
                None => {
                    return false;
                },
            };
            let sum: u64 = match bytes.checked_add(size) {
                Some(sum) => sum,
                None => {
                    return true;
                },
            };
            if sum > 1048576 || rounded > (input.len() - at - 512) as u64 {
                return false;
            }
            assert(rest.skip(512 + padded(size as int)) =~= input@.skip(at + 512 + rounded));
            bytes = sum;
            name = name || t == 76;
            link = link || t == 75;
            pax = pax || t == 120;
            at = at + 512 + rounded as usize;
        }
    }
    reveal(sums_over);
    false
}

} // verus!
