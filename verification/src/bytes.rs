//! Byte strings: searching, cutting at the first nul, and storing values in
//! fixed-width fields.

use crate::error::TarError;
use vstd::prelude::*;
use vstd::slice::slice_subrange;

verus! {

/// The first position at or after `i` that holds `b`, or the length of `s`.
pub open spec fn find_from(s: Seq<u8>, b: u8, i: int) -> int
    decreases s.len() - i,
{
    if i >= s.len() {
        s.len() as int
    } else if s[i] == b {
        i
    } else {
        find_from(s, b, i + 1)
    }
}

/// `find_from` stops at the first match and passes none.
pub proof fn lemma_find_from(s: Seq<u8>, b: u8, i: int)
    requires
        0 <= i <= s.len(),
    ensures
        i <= find_from(s, b, i) <= s.len(),
        find_from(s, b, i) < s.len() ==> s[find_from(s, b, i)] == b,
        forall|k: int| i <= k < find_from(s, b, i) ==> s[k] != b,
    decreases s.len() - i,
{
    if i < s.len() && s[i] != b {
        lemma_find_from(s, b, i + 1);
    }
}

/// The position of the first match is the only one with these properties.
pub proof fn lemma_find_from_is(s: Seq<u8>, b: u8, i: int, r: int)
    requires
        0 <= i <= r <= s.len(),
        r < s.len() ==> s[r] == b,
        forall|k: int| i <= k < r ==> s[k] != b,
    ensures
        find_from(s, b, i) == r,
{
    lemma_find_from(s, b, i);
}

/// Finds the first `b` at or after `from`.
pub fn find(s: &[u8], b: u8, from: usize) -> (r: usize)
    requires
        from <= s@.len(),
    ensures
        r == find_from(s@, b, from as int),
        from <= r <= s@.len(),
        r < s@.len() ==> s@[r as int] == b,
        forall|k: int| from <= k < r ==> s@[k] != b,
{
    let mut i: usize = from;
    while i < s.len() && s[i] != b
        invariant
            from <= i <= s@.len(),
            forall|k: int| from <= k < i ==> s@[k] != b,
        decreases s@.len() - i,
    {
        i = i + 1;
    }
    proof {
        lemma_find_from_is(s@, b, from as int, i as int);
    }
    i
}

/// The bytes before the first nul.
pub open spec fn truncated(s: Seq<u8>) -> Seq<u8> {
    s.subrange(0, find_from(s, 0, 0))
}

/// Cuts a field at its first nul byte.
pub fn truncate(s: &[u8]) -> (r: &[u8])
    ensures
        r@ == truncated(s@),
        r@.len() <= s@.len(),
        forall|k: int| 0 <= k < r@.len() ==> r@[k] != 0,
{
    let i: usize = find(s, 0, 0);
    slice_subrange(s, 0, i)
}

/// What `field` holds once `value` is stored in the part that starts at `at`:
/// the value, a nul if there is room for one, and elsewhere what was there before.
pub open spec fn stored_at(field: Seq<u8>, at: int, value: Seq<u8>) -> Seq<u8> {
    Seq::new(
        field.len(),
        |k: int|
            if k < at {
                field[k]
            } else if k < at + value.len() {
                value[k - at]
            } else if k == at + value.len() {
                0u8
            } else {
                field[k]
            },
    )
}

/// Why `value` cannot be stored in a field of `room` bytes, if it cannot.
pub open spec fn store_error(room: int, value: Seq<u8>) -> Option<TarError> {
    if value.len() > room {
        Some(TarError::ValueTooLong)
    } else if value.contains(0u8) {
        Some(TarError::ValueHasNul)
    } else {
        None
    }
}

/// Stores `value` in the part of `field` that starts at `at`.
///
/// Nothing is written if the value is too long or holds a nul byte.
pub fn copy_into(field: &mut [u8], at: usize, value: &[u8]) -> (r: Result<(), TarError>)
    requires
        at <= old(field)@.len(),
    ensures
        match store_error(old(field)@.len() - at, value@) {
            Some(e) => r == Err::<(), TarError>(e) && final(field)@ == old(field)@,
            None => r is Ok && final(field)@ == stored_at(old(field)@, at as int, value@),
        },
{
    if value.len() > field.len() - at {
        return Err(TarError::ValueTooLong);
    }
    let nul: usize = find(value, 0, 0);
    if nul < value.len() {
        assert(value@.contains(0u8)) by {
            assert(value@[nul as int] == 0u8);
        }
        return Err(TarError::ValueHasNul);
    }
    assert(!value@.contains(0u8));
    let ghost before = field@;
    let mut i: usize = 0;
    while i < value.len()
        invariant
            at + value@.len() <= field.len(),
            field@.len() == before.len(),
            i <= value@.len(),
            forall|k: int|
                0 <= k < before.len() ==> #[trigger] field@[k] == if at <= k < at + i {
                    value@[k - at]
                } else {
                    before[k]
                },
        decreases value@.len() - i,
    {
        field[at + i] = value[i];
        i = i + 1;
    }
    if at + value.len() < field.len() {
        field[at + value.len()] = 0;
    }
    assert(field@ =~= stored_at(before, at as int, value@));
    Ok(())
}

/// A record in which the bytes from `lo` on are replaced by `field`.
pub open spec fn with_field(record: Seq<u8>, lo: int, field: Seq<u8>) -> Seq<u8> {
    record.take(lo) + field + record.skip(lo + field.len())
}

/// Borrows a part of a record for writing.
pub(crate) fn field_mut(record: &mut [u8], lo: usize, len: usize) -> (r: &mut [u8])
    requires
        lo + len <= old(record)@.len(),
    ensures
        r@ == old(record)@.subrange(lo as int, lo + len),
        final(record)@ == old(record)@.take(lo as int) + final(r)@ + old(record)@.skip(lo + len),
{
    let ghost before = record@;
    let (_, tail) = record.split_at_mut(lo);
    let (field, _) = tail.split_at_mut(len);
    assert(before.skip(lo as int).take(len as int) =~= before.subrange(lo as int, lo + len));
    assert(before.skip(lo as int).skip(len as int) =~= before.skip(lo + len));
    field
}

/// Text in which every backslash is a slash.
pub open spec fn slashed(s: Seq<u8>) -> Seq<u8> {
    s.map_values(
        |b: u8|
            if b == 92 {
                47u8
            } else {
                b
            },
    )
}

/// Appends a copy of `s` in which every backslash is a slash.
pub(crate) fn extend_slashed(v: &mut Vec<u8>, s: &[u8])
    ensures
        final(v)@ == old(v)@ + slashed(s@),
{
    let ghost before = v@;
    let mut i: usize = 0;
    while i < s.len()
        invariant
            i <= s@.len(),
            v@ =~= before + slashed(s@.take(i as int)),
        decreases s@.len() - i,
    {
        let b: u8 = if s[i] == 92 {
            47
        } else {
            s[i]
        };
        v.push(b);
        i = i + 1;
    }
    assert(s@.take(i as int) =~= s@);
}

} // verus!
