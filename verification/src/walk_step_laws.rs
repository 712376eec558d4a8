//! What walks over archives take for an entry, for the end, and for a fault.

use crate::archive::{look, read_on, rest_of, Found, Place};
use crate::archive_laws::lemma_octal_step;
use crate::entry::{content, zeros, EntryIo, Options};
use crate::entry_type::type_of;
use crate::error::{Fault, TarError};
use crate::gnu::{look_named, Named};
use crate::header::{checksum, octal_u32, with_octal};
use crate::machine::{
    after_fill, begun, described_entry, lone_zero_block, raw_settled, settled, Walk,
};
use crate::number::octal;
use crate::parser::Described;
use vstd::prelude::*;

verus! {

/// The data of an entry stands behind its headers, and the next entry at the first whole block
/// behind the data. An entry that is not sparse is as long as its data, all of which the archive
/// holds. Its header is the one that was read, but for the owner and the group.
pub proof fn law_entry_positions(next: u64, consumed: int, d: Described, options: Options)
    requires
        d.header.len() == 512,
        0 <= consumed,
    ensures
        described_entry(next, consumed, d, options) matches Ok((e, behind)) ==> {
            &&& e.file_pos == next
            &&& e.header_pos + consumed == next
            &&& next + d.size <= behind < next + d.size + 512
            &&& (behind - next) % 512 == 0
            &&& e.options == options
            &&& e.pax_extensions == d.pax
            &&& d.sparse is None ==> e.size == d.size && e.data == seq![EntryIo::Data(d.size)]
            &&& d.sparse matches Some((map, size)) ==> e.size == size
            &&& e.header.len() == 512
            &&& forall|k: int| 0 <= k < 108 || 124 <= k < 512 ==> #[trigger] e.header[k] == d.header[k]
        },
        d.sparse is None ==> (described_entry(next, consumed, d, options) is Ok <==> consumed <= next
            && next + (d.size + 511) / 512 * 512 <= u64::MAX && d.size + 511 <= u64::MAX),
{
    let h = with_octal(d.header, 108, 116, d.uid as int);
    lemma_octal_step(d.header, 108, 116, d.uid as int);
    lemma_octal_step(h, 116, 124, d.gid as int);
}

/// A raw walk ends where the archive does or where a block of zeros stands. A block that is cut off
/// is refused, and so is any other block in which the checksum is not that of the header.
pub proof fn law_raw_steps(obj: Seq<u8>, at: Place)
    requires
        at.walk.raw,
        !at.walk.done,
        !at.walk.options.ignore_zeros,
        0 <= at.pos <= at.walk.next,
        at.walk.next - at.pos <= i64::MAX,
        obj.len() <= u64::MAX,
    ensures
        ({
            let next = at.walk.next as int;
            let (place, found) = look(obj, at);
            let block = obj.subrange(next, next + 512);
            let left = obj.len() - next;
            &&& left == 0 ==> found is End
            &&& left < 0 && !at.walk.seekable ==> found == Found::Fail(
                Fault::Known(TarError::EofInSkip),
            )
            &&& left < 0 && at.walk.seekable ==> found is End
            &&& 0 < left < 512 ==> found == Found::Fail(Fault::Known(TarError::EofInBlock))
            &&& left >= 512 && (forall|k: int| 0 <= k < 512 ==> #[trigger] block[k] == 0) ==> found
                is End
            &&& left >= 512 && (exists|k: int| 0 <= k < 512 && #[trigger] block[k] != 0) && (
            octal_u32(block.subrange(148, 156)) matches Ok(sum) && sum != checksum(block)) ==> found
                == Found::Fail(Fault::Known(TarError::ChecksumMismatch))
            &&& found is Entry ==> left >= 512 && (octal_u32(block.subrange(148, 156)) matches Ok(
                sum,
            ) && sum == checksum(block)) && found->Entry_0.header == block && octal(
                block.subrange(124, 136),
            ) == Ok::<u64, TarError>(found->Entry_0.size)
        }),
{
    let next = at.walk.next as int;
    let block = obj.subrange(next, next + 512);
    let w = begun(at.walk, at.pos as u64).0;
    if obj.len() - next >= 512 {
        assert(after_fill(w, block) == raw_settled(w, block));
        if forall|k: int| 0 <= k < 512 ==> #[trigger] block[k] == 0 {
            assert(block =~= zeros(512));
        } else {
            let k = choose|k: int| 0 <= k < 512 && #[trigger] block[k] != 0;
            assert(zeros(512)[k] == 0);
            assert(block != zeros(512));
        }
    }
}

/// A block of zeros with another block behind it is refused, unless zeros are to be ignored.
pub proof fn law_lone_zero_block(w: Walk, block: Seq<u8>)
    requires
        w.buf == zeros(512) + block,
        block.len() == 512,
        exists|k: int| 0 <= k < 512 && #[trigger] block[k] != 0,
        !w.options.ignore_zeros,
    ensures
        settled(w).1 is Fail,
        settled(w).0.done,
{
    let k = choose|k: int| 0 <= k < 512 && #[trigger] block[k] != 0;
    assert(w.buf.take(512) =~= zeros(512));
    assert(w.buf.subrange(512, 1024) =~= block);
    assert(zeros(512)[k] == 0);
    assert(lone_zero_block(w.buf));
}

/// An archive that ends within the headers of an entry is refused, and one that ends before any of
/// them has ended.
pub proof fn law_cut_off(obj: Seq<u8>, at: Place, want: int)
    requires
        !at.walk.raw,
        !at.walk.options.ignore_zeros,
        0 < want,
    ensures
        at.pos >= obj.len() && at.walk.buf.len() == 0 ==> read_on(obj, at, want).1 is End,
        at.pos >= obj.len() && at.walk.buf.len() > 0 ==> read_on(obj, at, want).1 == Found::Fail(
            Fault::Known(TarError::UnexpectedEof),
        ),
        at.pos < obj.len() < at.pos + want ==> read_on(obj, at, want).1 == Found::Fail(
            Fault::Known(TarError::EofInBlock),
        ),
{
}

/// Entries with long names are the entries of the archive, but for the long name entries: each of
/// these gives the bytes that it holds to the entry behind it, and must have one.
pub proof fn law_long_names(obj: Seq<u8>, at: Place)
    ensures
        ({
            let (first, found) = look(obj, at);
            let (second, next) = look(obj, first);
            let (place, named) = look_named(obj, at);
            let is_name = found is Entry && type_of(found->Entry_0.header[156]) is GNULongName;
            &&& !is_name ==> place == first && match found {
                Found::Entry(e) => named == Named::Entry(e, None),
                Found::End => named is End,
                Found::Fail(f) => named == Named::Fail(f),
            }
            &&& is_name ==> place == second && match next {
                Found::Entry(e) => named == Named::Entry(
                    e,
                    Some(content(found->Entry_0.data, rest_of(obj, first.pos))),
                ),
                Found::End => named == Named::Fail(Fault::Known(TarError::LongnameNotFollowed)),
                Found::Fail(f) => named == Named::Fail(f),
            }
        }),
{
}

} // verus!
