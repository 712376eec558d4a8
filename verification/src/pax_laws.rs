//! What holds of pax extensions that are written in front of an entry and read back with it.

use crate::archive::{plain_ahead, rest_of};
use crate::archive_laws::lemma_one_run;
use crate::builder::{appended, pax_header};
use crate::bytes::slashed;
use crate::entry::{content, Options};
use crate::error::TarError;
use crate::front_laws::{law_front_read_back, lemma_described, pax_record, text_record};
use crate::header::{header_link, header_path, is_ustar};
use crate::machine::described_entry;
use crate::parser::{
    extended, is_ordinary, is_plain_pair, is_plain_pax, last_value, ordinary, pairs_in,
};
use crate::pax::{all_records, law_records_read_back, records};
use vstd::prelude::*;
use vstd::utf8::encode_utf8;

verus! {

/// Whether keys and values can be written as pax extensions and read back: none holds a newline,
/// and the parser refuses none.
pub open spec fn are_plain_pairs(list: Seq<(Seq<u8>, Seq<u8>)>) -> bool {
    forall|k: int|
        0 <= k < list.len() ==> is_plain_pair((#[trigger] list[k]).0, list[k].1)
            && !list[k].0.contains(10u8) && !list[k].1.contains(10u8)
}

/// Pax extensions hold the keys and values that were written.
proof fn lemma_pairs(list: Seq<(Seq<u8>, Seq<u8>)>)
    requires
        are_plain_pairs(list),
        all_records(list).len() <= 1048576,
    ensures
        pairs_in(all_records(list)) == list,
        is_plain_pax(all_records(list)),
        records(Some(all_records(list))) == list.map_values(
            |kv: (Seq<u8>, Seq<u8>)| Ok::<(Seq<u8>, Seq<u8>), TarError>(kv),
        ),
{
    law_records_read_back(list);
    assert(pairs_in(all_records(list)) =~= list);
}

/// Pax extensions that were added in front of an entry are read back with it, key by key and
/// value by value, whatever follows.
///
/// The entry has the path of its header unless a path is among the extensions, and the size
/// of its header unless a size is; its data is read back, and where the next entry stands.
/// A path or a link name among the extensions is that of the entry, unless it is empty or ends in
/// a nul, or the path is the name in a UStar header with a prefix.
/// Left out are pairs that the parser refuses, keys of sparse files, newlines, and more than
/// the parser allows.
pub proof fn law_pax_read_back(
    out: Seq<u8>,
    list: Seq<(Seq<u8>, Seq<u8>)>,
    h: Seq<u8>,
    data: Seq<u8>,
    rest: Seq<u8>,
    options: Options,
)
    requires
        are_plain_pairs(list),
        all_records(list).len() <= 1048576,
        is_ordinary(h),
        extended(ordinary(h), all_records(list)).size == data.len(),
        ({
            let text = all_records(list);
            appended(appended(out, pax_header(text.len() as int), text), h, data).len() <= u64::MAX
        }),
    ensures
        ({
            let text = all_records(list);
            let added = appended(appended(out, pax_header(text.len() as int), text), h, data);
            &&& plain_ahead(added + rest, out.len() as int) matches Some((n, d))
            &&& described_entry((out.len() + n) as u64, n, d, options) matches Ok((e, behind))
            &&& e.pax_extensions == Some(text)
            &&& records(e.pax_extensions) == list.map_values(
                |kv: (Seq<u8>, Seq<u8>)| Ok::<(Seq<u8>, Seq<u8>), TarError>(kv),
            )
            &&& last_value(list, encode_utf8("path"@)) is None ==> e.path() == header_path(h)
            &&& last_value(list, encode_utf8("path"@)) matches Some(p) ==> (p.len() > 0 && p.last()
                != 0 && (!is_ustar(h) || h[345] == 0) ==> e.path() == slashed(p))
            &&& last_value(list, encode_utf8("linkpath"@)) is None ==> e.link() == header_link(h)
            &&& last_value(list, encode_utf8("linkpath"@)) matches Some(l) ==> (l.len() > 0
                && l.last() != 0 ==> e.link() == Some(slashed(l)))
            &&& e.size == data.len()
            &&& content(e.data, rest_of(added + rest, out.len() + n)) == data
            &&& behind == added.len()
        }),
{
    let text = all_records(list);
    let front = pax_record(Some(text)) + text_record(None, 76) + text_record(None, 75);
    let n = front.len() + 512int;
    let added = appended(appended(out, pax_header(text.len() as int), text), h, data);
    let d = extended(ordinary(h), text);
    lemma_pairs(list);
    assert(added =~= appended(out + front, h, data));
    law_front_read_back(out, Some(text), None, None, h, data, rest);
    lemma_one_run(data, rest_of(added + rest, out.len() + n));
    lemma_described(d, (out.len() + n) as u64, n, options);
}

} // verus!
