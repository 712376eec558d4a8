//! Plain paths come back byte for byte.

use crate::archive_laws::{file_header, law_file_read_back, law_long_file_read_back};
use crate::builder::file_added;
use crate::bytes::{lemma_find_from_is, truncated};
use crate::entry::Options;
use crate::front_laws::reads_back;
use crate::header::{
    blank_gnu, header_link, header_link_stored, header_path, header_path_stored, is_ustar,
    HeaderMode, Metadata, S_IFDIR,
};
use crate::header_laws::{law_link_read_back, law_path_read_back};
use crate::path_laws::{are_names, law_plain_spelling, law_slashed, slash_between};
use crate::stored_path::law_path_stored;
use crate::walk_laws::read_path;
use vstd::prelude::*;

verus! {

/// Whether a field holds the given text: its bytes, and a nul behind them where there is room.
pub open spec fn holds(field: Seq<u8>, text: Seq<u8>) -> bool {
    &&& text.len() <= field.len()
    &&& forall|k: int| 0 <= k < text.len() ==> field[k] == #[trigger] text[k] && text[k] != 0
    &&& text.len() < field.len() ==> field[text.len() as int] == 0
}

proof fn lemma_holds(field: Seq<u8>, text: Seq<u8>)
    requires
        holds(field, text),
    ensures
        truncated(field) == text,
{
    assert forall|k: int| 0 <= k < text.len() implies field[k] != 0 by {
        assert(field[k] == text[k]);
    }
    lemma_find_from_is(field, 0, 0, text.len() as int);
    assert(truncated(field) =~= text);
}

/// A path without backslashes is read from a header as it stands in its fields, byte for byte: the
/// name, and in front of it the prefix and a slash, if a UStar header has a prefix.
pub proof fn law_path_as_stored(h: Seq<u8>, name: Seq<u8>, prefix: Seq<u8>)
    requires
        h.len() == 512,
        holds(h.subrange(0, 100), name),
        holds(h.subrange(345, 500), prefix),
        !name.contains(92u8),
        !prefix.contains(92u8),
    ensures
        !is_ustar(h) || prefix.len() == 0 ==> header_path(h) == name,
        is_ustar(h) && prefix.len() > 0 ==> header_path(h) == prefix + seq![47u8] + name,
{
    lemma_holds(h.subrange(0, 100), name);
    lemma_holds(h.subrange(345, 500), prefix);
    law_slashed(name);
    law_slashed(prefix);
    assert(prefix.push(47u8) + name =~= prefix + seq![47u8] + name);
}

/// A link name without backslashes is read from a header as it stands in its field, byte for byte.
/// There is none if the field is empty.
pub proof fn law_link_as_stored(h: Seq<u8>, link: Seq<u8>)
    requires
        h.len() == 512,
        holds(h.subrange(157, 257), link),
        !link.contains(92u8),
    ensures
        header_link(h) == if link.len() == 0 {
            None
        } else {
            Some(link)
        },
{
    lemma_holds(h.subrange(157, 257), link);
    law_slashed(link);
    assert(h.subrange(157, 257)[0] == h[157]);
    if link.len() > 0 {
        assert(link[0] != 0);
    }
}

/// A plain path without backslashes and nul bytes that has room in the name field can be set, and
/// is read back byte for byte. The same holds of a link name.
pub proof fn law_plain_read_back(h: Seq<u8>, names: Seq<Seq<u8>>)
    requires
        h.len() == 512,
        names.len() > 0,
        are_names(names),
        slash_between(names).len() <= 100,
        !slash_between(names).contains(0u8),
        !slash_between(names).contains(92u8),
    ensures
        header_path_stored(h, slash_between(names)).1 is Ok,
        header_path(header_path_stored(h, slash_between(names)).0) == slash_between(names),
        header_link_stored(h, slash_between(names)).1 is Ok,
        header_link(header_link_stored(h, slash_between(names)).0) == Some(slash_between(names)),
{
    let p = slash_between(names);
    law_slashed(p);
    law_plain_spelling(names, false);
    law_plain_spelling(names, true);
    law_path_stored(h.subrange(0, 100), p, false);
    law_path_stored(h.subrange(157, 257), p, true);
    law_path_read_back(h, p);
    law_link_read_back(h, p);
}

/// Whatever plain path without backslashes could be set, also one that was split, is read back byte
/// for byte.
pub proof fn law_plain_set_read_back(h: Seq<u8>, names: Seq<Seq<u8>>)
    requires
        h.len() == 512,
        names.len() > 0,
        are_names(names),
        !slash_between(names).contains(92u8),
        header_path_stored(h, slash_between(names)).1 is Ok,
    ensures
        header_path(header_path_stored(h, slash_between(names)).0) == slash_between(names),
{
    law_slashed(slash_between(names));
    law_plain_spelling(names, false);
    law_path_read_back(h, slash_between(names));
}

/// A file that is added under a plain path without backslashes comes back from an archive under that
/// path, byte for byte, however long it is; and its data comes back.
///
/// Left out are paths with a nul and paths that are longer than the parser allows.
pub proof fn law_plain_file_read_back(
    out: Seq<u8>,
    names: Seq<Seq<u8>>,
    meta: Metadata,
    data: Seq<u8>,
    mode: HeaderMode,
    rest: Seq<u8>,
    options: Options,
)
    requires
        names.len() > 0,
        are_names(names),
        slash_between(names).len() < 1048576,
        !slash_between(names).contains(0u8),
        !slash_between(names).contains(92u8),
        data.len() == if meta.file_type() == S_IFDIR {
            0
        } else {
            meta.len as int
        },
        data.len() < 8589934592,
        file_added(out, slash_between(names), meta, data, mode).0.len() <= u64::MAX,
        slash_between(names).len() <= 100 || file_added(
            out,
            slash_between(names),
            meta,
            data,
            mode,
        ).1 is Ok,
    ensures
        file_added(out, slash_between(names), meta, data, mode).1 is Ok,
        reads_back(
            file_added(out, slash_between(names), meta, data, mode).0 + rest,
            out.len() as int,
            options,
            file_header(slash_between(names), meta, mode),
            slash_between(names),
            None,
            data,
            file_added(out, slash_between(names), meta, data, mode).0.len() as int,
        ),
        read_path(slash_between(names)) == slash_between(names),
{
    let p = slash_between(names);
    law_slashed(p);
    law_plain_spelling(names, false);
    if p.len() <= 100 {
        law_file_read_back(out, p, meta, data, mode, rest, options);
    } else {
        law_path_stored(blank_gnu().subrange(0, 100), p, false);
        assert(p.contains(p[p.len() - 1]));
        law_long_file_read_back(out, p, meta, data, mode, rest, options);
    }
}

} // verus!
