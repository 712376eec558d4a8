//! The bytes of a file that is made of runs.

use crate::archive_laws::lemma_content_append;
use crate::bytes::slashed;
use crate::entry::{
    content, front, is_complete, least, left_over, lemma_content_data, lemma_content_pad, next_run,
    taken, without_nul, zeros, EntryIo, EntryView, Run,
};
use crate::header::{header_link, header_path};
use crate::path_laws::law_slashed;
use vstd::prelude::*;

verus! {

/// The length of a run.
pub open spec fn run_length(run: EntryIo) -> int {
    match run {
        EntryIo::Pad(n) => n as int,
        EntryIo::Data(n) => n as int,
    }
}

/// Where run `k` starts in the file: behind all runs before it.
pub open spec fn run_start(data: Seq<EntryIo>, k: int) -> int
    decreases k,
{
    if k <= 0 {
        0
    } else {
        run_start(data, k - 1) + run_length(data[k - 1])
    }
}

/// Where the bytes of run `k` start in the archive: behind those of all runs before it that are no
/// zeros.
pub open spec fn run_source(data: Seq<EntryIo>, k: int) -> int
    decreases k,
{
    if k <= 0 {
        0
    } else {
        run_source(data, k - 1) + match data[k - 1] {
            EntryIo::Pad(_) => 0int,
            EntryIo::Data(n) => n as int,
        }
    }
}

proof fn lemma_run_sums(a: Seq<EntryIo>, b: Seq<EntryIo>, k: int)
    requires
        0 <= k <= a.len(),
        a.is_prefix_of(b),
    ensures
        run_start(a, k) == run_start(b, k),
        run_source(a, k) == run_source(b, k),
        0 <= run_source(a, k) <= run_start(a, k),
    decreases k,
{
    if k > 0 {
        lemma_run_sums(a, b, k - 1);
        assert(a[k - 1] == b[k - 1]);
    }
}

proof fn lemma_run_sums_grow(data: Seq<EntryIo>, j: int, k: int)
    requires
        0 <= j <= k <= data.len(),
    ensures
        run_start(data, j) <= run_start(data, k),
        run_source(data, j) <= run_source(data, k),
    decreases k,
{
    if j < k {
        lemma_run_sums_grow(data, j, k - 1);
    }
}

proof fn lemma_complete_append(a: Seq<EntryIo>, b: Seq<EntryIo>, source: Seq<u8>)
    requires
        is_complete(a, source),
    ensures
        is_complete(a + b, source) == is_complete(b, left_over(a, source)),
    decreases a.len(),
{
    if a.len() == 0 {
        assert(a + b =~= b);
    } else {
        assert((a + b).skip(1) =~= a.skip(1) + b);
        match a[0] {
            EntryIo::Pad(_) => {
                lemma_complete_append(a.skip(1), b, source);
            },
            EntryIo::Data(n) => {
                assert(least(n as int, source.len() as int) == n);
                lemma_complete_append(a.skip(1), b, source.skip(n as int));
            },
        }
    }
}

proof fn lemma_incomplete_append(a: Seq<EntryIo>, b: Seq<EntryIo>, source: Seq<u8>)
    requires
        !is_complete(a, source),
    ensures
        !is_complete(a + b, source),
    decreases a.len(),
{
    if a.len() > 0 {
        assert((a + b).skip(1) =~= a.skip(1) + b);
        match a[0] {
            EntryIo::Pad(_) => {
                lemma_incomplete_append(a.skip(1), b, source);
            },
            EntryIo::Data(n) => {
                if n <= source.len() {
                    lemma_incomplete_append(a.skip(1), b, source.skip(n as int));
                }
            },
        }
    }
}

/// What the runs of a file stand for.
spec fn is_made_of(bytes: Seq<u8>, data: Seq<EntryIo>, source: Seq<u8>) -> bool {
    &&& bytes.len() == run_start(data, data.len() as int)
    &&& forall|k: int, i: int|
        0 <= k < data.len() && 0 <= i < run_length(data[k]) ==> #[trigger] bytes[run_start(data, k)
            + i] == match data[k] {
            EntryIo::Pad(_) => 0u8,
            EntryIo::Data(_) => source[run_source(data, k) + i],
        }
}

proof fn lemma_made_of(data: Seq<EntryIo>, source: Seq<u8>)
    ensures
        is_complete(data, source) <==> run_source(data, data.len() as int) <= source.len(),
        is_complete(data, source) ==> is_made_of(content(data, source), data, source),
        is_complete(data, source) ==> left_over(data, source) == source.skip(
            run_source(data, data.len() as int),
        ),
    decreases data.len(),
{
    reveal_with_fuel(content, 2);
    reveal_with_fuel(left_over, 2);
    reveal_with_fuel(is_complete, 2);
    let bytes = content(data, source);
    if data.len() == 0 {
        assert(source.skip(0) =~= source);
    } else {
        let n = data.len() - 1;
        let front = data.drop_last();
        let last = seq![data.last()];
        assert(data =~= front + last);
        assert(last.skip(1) =~= Seq::empty());
        lemma_made_of(front, source);
        lemma_run_sums(front, data, n);
        lemma_run_sums_grow(data, n, n + 1);
        if !is_complete(front, source) {
            lemma_incomplete_append(front, last, source);
        } else {
            lemma_complete_append(front, last, source);
            lemma_content_append(front, last, source);
            let left = left_over(front, source);
            assert(is_complete(data, source) == is_complete(last, left));
            if is_complete(data, source) {
                let early = content(front, source);
                let late = content(last, left);
                assert(late.len() == run_length(data[n]));
                assert(bytes =~= early + late);
                assert(left_over(data, source) =~= source.skip(run_source(data, n + 1)));
                assert forall|k: int, i: int|
                    0 <= k < data.len() && 0 <= i < run_length(data[k]) implies
                    #[trigger] bytes[run_start(data, k) + i] == match data[k] {
                    EntryIo::Pad(_) => 0u8,
                    EntryIo::Data(_) => source[run_source(data, k) + i],
                } by {
                    if k < n {
                        lemma_run_sums(front, data, k);
                        lemma_run_sums(front, data, k + 1);
                        lemma_run_sums_grow(front, k + 1, n);
                        assert(front[k] == data[k]);
                        assert(early[run_start(front, k) + i] == bytes[run_start(data, k) + i]);
                    } else {
                        assert(bytes[run_start(data, n) + i] == late[i]);
                    }
                }
            }
        }
    }
}

/// A file that is made of runs has them one behind the other: zeros where a run is to be filled up,
/// and elsewhere the bytes of the archive, none left out and none read twice. The archive holds all
/// of them exactly if it is as long as the runs that it holds bytes for.
pub proof fn law_content_in_runs(data: Seq<EntryIo>, source: Seq<u8>)
    ensures
        is_complete(data, source) <==> run_source(data, data.len() as int) <= source.len(),
        is_complete(data, source) ==> {
            &&& content(data, source).len() == run_start(data, data.len() as int)
            &&& left_over(data, source) == source.skip(run_source(data, data.len() as int))
            &&& forall|k: int, i: int|
                0 <= k < data.len() && 0 <= i < run_length(data[k]) ==> #[trigger] content(
                    data,
                    source,
                )[run_start(data, k) + i] == match data[k] {
                    EntryIo::Pad(_) => 0u8,
                    EntryIo::Data(_) => source[run_source(data, k) + i],
                }
        },
{
    lemma_made_of(data, source);
}

/// One nul is cut from the end of a long name, and nothing else: a name without a nul at its end
/// stays as it is.
pub proof fn law_nul_cut(name: Seq<u8>)
    ensures
        without_nul(name.push(0u8)) == name,
        name.len() == 0 || name.last() != 0 ==> without_nul(name) == name,
{
    assert(name.push(0u8).drop_last() =~= name);
}

/// What is asked for next of a file is the start of its bytes, and what is noted as read is then
/// behind: zeros need nothing of the archive, and bytes are those that it holds next.
pub proof fn law_runs_taken(data: Seq<EntryIo>, source: Seq<u8>, room: int, k: int)
    requires
        0 < room <= usize::MAX,
    ensures
        content(front(data, room), source) == content(data, source),
        match next_run(front(data, room), room) {
            Run::End => content(data, source).len() == 0,
            Run::Zeros(n) => 0 < n <= room && (0 < k <= n ==> content(data, source) == Seq::new(
                k as nat,
                |i: int| 0u8,
            ) + content(taken(front(data, room), k), source)),
            Run::Bytes(n) => 0 < n <= room && (0 < k <= n && k <= source.len() ==> content(
                data,
                source,
            ) == source.take(k) + content(taken(front(data, room), k), source.skip(k))),
        },
    decreases data.len(),
{
    if data.len() > 0 {
        let rest = data.skip(1);
        match data[0] {
            EntryIo::Pad(n) => {
                if n == 0 {
                    law_runs_taken(rest, source, room, k);
                    assert(zeros(0) + content(rest, source) =~= content(rest, source));
                } else if 0 < k <= least(n as int, room) {
                    lemma_content_pad(data, source, n, k);
                }
            },
            EntryIo::Data(n) => {
                if n == 0 {
                    law_runs_taken(rest, source, room, k);
                    assert(source.skip(0) =~= source);
                    assert(source.take(0) + content(rest, source) =~= content(rest, source));
                } else if 0 < k <= least(n as int, room) && k <= source.len() {
                    lemma_content_data(data, source, n, k);
                }
            },
        }
    }
}

/// The path of an entry is its long name, if it has one, and the path in its header otherwise; and so
/// is its link name. A long name is taken without the nul at its end.
pub proof fn law_entry_names(e: EntryView)
    ensures
        e.long_pathname is None ==> e.path() == header_path(e.header),
        e.long_linkname is None ==> e.link() == header_link(e.header) && e.link_bytes()
            == header_link(e.header),
        e.long_pathname matches Some(name) ==> (!name.contains(92u8) ==> (name.len() > 0
            && name.last() == 0 ==> e.path() == name.drop_last()) && (name.len() == 0 || name.last()
            != 0 ==> e.path() == name)),
        e.long_linkname matches Some(name) ==> (name.len() > 0 && name.last() == 0 ==> e.link_bytes()
            == Some(name.drop_last())) && (name.len() == 0 || name.last() != 0 ==> e.link_bytes()
            == Some(name)),
        e.long_linkname matches Some(name) ==> (!name.contains(92u8) ==> e.link() == e.link_bytes()),
{
    if let Some(name) = e.long_pathname {
        lemma_cut_name(name);
    }
    if let Some(name) = e.long_linkname {
        lemma_cut_name(name);
    }
}

proof fn lemma_cut_name(name: Seq<u8>)
    ensures
        !name.contains(92u8) ==> slashed(without_nul(name)) == without_nul(name),
{
    law_slashed(without_nul(name));
    if !name.contains(92u8) && without_nul(name).contains(92u8) {
        let k = choose|k: int| 0 <= k < without_nul(name).len() && without_nul(name)[k] == 92;
        assert(name[k] == 92);
    }
}

} // verus!
