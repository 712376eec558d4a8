//! Where the bytes of a sparse file stand.

use crate::archive_laws::{lemma_content_append, lemma_layout_content};
use crate::entry::{content, left_over, zeros, EntryIo};
use crate::machine::{layout, sparse_runs};
use crate::reader::filled;
use vstd::prelude::*;

verus! {

/// How many bytes the archive holds for the first `k` blocks of a sparse file.
pub open spec fn stored_before(map: Seq<(u64, u64)>, k: int) -> int
    decreases k,
{
    if k <= 0 {
        0
    } else {
        stored_before(map, k - 1) + map[k - 1].1
    }
}

/// Whether position `j` of a sparse file lies in a block.
pub open spec fn in_block(block: (u64, u64), j: int) -> bool {
    block.0 <= j < block.0 + block.1
}

/// Whether `bytes` are those of the blocks of a sparse file, one behind the other in `source`, and
/// zeros elsewhere.
pub open spec fn is_spread(bytes: Seq<u8>, map: Seq<(u64, u64)>, source: Seq<u8>) -> bool {
    &&& forall|k: int, j: int|
        0 <= k < map.len() && #[trigger] in_block(map[k], j) ==> j < bytes.len() && bytes[j]
            == source[stored_before(map, k) + (j - map[k].0)]
    &&& forall|j: int|
        0 <= j < bytes.len() && (forall|k: int|
            0 <= k < map.len() ==> !#[trigger] in_block(map[k], j)) ==> #[trigger] bytes[j] == 0
}

proof fn lemma_stored_before(a: Seq<(u64, u64)>, b: Seq<(u64, u64)>, k: int)
    requires
        0 <= k <= a.len(),
        a.is_prefix_of(b),
    ensures
        stored_before(a, k) == stored_before(b, k),
    decreases k,
{
    if k > 0 {
        lemma_stored_before(a, b, k - 1);
        assert(a[k - 1] == b[k - 1]);
    }
}

proof fn lemma_layout_spread(map: Seq<(u64, u64)>, on_disk: int, source: Seq<u8>)
    requires
        layout(map, on_disk) is Ok,
        0 <= on_disk <= source.len(),
    ensures
        is_spread(content(layout(map, on_disk)->Ok_0.data, source), map, source),
        layout(map, on_disk)->Ok_0.used == stored_before(map, map.len() as int),
    decreases map.len(),
{
    lemma_layout_content(map, on_disk, source);
    let all = layout(map, on_disk)->Ok_0;
    let bytes = content(all.data, source);
    if map.len() > 0 {
        let n = map.len() - 1;
        let front = map.drop_last();
        lemma_layout_content(front, on_disk, source);
        lemma_layout_spread(front, on_disk, source);
        let before = layout(front, on_disk)->Ok_0;
        let (offset, length) = map.last();
        let gap = if before.end < offset {
            seq![EntryIo::Pad((offset - before.end) as u64)]
        } else {
            Seq::empty()
        };
        let run = seq![EntryIo::Data(length)];
        let left = source.skip(before.used);
        let early = content(before.data, source);
        lemma_content_append(before.data, gap, source);
        lemma_content_append(before.data + gap, run, source);
        assert(content(gap, left) =~= Seq::new((offset - before.end) as nat, |k: int| 0u8)
            && left_over(gap, left) == left) by {
            reveal_with_fuel(content, 2);
            reveal_with_fuel(left_over, 2);
            if before.end < offset {
                assert(gap.skip(1) =~= Seq::empty());
            }
        }
        assert(content(run, left) =~= left.take(length as int)) by {
            reveal_with_fuel(content, 2);
            assert(run.skip(1) =~= Seq::empty());
        }
        assert(bytes =~= early + content(gap, left) + left.take(length as int));
        assert forall|k: int| 0 <= k <= n implies stored_before(front, k) == #[trigger] stored_before(
            map,
            k,
        ) by {
            lemma_stored_before(front, map, k);
        }
        assert forall|k: int, j: int|
            0 <= k < map.len() && #[trigger] in_block(map[k], j) implies j < bytes.len() && bytes[j]
            == source[stored_before(map, k) + (j - map[k].0)] by {
            if k < n {
                assert(front[k] == map[k]);
                assert(in_block(front[k], j));
                assert(bytes[j] == early[j]);
                assert(stored_before(front, k) == stored_before(map, k));
            } else {
                assert(stored_before(front, n) == stored_before(map, n));
                assert(bytes[j] == left[j - offset]);
            }
        }
        assert forall|j: int|
            0 <= j < bytes.len() && (forall|k: int|
                0 <= k < map.len() ==> !#[trigger] in_block(map[k], j)) implies #[trigger] bytes[j]
            == 0 by {
            assert(!in_block(map[n], j));
            if j < early.len() {
                assert forall|k: int| 0 <= k < front.len() implies !#[trigger] in_block(
                    front[k],
                    j,
                ) by {
                    assert(!in_block(map[k], j));
                }
                assert(early[j] == 0);
            }
        }
        assert(stored_before(front, n) == stored_before(map, n));
    }
}

/// A sparse file that can be laid out has each block where the list of blocks puts it, and zeros
/// between the blocks.
///
/// The bytes of the blocks stand one behind the other in the archive: those of a block follow
/// those of the blocks before it.
pub proof fn law_sparse_bytes(
    map: Seq<(u64, u64)>,
    real_size: u64,
    on_disk: u64,
    source: Seq<u8>,
)
    requires
        sparse_runs(map, real_size, on_disk) is Ok,
        on_disk <= source.len(),
    ensures
        ({
            let bytes = content(sparse_runs(map, real_size, on_disk)->Ok_0, source);
            &&& bytes.len() == real_size
            &&& stored_before(map, map.len() as int) == on_disk
            &&& forall|k: int, i: int|
                0 <= k < map.len() && 0 <= i < map[k].1 ==> #[trigger] bytes[map[k].0 + i]
                    == #[trigger] source[stored_before(map, k) + i]
            &&& forall|j: int|
                0 <= j < bytes.len() && (forall|k: int|
                    0 <= k < map.len() ==> !(#[trigger] map[k].0 <= j < map[k].0 + map[k].1))
                    ==> #[trigger] bytes[j] == 0
        }),
{
    lemma_layout_content(map, on_disk as int, source);
    lemma_layout_spread(map, on_disk as int, source);
    let bytes = content(sparse_runs(map, real_size, on_disk)->Ok_0, source);
    assert forall|k: int, i: int|
        0 <= k < map.len() && 0 <= i < map[k].1 implies #[trigger] bytes[map[k].0 + i]
        == #[trigger] source[stored_before(map, k) + i] by {
        assert(in_block(map[k], map[k].0 + i));
    }
    assert forall|j: int|
        0 <= j < bytes.len() && (forall|k: int|
            0 <= k < map.len() ==> !(#[trigger] map[k].0 <= j < map[k].0 + map[k].1))
        implies #[trigger] bytes[j] == 0 by {
        assert forall|k: int| 0 <= k < map.len() implies !#[trigger] in_block(map[k], j) by {
            assert(!(map[k].0 <= j < map[k].0 + map[k].1));
        }
    }
}

/// Whether the blocks of a sparse file stand in order, without overlapping, each with its bytes
/// at a whole block of the archive.
#[verifier::opaque]
pub open spec fn is_orderly(map: Seq<(u64, u64)>) -> bool {
    &&& forall|k: int| 0 <= k < map.len() ==> #[trigger] map[k].0 + map[k].1 <= u64::MAX
    &&& forall|a: int, b: int|
        0 <= a < b < map.len() ==> (#[trigger] map[a]).0 + map[a].1 <= (#[trigger] map[b]).0
    &&& forall|k: int|
        0 <= k < map.len() ==> #[trigger] map[k].1 == 0 || stored_before(map, k) % 512 == 0
}

proof fn lemma_orderly_front(map: Seq<(u64, u64)>)
    requires
        map.len() > 0,
        is_orderly(map),
    ensures
        is_orderly(map.drop_last()),
        map.last().0 + map.last().1 <= u64::MAX,
        map.len() > 1 ==> map.drop_last().last().0 + map.drop_last().last().1 <= map.last().0,
        map.last().1 == 0 || stored_before(map.drop_last(), map.len() - 1) % 512 == 0,
{
    reveal(is_orderly);
    let n = map.len() - 1;
    let front = map.drop_last();
    assert forall|k: int| 0 <= k < front.len() implies #[trigger] front[k].1 == 0 || stored_before(
        front,
        k,
    ) % 512 == 0 by {
        assert(front[k] == map[k]);
        lemma_stored_before(front, map, k);
    }
    assert forall|k: int| 0 <= k < front.len() implies #[trigger] front[k].0 + front[k].1
        <= u64::MAX by {
        assert(front[k] == map[k]);
    }
    assert forall|a: int, b: int| 0 <= a < b < front.len() implies (#[trigger] front[a]).0
        + front[a].1 <= (#[trigger] front[b]).0 by {
        assert(front[a] == map[a] && front[b] == map[b]);
    }
    lemma_stored_before(front, map, n);
    assert(map[n].1 == 0 || stored_before(map, n) % 512 == 0);
    if n > 0 {
        assert(map[n - 1].0 + map[n - 1].1 <= map[n].0);
    }
}

proof fn lemma_orderly_more(map: Seq<(u64, u64)>)
    requires
        map.len() > 0,
        is_orderly(map.drop_last()),
        map.last().0 + map.last().1 <= u64::MAX,
        map.len() > 1 ==> map.drop_last().last().0 + map.drop_last().last().1 <= map.last().0,
        map.last().1 == 0 || stored_before(map.drop_last(), map.len() - 1) % 512 == 0,
    ensures
        is_orderly(map),
{
    reveal(is_orderly);
    let n = map.len() - 1;
    let front = map.drop_last();
    lemma_stored_before(front, map, n);
    assert forall|a: int, b: int| 0 <= a < b < map.len() implies (#[trigger] map[a]).0 + map[a].1
        <= (#[trigger] map[b]).0 by {
        assert(front[a] == map[a]);
        if b < n {
            assert(front[b] == map[b]);
        } else {
            assert(front[n - 1] == map[n - 1]);
        }
    }
    assert forall|k: int| 0 <= k < map.len() implies #[trigger] map[k].1 == 0 || stored_before(
        map,
        k,
    ) % 512 == 0 by {
        if k < n {
            assert(front[k] == map[k]);
            lemma_stored_before(front, map, k);
        }
    }
    assert forall|k: int| 0 <= k < map.len() implies #[trigger] map[k].0 + map[k].1 <= u64::MAX by {
        if k < n {
            assert(front[k] == map[k]);
        }
    }
}

proof fn lemma_layout_orderly(map: Seq<(u64, u64)>, on_disk: int)
    requires
        0 <= on_disk,
    ensures
        layout(map, on_disk) is Ok <==> is_orderly(map) && stored_before(map, map.len() as int)
            <= on_disk,
        layout(map, on_disk) matches Ok(all) ==> all.used == stored_before(map, map.len() as int)
            && all.end == if map.len() == 0 {
            0
        } else {
            map.last().0 + map.last().1
        },
    decreases map.len(),
{
    if map.len() == 0 {
        reveal(is_orderly);
        assert(is_orderly(map));
    } else {
        let n = map.len() - 1;
        let front = map.drop_last();
        lemma_layout_orderly(front, on_disk);
        lemma_stored_before(front, map, n);
        reveal_with_fuel(stored_before, 2);
        if is_orderly(map) {
            lemma_orderly_front(map);
        }
        if layout(map, on_disk) is Ok {
            lemma_orderly_more(map);
        }
    }
}

/// A list of blocks is accepted exactly if the blocks stand in order without overlapping, each with
/// its bytes at a whole block of the archive, if the last one ends where the file does, and if they
/// use all bytes that the archive holds and no more.
pub proof fn law_sparse_accepted(map: Seq<(u64, u64)>, real_size: u64, on_disk: u64)
    ensures
        sparse_runs(map, real_size, on_disk) is Ok <==> {
            &&& forall|k: int| 0 <= k < map.len() ==> #[trigger] map[k].0 + map[k].1 <= u64::MAX
            &&& forall|a: int, b: int|
                0 <= a < b < map.len() ==> (#[trigger] map[a]).0 + map[a].1 <= (#[trigger] map[b]).0
            &&& forall|k: int|
                0 <= k < map.len() ==> #[trigger] map[k].1 == 0 || stored_before(map, k) % 512 == 0
            &&& stored_before(map, map.len() as int) == on_disk
            &&& real_size == if map.len() == 0 {
                0
            } else {
                map.last().0 + map.last().1
            }
        },
{
    reveal(is_orderly);
    lemma_layout_orderly(map, on_disk as int);
}

/// Whether the blocks from `i` on stand in order behind `from`, without overlapping, and end before
/// `size` does.
pub open spec fn are_apart(blocks: Seq<(u64, u64)>, i: int, from: int, size: int) -> bool {
    &&& forall|k: int| i <= k < blocks.len() ==> from <= (#[trigger] blocks[k]).0
    &&& forall|k: int| i <= k < blocks.len() ==> (#[trigger] blocks[k]).0 + blocks[k].1 <= size
    &&& forall|a: int, b: int|
        i <= a < b < blocks.len() ==> (#[trigger] blocks[a]).0 + blocks[a].1
            <= (#[trigger] blocks[b]).0
    &&& from <= size
}

proof fn lemma_stored_before_grows(map: Seq<(u64, u64)>, j: int, k: int)
    requires
        0 <= j <= k <= map.len(),
    ensures
        stored_before(map, j) <= stored_before(map, k),
    decreases k,
{
    if j < k {
        lemma_stored_before_grows(map, j, k - 1);
    }
}

proof fn lemma_filled_bytes(
    blocks: Seq<(u64, u64)>,
    i: int,
    from: int,
    size: int,
    data: Seq<u8>,
)
    requires
        0 <= i <= blocks.len(),
        are_apart(blocks, i, from, size),
        stored_before(blocks, blocks.len() as int) - stored_before(blocks, i) <= data.len(),
    ensures
        ({
            let r = filled(blocks, i, from, size, data);
            &&& r.len() == size - from
            &&& forall|k: int, j: int|
                i <= k < blocks.len() && #[trigger] in_block(blocks[k], j) ==> r[j - from]
                    == data[stored_before(blocks, k) - stored_before(blocks, i) + (j
                    - blocks[k].0)]
            &&& forall|j: int|
                from <= j < size && (forall|k: int|
                    i <= k < blocks.len() ==> !#[trigger] in_block(blocks[k], j)) ==> #[trigger] r[j
                    - from] == 0
        }),
    decreases blocks.len() - i,
{
    let r = filled(blocks, i, from, size, data);
    if i < blocks.len() {
        let (offset, length) = blocks[i];
        let end = offset + length;
        assert(blocks[i].0 + blocks[i].1 <= size);
        assert(are_apart(blocks, i + 1, end, size)) by {
            assert forall|k: int| i + 1 <= k < blocks.len() implies end <= (#[trigger] blocks[k]).0 by {
                assert(blocks[i].0 + blocks[i].1 <= blocks[k].0);
            }
        }
        reveal_with_fuel(stored_before, 2);
        assert(stored_before(blocks, i + 1) == stored_before(blocks, i) + length);
        lemma_stored_before_grows(blocks, i + 1, blocks.len() as int);
        let left = data.skip(length as int);
        lemma_filled_bytes(blocks, i + 1, end, size, left);
        let late = filled(blocks, i + 1, end, size, left);
        assert(r =~= zeros(offset - from) + data.take(length as int) + late);
        assert forall|k: int, j: int|
            i <= k < blocks.len() && #[trigger] in_block(blocks[k], j) implies r[j - from]
            == data[stored_before(blocks, k) - stored_before(blocks, i) + (j - blocks[k].0)] by {
            if k > i {
                assert(blocks[i].0 + blocks[i].1 <= blocks[k].0);
                assert(late[j - end] == r[j - from]);
                lemma_stored_before_grows(blocks, i + 1, k);
                lemma_stored_before_grows(blocks, k + 1, blocks.len() as int);
            }
        }
        assert forall|j: int|
            from <= j < size && (forall|k: int|
                i <= k < blocks.len() ==> !#[trigger] in_block(blocks[k], j)) implies #[trigger] r[j
            - from] == 0 by {
            assert(!in_block(blocks[i], j));
            if j >= end {
                assert(late[j - end] == 0);
            }
        }
    }
}

/// A sparse file that is read block by block has each block where the list of blocks puts it, and
/// zeros elsewhere, also behind the last block.
pub proof fn law_filled_bytes(blocks: Seq<(u64, u64)>, size: int, data: Seq<u8>)
    requires
        are_apart(blocks, 0, 0, size),
        stored_before(blocks, blocks.len() as int) <= data.len(),
    ensures
        ({
            let r = filled(blocks, 0, 0, size, data);
            &&& r.len() == size
            &&& forall|k: int, i: int|
                0 <= k < blocks.len() && 0 <= i < blocks[k].1 ==> #[trigger] r[blocks[k].0 + i]
                    == #[trigger] data[stored_before(blocks, k) + i]
            &&& forall|j: int|
                0 <= j < size && (forall|k: int|
                    0 <= k < blocks.len() ==> !(#[trigger] blocks[k].0 <= j < blocks[k].0
                        + blocks[k].1)) ==> #[trigger] r[j] == 0
        }),
{
    lemma_filled_bytes(blocks, 0, 0, size, data);
    let r = filled(blocks, 0, 0, size, data);
    assert forall|k: int, i: int|
        0 <= k < blocks.len() && 0 <= i < blocks[k].1 implies #[trigger] r[blocks[k].0 + i]
        == #[trigger] data[stored_before(blocks, k) + i] by {
        assert(in_block(blocks[k], blocks[k].0 + i));
    }
    assert forall|j: int|
        0 <= j < size && (forall|k: int|
            0 <= k < blocks.len() ==> !(#[trigger] blocks[k].0 <= j < blocks[k].0 + blocks[k].1))
        implies #[trigger] r[j] == 0 by {
        assert forall|k: int| 0 <= k < blocks.len() implies !#[trigger] in_block(blocks[k], j) by {
            assert(!(blocks[k].0 <= j < blocks[k].0 + blocks[k].1));
        }
        assert(r[j - 0] == 0);
    }
}

} // verus!
