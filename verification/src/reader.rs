//! Sparse files, read as if they had no holes.

use crate::entry::{least, zeros};
use crate::entry_type::EntryType;
use crate::error::TarError;
use vstd::prelude::*;
use vstd::slice::slice_subrange;

verus! {

/// A sparse file whose holes are read as zeros.
pub struct Sparse<'a> {
    /// The bytes of the blocks that are still to be read.
    pub data: &'a [u8],
    /// The offsets and lengths of the blocks.
    pub blocks: Vec<(u64, u64)>,
    /// The block that is read from, or the next one.
    pub block: usize,
    /// How much of the file was read.
    pub position: u64,
    /// The size of the file.
    pub size: u64,
}

/// The data of a file.
pub enum Reader<'a> {
    /// A file that is not sparse: its bytes, and how many of them are still to be read.
    Normal(&'a [u8], u64),
    /// A sparse file.
    Sparse(Sparse<'a>),
}

/// Whether none of the blocks from `i` on ends before the one in front of it, which ends at
/// `from`, nor behind `size`.
pub open spec fn in_order(blocks: Seq<(u64, u64)>, i: int, from: int, size: int) -> bool
    decreases blocks.len() - i,
{
    if i >= blocks.len() {
        from <= size
    } else {
        from <= blocks[i].0 + blocks[i].1 && in_order(
            blocks,
            i + 1,
            blocks[i].0 + blocks[i].1,
            size,
        )
    }
}

/// The bytes of a sparse file from block `i` on, when `from` bytes come before: zeros up to each
/// block and behind the last, and the bytes of the blocks as far as there are any.
///
/// A block that starts in front of where the one before it ends has only the bytes behind that.
pub open spec fn filled(
    blocks: Seq<(u64, u64)>,
    i: int,
    from: int,
    size: int,
    data: Seq<u8>,
) -> Seq<u8>
    decreases blocks.len() - i, 1int,
{
    if i >= blocks.len() {
        zeros(size - from)
    } else if from <= blocks[i].0 {
        zeros(blocks[i].0 - from) + filled_block(blocks, i, blocks[i].1 as int, size, data)
    } else {
        filled_block(blocks, i, blocks[i].0 + blocks[i].1 - from, size, data)
    }
}

/// The bytes of a sparse file from the last `left` bytes of block `i` on.
pub open spec fn filled_block(
    blocks: Seq<(u64, u64)>,
    i: int,
    left: int,
    size: int,
    data: Seq<u8>,
) -> Seq<u8>
    decreases blocks.len() - i, 0int,
{
    if i >= blocks.len() || left > data.len() {
        data
    } else {
        data.take(left) + filled(blocks, i + 1, blocks[i].0 + blocks[i].1, size, data.skip(left))
    }
}

impl<'a> Sparse<'a> {
    /// Whether the blocks that are left stand in order, behind what was read.
    pub open spec fn wf(self) -> bool {
        self.block <= self.blocks@.len() && in_order(
            self.blocks@,
            self.block as int,
            self.position as int,
            self.size as int,
        )
    }

    /// The bytes that are still to be read.
    pub open spec fn rest(self) -> Seq<u8> {
        filled(
            self.blocks@,
            self.block as int,
            self.position as int,
            self.size as int,
            self.data@,
        )
    }
}

impl<'a> Reader<'a> {
    /// Whether the blocks of a sparse file stand in order.
    pub open spec fn wf(self) -> bool {
        match self {
            Reader::Normal(_, _) => true,
            Reader::Sparse(s) => s.wf(),
        }
    }

    /// The bytes that are still to be read.
    pub open spec fn rest(self) -> Seq<u8> {
        match self {
            Reader::Normal(data, left) => data@.take(least(left as int, data@.len() as int)),
            Reader::Sparse(s) => s.rest(),
        }
    }
}

proof fn lemma_zeros_split(n: int, k: int)
    requires
        0 <= k <= n,
    ensures
        zeros(k) + zeros(n - k) == zeros(n),
{
    assert(zeros(k) + zeros(n - k) =~= zeros(n));
}

/// Reading a part of a block leaves the rest of the block.
proof fn lemma_block_part(
    blocks: Seq<(u64, u64)>,
    i: int,
    left: int,
    size: int,
    data: Seq<u8>,
    k: int,
)
    requires
        0 <= i < blocks.len(),
        0 <= k <= left,
        k <= data.len(),
    ensures
        filled_block(blocks, i, left, size, data) == data.take(k) + filled_block(
            blocks,
            i,
            left - k,
            size,
            data.skip(k),
        ),
{
    let a = filled_block(blocks, i, left, size, data);
    let rest = data.skip(k);
    if left > data.len() {
        assert(a =~= data.take(k) + rest);
    } else {
        assert(rest.skip(left - k) =~= data.skip(left));
        let tail = filled(blocks, i + 1, blocks[i].0 + blocks[i].1, size, data.skip(left));
        assert(data.take(left) + tail =~= data.take(k) + (rest.take(left - k) + tail));
    }
}

/// A block that is read to its end leaves what stands behind it.
proof fn lemma_block_end(blocks: Seq<(u64, u64)>, i: int, size: int, data: Seq<u8>)
    requires
        0 <= i < blocks.len(),
    ensures
        filled_block(blocks, i, 0, size, data) == filled(
            blocks,
            i + 1,
            blocks[i].0 + blocks[i].1,
            size,
            data,
        ),
{
    assert(data.skip(0) =~= data);
    let tail = filled(blocks, i + 1, blocks[i].0 + blocks[i].1, size, data);
    assert(data.take(0) + tail =~= tail);
}

proof fn lemma_in_order_end(blocks: Seq<(u64, u64)>, i: int, from: int, size: int)
    requires
        0 <= i,
        in_order(blocks, i, from, size),
    ensures
        from <= size,
    decreases blocks.len() - i,
{
    if i < blocks.len() {
        lemma_in_order_end(blocks, i + 1, blocks[i].0 + blocks[i].1, size);
    }
}

/// Writes zeros to a part of a buffer.
pub(crate) fn zero_at(into: &mut [u8], at: usize, n: usize)
    requires
        at + n <= old(into)@.len(),
    ensures
        final(into)@ == old(into)@.take(at as int) + zeros(n as int) + old(into)@.skip(at + n),
{
    let ghost before = into@;
    let room: usize = into.len();
    let mut i: usize = 0;
    while i < n
        invariant
            i <= n,
            room == into@.len(),
            at + n <= room,
            before.len() == into@.len(),
            into@ =~= before.take(at as int) + zeros(i as int) + before.skip(at + i),
        decreases n - i,
    {
        into[at + i] = 0;
        i = i + 1;
    }
}

/// Writes bytes to a part of a buffer.
pub(crate) fn fill_at(into: &mut [u8], at: usize, bytes: &[u8])
    requires
        at + bytes@.len() <= old(into)@.len(),
    ensures
        final(into)@ == old(into)@.take(at as int) + bytes@ + old(into)@.skip(at + bytes@.len()),
{
    let ghost before = into@;
    let room: usize = into.len();
    let mut i: usize = 0;
    while i < bytes.len()
        invariant
            i <= bytes@.len(),
            room == into@.len(),
            at + bytes@.len() <= room,
            before.len() == into@.len(),
            into@ =~= before.take(at as int) + bytes@.take(i as int) + before.skip(at + i),
        decreases bytes@.len() - i,
    {
        into[at + i] = bytes[i];
        i = i + 1;
    }
    assert(bytes@.take(i as int) =~= bytes@);
}

impl<'a> Sparse<'a> {
    /// Takes up to `most` bytes of the data.
    fn take_data(&mut self, most: usize) -> (r: &'a [u8])
        ensures
            r@ == old(self).data@.take(least(most as int, old(self).data@.len() as int)),
            final(self).data@ == old(self).data@.skip(
                least(most as int, old(self).data@.len() as int),
            ),
            final(self).blocks@ == old(self).blocks@,
            final(self).block == old(self).block,
            final(self).position == old(self).position,
            final(self).size == old(self).size,
    {
        let data: &'a [u8] = self.data;
        let k: usize = if most < data.len() {
            most
        } else {
            data.len()
        };
        let r: &'a [u8] = slice_subrange(data, 0, k);
        self.data = slice_subrange(data, k, data.len());
        assert(r@ =~= data@.take(k as int));
        assert(self.data@ =~= data@.skip(k as int));
        r
    }

    /// Reads zeros, of the gap before a block or behind the last one.
    fn read_zeros(&mut self, into: &mut [u8], at: usize, left: u64) -> (n: usize)
        requires
            old(self).wf(),
            at <= old(into)@.len(),
            ({
                let b = old(self).block as int;
                let list = old(self).blocks@;
                let p = old(self).position as int;
                if b < list.len() {
                    p <= list[b].0 && left == list[b].0 - p
                } else {
                    left == old(self).size - p
                }
            }),
        ensures
            n == least(old(into)@.len() - at, left as int),
            final(self).wf(),
            final(self).blocks@ == old(self).blocks@,
            final(self).block == old(self).block,
            final(self).position == old(self).position + n,
            final(into)@ == old(into)@.take(at as int) + zeros(n as int) + old(into)@.skip(at + n),
            old(self).rest() == zeros(n as int) + final(self).rest(),
            old(self).rest().take(n as int) == zeros(n as int),
    {
        let ghost rest = self.rest();
        let room: usize = into.len() - at;
        let n: usize = if (room as u64) < left {
            room
        } else {
            left as usize
        };
        proof {
            lemma_in_order_end(self.blocks@, self.block as int, self.position as int, self.size as int);
            if self.block < self.blocks@.len() {
                let o = self.blocks@[self.block as int];
                lemma_in_order_end(self.blocks@, self.block + 1, o.0 + o.1, self.size as int);
            }
        }
        zero_at(into, at, n);
        self.position = self.position + n as u64;
        proof {
            lemma_zeros_split(left as int, n as int);
            let b = self.block as int;
            let list = self.blocks@;
            if b < list.len() {
                let tail = filled_block(list, b, list[b].1 as int, self.size as int, self.data@);
                assert(zeros(n as int) + (zeros(left - n) + tail) =~= zeros(left as int) + tail);
            }
            assert(rest == zeros(n as int) + self.rest());
            assert(rest.take(n as int) =~= zeros(n as int));
        }
        n
    }

    /// Reads bytes of the block that the position stands in, and says whether more can follow.
    fn read_block(&mut self, into: &mut [u8], at: usize) -> (r: (usize, bool))
        requires
            old(self).wf(),
            at < old(into)@.len(),
            old(self).block < old(self).blocks@.len(),
            old(self).blocks@[old(self).block as int].0 <= old(self).position,
        ensures
            final(self).wf(),
            final(self).blocks@ == old(self).blocks@,
            at + r.0 <= old(into)@.len(),
            old(self).rest().len() == r.0 + final(self).rest().len(),
            old(self).rest() == old(self).rest().take(r.0 as int) + final(self).rest(),
            final(into)@ == old(into)@.take(at as int) + old(self).rest().take(r.0 as int) + old(
                into,
            )@.skip(at + r.0),
            !r.1 ==> final(self).rest().len() == 0 && final(self).block == old(self).block,
            r.1 ==> at + r.0 == old(into)@.len() || final(self).block == old(self).block + 1,
    {
        let ghost list = self.blocks@;
        let ghost b = self.block as int;
        let ghost size = self.size as int;
        let ghost data = self.data@;
        let ghost p = self.position as int;
        let count: usize = self.blocks.len();
        let (off, len) = self.blocks[self.block];
        proof {
            lemma_in_order_end(list, b + 1, off + len, size);
        }
        let left: u64 = len - (self.position - off);
        let room: usize = into.len() - at;
        let most: usize = if (room as u64) < left {
            room
        } else {
            left as usize
        };
        assert(self.rest() == filled_block(list, b, left as int, size, data)) by {
            if p == off {
                let tail = filled_block(list, b, len as int, size, data);
                assert(zeros(0) + tail =~= tail);
            }
        }
        let ghost rest = self.rest();
        let bytes: &'a [u8] = self.take_data(most);
        let k: usize = bytes.len();
        fill_at(into, at, bytes);
        self.position = self.position + k as u64;
        proof {
            lemma_block_part(list, b, left as int, size, data, k as int);
        }
        if k as u64 == left {
            assert(self.block < count);
            self.block = self.block + 1;
            proof {
                lemma_block_end(list, b, size, self.data@);
            }
            assert(rest == bytes@ + self.rest());
            assert(rest.take(k as int) =~= bytes@);
            (k, true)
        } else {
            assert(self.rest() == filled_block(list, b, left - k, size, self.data@)) by {
                if p + k == off {
                    let tail = filled_block(list, b, len as int, size, self.data@);
                    assert(zeros(0) + tail =~= tail);
                }
            }
            assert(rest == bytes@ + self.rest());
            assert(rest.take(k as int) =~= bytes@);
            (k, k == most)
        }
    }

    /// Reads as many bytes as the buffer has room for, as far as there are any.
    fn read(&mut self, into: &mut [u8]) -> (r: usize)
        requires
            old(self).wf(),
        ensures
            final(self).wf(),
            r == least(old(into)@.len() as int, old(self).rest().len() as int),
            final(self).rest() == old(self).rest().skip(r as int),
            final(into)@ == old(self).rest().take(r as int) + old(into)@.skip(r as int),
    {
        let ghost goal = self.rest();
        let ghost before = into@;
        let room: usize = into.len();
        let mut done: usize = 0;
        let mut more: bool = true;
        assert(into@.take(0) + goal =~= goal);
        while done < room && more
            invariant
                done <= room == into@.len(),
                before.len() == room,
                self.wf(),
                into@.take(done as int) + self.rest() == goal,
                into@.skip(done as int) == before.skip(done as int),
                !more ==> self.rest().len() == 0,
            decreases room - done, self.blocks@.len() - self.block + (if more { 1int } else { 0 }),
        {
            let ghost now = into@;
            let ghost rest = self.rest();
            if self.block >= self.blocks.len() {
                let left: u64 = self.left();
                let n: usize = self.read_zeros(into, done, left);
                proof {
                    lemma_done(into@, now, before, goal, n as int, rest, self.rest(), done as int);
                }
                done = done + n;
                more = n as u64 != left;
            } else if self.blocks[self.block].0 > self.position {
                let left: u64 = self.blocks[self.block].0 - self.position;
                let n: usize = self.read_zeros(into, done, left);
                proof {
                    lemma_done(into@, now, before, goal, n as int, rest, self.rest(), done as int);
                }
                done = done + n;
            } else {
                let (n, m) = self.read_block(into, done);
                proof {
                    lemma_done(into@, now, before, goal, n as int, rest, self.rest(), done as int);
                }
                done = done + n;
                more = m;
            }
        }
        proof {
            let rest = self.rest();
            let t = into@.take(done as int);
            assert(goal.len() == done + rest.len());
            assert((t + rest).skip(done as int) =~= rest);
            assert((t + rest).take(done as int) =~= t);
            assert(into@ =~= t + into@.skip(done as int));
        }
        done
    }

    /// How many bytes stand behind the last block.
    fn left(&self) -> (r: u64)
        requires
            self.wf(),
            self.block >= self.blocks@.len(),
        ensures
            r == self.size - self.position,
    {
        self.size - self.position
    }
}

/// Bytes that were read go from what is to be read to the buffer.
proof fn lemma_done(
    into: Seq<u8>,
    now: Seq<u8>,
    before: Seq<u8>,
    goal: Seq<u8>,
    n: int,
    rest: Seq<u8>,
    left: Seq<u8>,
    done: int,
)
    requires
        0 <= done,
        0 <= n <= rest.len(),
        done + n <= now.len() == before.len(),
        into == now.take(done) + rest.take(n) + now.skip(done + n),
        now.take(done) + rest == goal,
        rest == rest.take(n) + left,
        now.skip(done) == before.skip(done),
    ensures
        into.take(done + n) + left == goal,
        into.skip(done + n) == before.skip(done + n),
{
    assert(into.take(done + n) =~= now.take(done) + rest.take(n));
    assert(into.take(done + n) + left =~= now.take(done) + (rest.take(n) + left));
    assert(into.skip(done + n) =~= now.skip(done).skip(n));
    assert(before.skip(done + n) =~= before.skip(done).skip(n));
}

impl<'a> Reader<'a> {
    /// Starts to read the data of a file that stands at the front of `data`.
    ///
    /// No block of a sparse file may end before the one in front of it, nor behind the file.
    pub fn new(
        typ: EntryType,
        data: &'a [u8],
        sparse_chunks: Vec<(u64, u64)>,
        file_size: u64,
    ) -> (r: Reader<'a>)
        requires
            typ == EntryType::GNUSparse ==> in_order(sparse_chunks@, 0, 0, file_size as int),
        ensures
            r.wf(),
            r.rest() == if typ == EntryType::GNUSparse {
                filled(sparse_chunks@, 0, 0, file_size as int, data@)
            } else {
                data@.take(least(file_size as int, data@.len() as int))
            },
    {
        match typ {
            EntryType::GNUSparse => Reader::Sparse(
                Sparse { data, blocks: sparse_chunks, block: 0, position: 0, size: file_size },
            ),
            _ => Reader::Normal(data, file_size),
        }
    }

    /// Reads as many bytes as the buffer has room for, as far as there are any.
    ///
    /// A sparse file is read as if it had no holes: what is absent is zero. That is not the
    /// best way to unpack a file, but it is right for whoever goes through its bytes.
    pub fn read(&mut self, into: &mut [u8]) -> (r: Result<usize, TarError>)
        requires
            old(self).wf(),
        ensures
            final(self).wf(),
            ({
                let n = least(old(into)@.len() as int, old(self).rest().len() as int);
                &&& r matches Ok(m) && m == n
                &&& final(self).rest() == old(self).rest().skip(n)
                &&& final(into)@ == old(self).rest().take(n) + old(into)@.skip(n)
            }),
    {
        match self {
            Reader::Normal(data, left) => {
                let ghost start = data@;
                let ghost before = into@;
                let room: usize = into.len();
                let most: usize = if *left < room as u64 {
                    *left as usize
                } else {
                    room
                };
                let k: usize = if most < data.len() {
                    most
                } else {
                    data.len()
                };
                let all: &'a [u8] = *data;
                let bytes: &'a [u8] = slice_subrange(all, 0, k);
                fill_at(into, 0, bytes);
                *data = slice_subrange(all, k, all.len());
                let ghost rest = start.take(least(*left as int, start.len() as int));
                *left = *left - k as u64;
                assert(bytes@ =~= rest.take(k as int));
                assert(data@.take(least(*left as int, data@.len() as int)) =~= rest.skip(k as int));
                assert(into@ =~= rest.take(k as int) + before.skip(k as int));
                Ok(k)
            },
            Reader::Sparse(s) => Ok(s.read(into)),
        }
    }
}

proof fn lemma_filled_len(
    blocks: Seq<(u64, u64)>,
    i: int,
    from: int,
    size: int,
    data: Seq<u8>,
)
    requires
        0 <= i,
        in_order(blocks, i, from, size),
        block_bytes(blocks, i) <= data.len(),
    ensures
        filled(blocks, i, from, size, data).len() == size - from,
    decreases blocks.len() - i,
{
    if i < blocks.len() {
        let left = if from <= blocks[i].0 {
            blocks[i].1 as int
        } else {
            blocks[i].0 + blocks[i].1 - from
        };
        lemma_block_bytes(blocks, i + 1);
        lemma_in_order_end(blocks, i + 1, blocks[i].0 + blocks[i].1, size);
        lemma_filled_len(blocks, i + 1, blocks[i].0 + blocks[i].1, size, data.skip(left));
    }
}

/// How many bytes the blocks from `i` on hold.
pub open spec fn block_bytes(blocks: Seq<(u64, u64)>, i: int) -> int
    decreases blocks.len() - i,
{
    if i >= blocks.len() {
        0
    } else {
        blocks[i].1 + block_bytes(blocks, i + 1)
    }
}

proof fn lemma_block_bytes(blocks: Seq<(u64, u64)>, i: int)
    requires
        0 <= i,
    ensures
        block_bytes(blocks, i) >= 0,
    decreases blocks.len() - i,
{
    if i < blocks.len() {
        lemma_block_bytes(blocks, i + 1);
    }
}

/// A sparse file is read with exactly its size, if all bytes of its blocks are there.
pub proof fn law_filled_size(blocks: Seq<(u64, u64)>, size: int, data: Seq<u8>)
    requires
        in_order(blocks, 0, 0, size),
        block_bytes(blocks, 0) <= data.len(),
    ensures
        filled(blocks, 0, 0, size, data).len() == size,
{
    lemma_filled_len(blocks, 0, 0, size, data);
}

} // verus!
