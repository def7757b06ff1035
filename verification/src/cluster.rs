//! Clusters: ordered lists of blocks that hold one stream of bytes each,
//! their run-length encoding, and the readers and writers that make the
//! blocks of a cluster look like one stream.

use vstd::prelude::*;
use crate::block::Block;
use crate::bitmap::{
    after_allocations, allocations, free_count, lemma_allocations_ascend,
    lemma_allocations_compose, lemma_allocations_keep, lemma_allocations_step,
    lemma_allocations_taken, lemma_first_free_unique, lemma_free_index_counts,
    lemma_full_free_count, Bitmap,
};
use crate::error::Error;
use crate::memory::{
    can_hold, grown, lemma_missing_pages, lemma_zeros_len, missing_pages, overwrite, Memory,
    MemoryReader, MemoryWriter, SeekFrom,
};
use crate::serde::{
    be_bytes, be_value, decode_joined, lemma_be_bytes_of_value, lemma_be_round_trip,
    lemma_pow256_8, read_be, write_be, Blank, Deserialize, RoundTrip, Serialize,
};

verus! {

/// The bit that marks the first word of a run of several blocks.
pub const RUN_FLAG: usize = 0x8000_0000;

/// A run of blocks with consecutive indices: the index of the first and the
/// number of blocks.
pub struct Run {
    pub start: int,
    pub len: int,
}

/// The runs that `blocks` fall into when they are taken in order and a block
/// joins the run before it exactly where its index is one more than that of
/// the block before it.
pub open spec fn runs(blocks: Seq<Block>) -> Seq<Run>
    decreases blocks.len(),
{
    if blocks.len() == 0 {
        Seq::empty()
    } else {
        let before = runs(blocks.drop_last());
        let index = blocks.last().index as int;
        if before.len() > 0 && before.last().start + before.last().len == index {
            before.drop_last().push(Run { start: before.last().start, len: before.last().len + 1 })
        } else {
            before.push(Run { start: index, len: 1 })
        }
    }
}

/// The blocks of a run, in order.
pub open spec fn run_blocks(run: Run) -> Seq<Block> {
    Seq::new(run.len as nat, |i: int| Block { index: (run.start + i) as usize })
}

/// The blocks of `runs`, run after run.
pub open spec fn expand(runs: Seq<Run>) -> Seq<Block>
    decreases runs.len(),
{
    if runs.len() == 0 {
        Seq::empty()
    } else {
        expand(runs.drop_last()) + run_blocks(runs.last())
    }
}

/// The bytes that a run is written as: a single block as its index in four
/// bytes, a longer run as its first index with the highest bit set, then its
/// length, four bytes each.
pub open spec fn run_encoding(run: Run) -> Seq<u8> {
    if run.len == 1 {
        be_bytes(run.start as nat, 4)
    } else {
        be_bytes((run.start + RUN_FLAG) as nat, 4) + be_bytes(run.len as nat, 4)
    }
}

/// The encodings of `runs`, one after the other.
pub open spec fn runs_encoding(runs: Seq<Run>) -> Seq<u8>
    decreases runs.len(),
{
    if runs.len() == 0 {
        Seq::empty()
    } else {
        runs_encoding(runs.drop_last()) + run_encoding(runs.last())
    }
}

/// The blocks that `count` runs read from the front of `input` stand for, and
/// the number of bytes the runs take. A run that ends past index `2^32` does
/// not decode.
pub open spec fn decode_runs(input: Seq<u8>, count: nat) -> Option<(Seq<Block>, nat)>
    decreases count,
{
    if count == 0 {
        Some((Seq::empty(), 0))
    } else if input.len() < 4 {
        None
    } else {
        let word = be_value(input.take(4)) as int;
        if word < RUN_FLAG {
            match decode_runs(input.skip(4), (count - 1) as nat) {
                None => None,
                Some((rest, n)) => Some((run_blocks(Run { start: word, len: 1 }) + rest, 4 + n)),
            }
        } else if input.len() < 8 {
            None
        } else {
            let len = be_value(input.subrange(4, 8)) as int;
            if word - RUN_FLAG + len > 0x1_0000_0000 {
                None
            } else {
                match decode_runs(input.skip(8), (count - 1) as nat) {
                    None => None,
                    Some((rest, n)) => Some(
                        (run_blocks(Run { start: word - RUN_FLAG, len }) + rest, 8 + n),
                    ),
                }
            }
        }
    }
}

/// An ordered list of blocks that together hold one stream of bytes: byte `k`
/// of the stream is byte `k % 512` of the block at place `k / 512` of the list.
#[derive(Debug, PartialEq)]
pub struct Cluster {
    blocks: Vec<Block>,
}

impl View for Cluster {
    type V = Seq<Block>;

    /// The blocks of the cluster, in order.
    closed spec fn view(&self) -> Seq<Block> {
        self.blocks@
    }
}

impl DeepView for Cluster {
    type V = Seq<Block>;

    open spec fn deep_view(&self) -> Seq<Block> {
        self@
    }
}

impl Default for Cluster {
    /// A cluster without blocks.
    fn default() -> (cluster: Self)
        ensures
            cluster@ == Seq::<Block>::empty(),
    {
        Cluster { blocks: Vec::new() }
    }
}

impl Cluster {
    /// The number of bytes the cluster's blocks hold.
    pub open spec fn extent(&self) -> int {
        512 * (self@.len() as int)
    }

    /// Adds `block` at the end of the cluster.
    pub fn extend(&mut self, block: Block)
        ensures
            final(self)@ == old(self)@.push(block),
    {
        self.blocks.push(block);
    }

    /// The blocks of the cluster, in order.
    pub fn blocks(&self) -> (blocks: &[Block])
        ensures
            blocks@ == self@,
    {
        self.blocks.as_slice()
    }

    /// The number of bytes the cluster's blocks hold.
    pub fn len(&self) -> (len: usize)
        requires
            self.extent() <= usize::MAX,
        ensures
            len == self.extent(),
    {
        Block::SIZE * self.blocks.len()
    }
}

/// The runs that pairs of a first index and a length stand for.
pub open spec fn as_runs(ranges: Seq<(usize, usize)>) -> Seq<Run> {
    Seq::new(ranges.len(), |k: int| Run { start: ranges[k].0 as int, len: ranges[k].1 as int })
}

/// Whether a list of blocks has an encoding: whether the index of each block
/// is below `2^31` and the number of its runs fits in four bytes.
pub open spec fn blocks_encodable(blocks: Seq<Block>) -> bool {
    &&& forall|i: int| 0 <= i < blocks.len() ==> (#[trigger] blocks[i]).index < RUN_FLAG
    &&& runs(blocks).len() <= u32::MAX
}

/// The bytes a list of blocks is written as: the number of its runs in four
/// bytes, then the runs in order.
pub open spec fn blocks_encoding(blocks: Seq<Block>) -> Seq<u8> {
    be_bytes(runs(blocks).len(), 4) + runs_encoding(runs(blocks))
}

impl Serialize for Cluster {
    open spec fn encodable(&self) -> bool {
        blocks_encodable(self@)
    }

    open spec fn encoding(&self) -> Seq<u8> {
        blocks_encoding(self@)
    }

    fn serialize(&self, w: &mut Vec<u8>) -> (r: Result<usize, Error>) {
        let mut ranges: Vec<(usize, usize)> = Vec::new();
        let mut i: usize = 0;
        while i < self.blocks.len()
            invariant
                i <= self@.len(),
                w@ == old(w)@,
                as_runs(ranges@) == runs(self@.take(i as int)),
                forall|j: int| 0 <= j < i ==> (#[trigger] self@[j]).index < RUN_FLAG,
                forall|k: int|
                    0 <= k < ranges@.len() ==> 1 <= (#[trigger] ranges@[k]).1 && ranges@[k].0
                        + ranges@[k].1 <= RUN_FLAG,
            decreases self@.len() - i,
        {
            let block = self.blocks[i];
            if block.index >= RUN_FLAG {
                return Err(Error::InvalidInput);
            }
            let ghost before = ranges@;
            let n = ranges.len();
            if n > 0 && ranges[n - 1].0 + ranges[n - 1].1 == block.index {
                let (start, len) = ranges[n - 1];
                ranges[n - 1] = (start, len + 1);
            } else {
                ranges.push((block.index, 1));
            }
            proof {
                assert(self@.take(i + 1).drop_last() =~= self@.take(i as int));
                assert(as_runs(before).len() == n);
                if n > 0 {
                    assert(as_runs(before).last() == Run {
                        start: before[n - 1].0 as int,
                        len: before[n - 1].1 as int,
                    });
                }
                assert(as_runs(ranges@) =~= runs(self@.take(i + 1)));
            }
            i = i + 1;
        }
        proof {
            assert(self@.take(i as int) =~= self@);
        }
        if ranges.len() > u32::MAX as usize {
            return Err(Error::InvalidInput);
        }
        let start = w.len();
        write_be(w, ranges.len() as u64, 4);
        let mut k: usize = 0;
        while k < ranges.len()
            invariant
                k <= ranges@.len(),
                start == old(w)@.len(),
                w@ == old(w)@ + be_bytes(ranges@.len(), 4) + runs_encoding(
                    as_runs(ranges@).take(k as int),
                ),
                forall|k: int|
                    0 <= k < ranges@.len() ==> 1 <= (#[trigger] ranges@[k]).1 && ranges@[k].0
                        + ranges@[k].1 <= RUN_FLAG,
            decreases ranges@.len() - k,
        {
            let (first, len) = ranges[k];
            if len == 1 {
                write_be(w, first as u64, 4);
            } else {
                write_be(w, (first + RUN_FLAG) as u64, 4);
                write_be(w, len as u64, 4);
            }
            proof {
                let all = as_runs(ranges@);
                assert(all.take(k + 1).drop_last() =~= all.take(k as int));
                assert(all.take(k + 1).last() == Run { start: first as int, len: len as int });
                assert(w@ =~= old(w)@ + be_bytes(ranges@.len(), 4) + runs_encoding(all.take(k + 1)));
            }
            k = k + 1;
        }
        proof {
            assert(as_runs(ranges@).take(k as int) =~= as_runs(ranges@));
            assert(w@ =~= old(w)@ + self.encoding());
        }
        Ok(w.len() - start)
    }
}

impl Deserialize for Cluster {
    /// The number of runs in four bytes, then the runs in order. The blocks
    /// read are added behind those of `before`.
    open spec fn decode(before: Seq<Block>, input: Seq<u8>) -> Option<(Seq<Block>, nat)> {
        if input.len() < 4 {
            None
        } else {
            match decode_runs(input.skip(4), be_value(input.take(4))) {
                None => None,
                Some((blocks, n)) => Some((before + blocks, 4 + n)),
            }
        }
    }

    fn deserialize(&mut self, r: &[u8]) -> (res: Result<usize, Error>) {
        if r.len() < 4 {
            return Err(Error::InvalidInput);
        }
        let count = read_be(vstd::slice::slice_subrange(r, 0, 4));
        let start = self.blocks.len();
        let ghost before = self@;
        let ghost whole = decode_runs(r@.skip(4), count as nat);
        let mut used: usize = 4;
        let mut i: u64 = 0;
        proof {
            assert(r@.subrange(0, 4) =~= r@.take(4));
            assert(self@.skip(start as int) =~= Seq::empty());
        }
        while i < count
            invariant
                i <= count,
                4 <= used <= r@.len(),
                start == before.len(),
                before == old(self)@,
                self@.len() >= start,
                self@.take(start as int) == before,
                count == be_value(r@.take(4)),
                whole == decode_runs(r@.skip(4), count as nat),
                whole == decode_joined(
                    self@.skip(start as int),
                    (used - 4) as nat,
                    decode_runs(r@.skip(used as int), (count - i) as nat),
                ),
            decreases count - i,
        {
            let ghost input = r@.skip(used as int);
            let ghost done = self@;
            if r.len() - used < 4 {
                self.blocks.truncate(start);
                proof {
                    assert(self@ =~= before);
                }
                return Err(Error::InvalidInput);
            }
            let word = read_be(vstd::slice::slice_subrange(r, used, used + 4));
            proof {
                assert(r@.subrange(used as int, used + 4) =~= input.take(4));
                lemma_be_bytes_of_value(input.take(4));
                lemma_pow256_8();
            }
            if word < RUN_FLAG as u64 {
                self.blocks.push(Block::at(word as usize));
                proof {
                    assert(input.skip(4) =~= r@.skip(used + 4));
                    let run = run_blocks(Run { start: word as int, len: 1 });
                    assert(run =~= seq![Block { index: word as usize }]);
                    assert(self@.skip(start as int) =~= done.skip(start as int) + run);
                    if let Some((rest, n)) = decode_runs(
                        r@.skip(used + 4),
                        (count - i - 1) as nat,
                    ) {
                        assert(done.skip(start as int) + (run + rest) =~= self@.skip(start as int)
                            + rest);
                    }
                    assert(self@.take(start as int) =~= before);
                }
                used = used + 4;
            } else {
                if r.len() - used < 8 {
                    self.blocks.truncate(start);
                    proof {
                        assert(self@ =~= before);
                    }
                    return Err(Error::InvalidInput);
                }
                let len = read_be(vstd::slice::slice_subrange(r, used + 4, used + 8));
                let first = word - RUN_FLAG as u64;
                proof {
                    assert(r@.subrange(used + 4, used + 8) =~= input.subrange(4, 8));
                    lemma_be_bytes_of_value(input.subrange(4, 8));
                }
                if len > 0x1_0000_0000 - first {
                    self.blocks.truncate(start);
                    proof {
                        assert(self@ =~= before);
                    }
                    return Err(Error::InvalidInput);
                }
                let ghost run = run_blocks(Run { start: first as int, len: len as int });
                let mut j: u64 = 0;
                while j < len
                    invariant
                        j <= len,
                        first + len <= 0x1_0000_0000,
                        run == run_blocks(Run { start: first as int, len: len as int }),
                        self@ == done + run.take(j as int),
                    decreases len - j,
                {
                    self.blocks.push(Block::at((first + j) as usize));
                    proof {
                        assert(self@ =~= done + run.take(j + 1));
                    }
                    j = j + 1;
                }
                proof {
                    assert(run.take(len as int) =~= run);
                    assert(input.skip(8) =~= r@.skip(used + 8));
                    assert(self@.skip(start as int) =~= done.skip(start as int) + run);
                    if let Some((rest, n)) = decode_runs(
                        r@.skip(used + 8),
                        (count - i - 1) as nat,
                    ) {
                        assert(done.skip(start as int) + (run + rest) =~= self@.skip(start as int)
                            + rest);
                    }
                    assert(self@.take(start as int) =~= before);
                }
                used = used + 8;
            }
            i = i + 1;
        }
        proof {
            assert(before + self@.skip(start as int) =~= self@);
        }
        Ok(used)
    }
}

impl Blank for Cluster {
    open spec fn blank() -> Seq<Block> {
        Seq::empty()
    }

    proof fn default_is_blank(d: Self) {
        assert(call_ensures(Cluster::default, (), d) ==> d@ == Seq::<Block>::empty());
    }
}

/// Whether a run can be written: it holds a block at least and ends at
/// index `2^31` at the latest.
pub open spec fn run_fits(run: Run) -> bool {
    0 <= run.start && 1 <= run.len && run.start + run.len <= RUN_FLAG
}

/// The runs of blocks with indices below `2^31` can be written, and they
/// expand to the blocks again, in the same order.
pub proof fn lemma_runs_expand(blocks: Seq<Block>)
    requires
        forall|i: int| 0 <= i < blocks.len() ==> (#[trigger] blocks[i]).index < RUN_FLAG,
    ensures
        expand(runs(blocks)) == blocks,
        runs(blocks).len() <= blocks.len(),
        forall|k: int| 0 <= k < runs(blocks).len() ==> run_fits(#[trigger] runs(blocks)[k]),
    decreases blocks.len(),
{
    if blocks.len() > 0 {
        let front = blocks.drop_last();
        let block = blocks.last();
        lemma_runs_expand(front);
        let before = runs(front);
        let after = runs(blocks);
        assert(blocks =~= front.push(block));
        if before.len() > 0 && before.last().start + before.last().len == block.index {
            let grown = Run { start: before.last().start, len: before.last().len + 1 };
            assert(after == before.drop_last().push(grown));
            assert(after.drop_last() =~= before.drop_last());
            assert(run_fits(before[before.len() - 1]));
            assert(run_blocks(grown) =~= run_blocks(before.last()).push(block));
            assert(expand(after) =~= expand(before.drop_last()) + run_blocks(grown));
            assert(expand(before) =~= expand(before.drop_last()) + run_blocks(before.last()));
            assert(expand(after) =~= blocks);
        } else {
            let single = Run { start: block.index as int, len: 1 };
            assert(after == before.push(single));
            assert(after.drop_last() =~= before);
            assert(run_blocks(single) =~= seq![block]);
            assert(expand(after) =~= blocks);
        }
    }
}

/// The encodings and the blocks of runs begin with those of the first run.
pub proof fn lemma_runs_front(first: Run, rest: Seq<Run>)
    ensures
        runs_encoding(seq![first] + rest) == run_encoding(first) + runs_encoding(rest),
        expand(seq![first] + rest) == run_blocks(first) + expand(rest),
    decreases rest.len(),
{
    let all = seq![first] + rest;
    assert(runs_encoding(all) == runs_encoding(all.drop_last()) + run_encoding(all.last()));
    assert(expand(all) == expand(all.drop_last()) + run_blocks(all.last()));
    if rest.len() == 0 {
        assert(all.drop_last() =~= Seq::<Run>::empty());
        assert(all.last() == first);
        assert(runs_encoding(all) =~= run_encoding(first) + runs_encoding(rest));
        assert(expand(all) =~= run_blocks(first) + expand(rest));
    } else {
        assert(all.drop_last() =~= seq![first] + rest.drop_last());
        assert(all.last() == rest.last());
        lemma_runs_front(first, rest.drop_last());
        assert(runs_encoding(rest) == runs_encoding(rest.drop_last()) + run_encoding(rest.last()));
        assert(expand(rest) == expand(rest.drop_last()) + run_blocks(rest.last()));
        assert(runs_encoding(all) =~= run_encoding(first) + runs_encoding(rest));
        assert(expand(all) =~= run_blocks(first) + expand(rest));
    }
}

/// Runs that can be written are read back from their encodings, whatever
/// follows them.
pub proof fn lemma_runs_round_trip(list: Seq<Run>, rest: Seq<u8>)
    requires
        forall|k: int| 0 <= k < list.len() ==> run_fits(#[trigger] list[k]),
    ensures
        decode_runs(runs_encoding(list) + rest, list.len()) == Some(
            (expand(list), runs_encoding(list).len()),
        ),
    decreases list.len(),
{
    if list.len() == 0 {
        assert(expand(list) =~= Seq::empty());
    } else {
        let first = list[0];
        let tail = list.drop_first();
        assert(list =~= seq![first] + tail);
        assert(run_fits(first));
        lemma_runs_front(first, tail);
        let after = runs_encoding(tail) + rest;
        let input = runs_encoding(list) + rest;
        assert(input =~= run_encoding(first) + after);
        crate::serde::lemma_pow256_8();
        lemma_runs_round_trip(tail, rest);
        if first.len == 1 {
            lemma_be_round_trip(first.start as nat, 4, after);
        } else {
            let second = be_bytes(first.len as nat, 4) + after;
            lemma_be_round_trip((first.start + RUN_FLAG) as nat, 4, second);
            lemma_be_round_trip(first.len as nat, 4, after);
            assert(input =~= be_bytes((first.start + RUN_FLAG) as nat, 4) + second);
            assert(input.subrange(4, 8) =~= second.take(4));
            assert(input.skip(8) =~= second.skip(4));
        }
    }
}

/// Reading runs looks at no more than eight bytes for each run: the runs read
/// from the first `m` bytes of `input` are those read from all of it, where
/// `m` is eight times `count` at least, or the length of `input`.
pub proof fn lemma_decode_runs_window(input: Seq<u8>, count: nat, m: int)
    requires
        0 <= m <= input.len(),
        m >= 8 * count || m == input.len(),
    ensures
        decode_runs(input.take(m), count) == decode_runs(input, count),
    decreases count,
{
    let front = input.take(m);
    if m == input.len() {
        assert(front =~= input);
    } else if count > 0 {
        assert(front.take(4) =~= input.take(4));
        assert(front.subrange(4, 8) =~= input.subrange(4, 8));
        assert(front.skip(4) =~= input.skip(4).take(m - 4));
        assert(front.skip(8) =~= input.skip(8).take(m - 8));
        lemma_decode_runs_window(input.skip(4), (count - 1) as nat, m - 4);
        lemma_decode_runs_window(input.skip(8), (count - 1) as nat, m - 8);
    }
}

/// Writing a cluster and reading it back keeps the blocks and their order:
/// reading from the encoding of `cluster`, whatever follows it, adds the
/// blocks of `cluster` behind those of `before`, in the same order, and takes
/// the encoding's length.
pub proof fn lemma_cluster_round_trip(blocks: Seq<Block>, before: Seq<Block>, rest: Seq<u8>)
    requires
        blocks_encodable(blocks),
    ensures
        Cluster::decode(before, blocks_encoding(blocks) + rest) == Some(
            (before + blocks, blocks_encoding(blocks).len()),
        ),
{
    let list = runs(blocks);
    lemma_runs_expand(blocks);
    crate::serde::lemma_pow256_8();
    lemma_be_round_trip(list.len(), 4, runs_encoding(list) + rest);
    lemma_runs_round_trip(list, rest);
    assert(blocks_encoding(blocks) + rest =~= be_bytes(list.len(), 4) + (runs_encoding(list)
        + rest));
}

impl RoundTrip for Cluster {
    proof fn lemma_round_trip(&self, rest: Seq<u8>) {
        lemma_cluster_round_trip(self@, Seq::empty(), rest);
        assert(Seq::<Block>::empty() + self@ =~= self@);
    }
}

/// The offset in the store of byte `k` of the stream that `blocks` hold.
pub open spec fn place(blocks: Seq<Block>, k: int) -> int {
    blocks[k / 512].index * 512 + k % 512
}

/// Whether the stream that `blocks` hold in a store of bytes `mem` has a byte `k`.
pub open spec fn stream_has(mem: Seq<u8>, blocks: Seq<Block>, k: int) -> bool {
    0 <= k && k / 512 < blocks.len() && place(blocks, k) < mem.len()
}

/// Byte `k` of the stream that `blocks` hold in a store of bytes `mem`.
pub open spec fn stream_byte(mem: Seq<u8>, blocks: Seq<Block>, k: int) -> u8 {
    mem[place(blocks, k)]
}

/// Whether `after` is `before` with its first `n` bytes replaced by the `n`
/// bytes of the stream from byte `at` on, all of which the stream has.
pub open spec fn stream_filled(
    mem: Seq<u8>,
    blocks: Seq<Block>,
    at: int,
    before: Seq<u8>,
    after: Seq<u8>,
    n: int,
) -> bool {
    &&& 0 <= n <= before.len()
    &&& after.len() == before.len()
    &&& forall|k: int| at <= k < at + n ==> #[trigger] stream_has(mem, blocks, k)
    &&& forall|i: int|
        #![trigger after[i]]
        0 <= i < after.len() ==> after[i] == if i < n {
            stream_byte(mem, blocks, at + i)
        } else {
            before[i]
        }
}

/// Whether `data` is what the stream holds from byte `from` on, and the stream
/// has all those bytes.
pub open spec fn stream_range(mem: Seq<u8>, blocks: Seq<Block>, from: int, data: Seq<u8>) -> bool {
    &&& forall|k: int| from <= k < from + data.len() ==> #[trigger] stream_has(mem, blocks, k)
    &&& forall|i: int|
        #![trigger data[i]]
        0 <= i < data.len() ==> data[i] == stream_byte(mem, blocks, from + i)
}

/// Whether the stream that `blocks` hold in a store of bytes `mem` has the
/// `len` bytes from byte `from` on.
pub open spec fn stream_holds(mem: Seq<u8>, blocks: Seq<Block>, from: int, len: int) -> bool {
    forall|k: int| from <= k < from + len ==> #[trigger] stream_has(mem, blocks, k)
}

/// The `len` bytes from byte `from` on of the stream that `blocks` hold in a
/// store of bytes `mem`.
pub open spec fn stream_bytes(mem: Seq<u8>, blocks: Seq<Block>, from: int, len: int) -> Seq<u8> {
    Seq::new(len as nat, |i: int| stream_byte(mem, blocks, from + i))
}

/// Whether the stream that `blocks` hold in a store of bytes `mem` ends at
/// byte `n`: it has every byte before it, and not this one.
pub open spec fn ends_at(mem: Seq<u8>, blocks: Seq<Block>, n: int) -> bool {
    0 <= n && stream_holds(mem, blocks, 0, n) && !stream_has(mem, blocks, n)
}

/// The number of bytes of the stream that `blocks` hold in a store of bytes
/// `mem`: the stream ends where the cluster ends, or the store.
pub open spec fn stream_end(mem: Seq<u8>, blocks: Seq<Block>) -> int {
    choose|n: int| ends_at(mem, blocks, n)
}

/// All the bytes of the stream that `blocks` hold in a store of bytes `mem`.
pub open spec fn whole_stream(mem: Seq<u8>, blocks: Seq<Block>) -> Seq<u8> {
    stream_bytes(mem, blocks, 0, stream_end(mem, blocks))
}

/// A stream ends at one place only.
pub proof fn lemma_stream_end(mem: Seq<u8>, blocks: Seq<Block>, n: int)
    requires
        ends_at(mem, blocks, n),
    ensures
        stream_end(mem, blocks) == n,
{
    let m = stream_end(mem, blocks);
    assert(ends_at(mem, blocks, m));
    if m < n {
        assert(stream_has(mem, blocks, m));
    } else if n < m {
        assert(stream_has(mem, blocks, n));
    }
}

/// A stream that has its first `k` bytes ends at `k` or behind it, and within
/// its cluster.
pub proof fn lemma_stream_ends_from(mem: Seq<u8>, blocks: Seq<Block>, k: int)
    requires
        0 <= k <= 512 * blocks.len(),
        stream_holds(mem, blocks, 0, k),
    ensures
        exists|n: int| k <= n <= 512 * blocks.len() && #[trigger] ends_at(mem, blocks, n),
    decreases 512 * blocks.len() - k,
{
    if stream_has(mem, blocks, k) {
        assert forall|i: int| 0 <= i < k + 1 implies #[trigger] stream_has(mem, blocks, i) by {
            if i < k {
                assert(stream_has(mem, blocks, i));
            }
        }
        lemma_stream_ends_from(mem, blocks, k + 1);
    } else {
        assert(ends_at(mem, blocks, k));
    }
}

/// Every stream ends: at the end of its cluster, or where the store ends
/// before that.
pub proof fn lemma_stream_ends(mem: Seq<u8>, blocks: Seq<Block>)
    ensures
        ends_at(mem, blocks, stream_end(mem, blocks)),
        0 <= stream_end(mem, blocks) <= 512 * blocks.len(),
{
    lemma_stream_ends_from(mem, blocks, 0);
    let n = choose|n: int| 0 <= n <= 512 * blocks.len() && #[trigger] ends_at(mem, blocks, n);
    lemma_stream_end(mem, blocks, n);
}

/// The number of bytes that one read or write moves at offset `at` of a
/// stream when `wanted` bytes are asked for: no more than the block at `at`
/// has left.
pub open spec fn chunk_len(at: int, wanted: int) -> int {
    if wanted < 512 - at % 512 {
        wanted
    } else {
        512 - at % 512
    }
}

/// Bytes that the block at offset `at` still has room for lie in that block.
pub proof fn lemma_same_block(at: int, i: int)
    requires
        0 <= at,
        0 <= i,
        at % 512 + i < 512,
    ensures
        (at + i) / 512 == at / 512,
        (at + i) % 512 == at % 512 + i,
{
}

/// Computes where a seek leads in a stream over `blocks` blocks.
fn seek_target(pos: SeekFrom, current: usize, blocks: usize) -> (r: Result<usize, Error>)
    ensures
        pos.lands(current as int, 512 * blocks) ==> r == Ok::<usize, Error>(
            pos.target(current as int, 512 * blocks) as usize,
        ),
        !pos.lands(current as int, 512 * blocks) ==> r == Err::<usize, Error>(Error::InvalidInput),
{
    let target: i128 = match pos {
        SeekFrom::Start(offset) => offset as i128,
        SeekFrom::Current(delta) => current as i128 + delta as i128,
        SeekFrom::End(delta) => 512 * (blocks as i128) + delta as i128,
    };
    if target < 0 || target > usize::MAX as i128 {
        Err(Error::InvalidInput)
    } else {
        Ok(target as usize)
    }
}

/// A seekable reader over the stream that a cluster holds.
pub struct ClusterReader<'a, R> {
    pub cluster: &'a Cluster,
    pub reader: R,
    /// The offset in the stream at which the next read starts.
    pub offset: usize,
}

impl Cluster {
    /// A reader over the cluster's stream, with its cursor at offset zero,
    /// which reads the store through `reader`.
    pub fn reader<'a, R>(&'a self, reader: R) -> (r: ClusterReader<'a, R>)
        ensures
            r.cluster == self,
            r.reader == reader,
            r.offset == 0,
    {
        ClusterReader { cluster: self, reader, offset: 0 }
    }
}

impl<'a, R> ClusterReader<'a, R> {
    /// Moves the cursor. A position below zero, or one that a `usize` cannot
    /// hold, is refused as `InvalidInput`. The end of the stream is the end of
    /// the cluster's last block.
    pub fn seek(&mut self, pos: SeekFrom) -> (r: Result<u64, Error>)
        ensures
            final(self).cluster == old(self).cluster,
            final(self).reader == old(self).reader,
            pos.lands(old(self).offset as int, old(self).cluster.extent()) ==> r == Ok::<
                u64,
                Error,
            >(pos.target(old(self).offset as int, old(self).cluster.extent()) as u64)
                && final(self).offset == pos.target(
                old(self).offset as int,
                old(self).cluster.extent(),
            ),
            !pos.lands(old(self).offset as int, old(self).cluster.extent()) ==> r == Err::<
                u64,
                Error,
            >(Error::InvalidInput) && final(self).offset == old(self).offset,
    {
        let target = seek_target(pos, self.offset, self.cluster.blocks().len())?;
        self.offset = target;
        Ok(target as u64)
    }
}

impl<'a, M: Memory> ClusterReader<'a, MemoryReader<'a, M>> {
    /// Reads bytes of the stream at the cursor into the front of `buf`, moves
    /// the cursor past them and returns how many. One read takes bytes from
    /// one block only, and none where the cluster or the store ends. A
    /// cluster whose blocks hold more bytes than a `usize` counts is refused
    /// as `InvalidInput`.
    pub fn read(&mut self, buf: &mut [u8]) -> (r: Result<usize, Error>)
        ensures
            final(self).cluster == old(self).cluster,
            final(self).reader.memory == old(self).reader.memory,
            final(buf)@.len() == old(buf)@.len(),
            r matches Ok(n) ==> {
                &&& final(self).offset == old(self).offset + n
                &&& n <= chunk_len(old(self).offset as int, old(buf)@.len() as int)
                &&& stream_filled(
                    old(self).reader.memory.bytes(),
                    old(self).cluster@,
                    old(self).offset as int,
                    old(buf)@,
                    final(buf)@,
                    n as int,
                )
                &&& n == 0 ==> old(buf)@.len() == 0 || !stream_has(
                    old(self).reader.memory.bytes(),
                    old(self).cluster@,
                    old(self).offset as int,
                )
                &&& n > 0 ==> old(self).cluster.extent() <= usize::MAX
                &&& n > 0 ==> final(self).reader.offset == place(
                    old(self).cluster@,
                    old(self).offset as int,
                ) + n
            },
            r is Err ==> final(self).offset == old(self).offset && final(buf)@ == old(buf)@,
            old(self).offset / 512 >= old(self).cluster@.len() ==> r == Ok::<usize, Error>(0)
                && final(self).reader == old(self).reader,
            old(self).offset / 512 < old(self).cluster@.len() && old(self).cluster.extent()
                > usize::MAX ==> r == Err::<usize, Error>(Error::InvalidInput),
            old(self).reader.memory.steady() && old(self).cluster.extent() <= usize::MAX ==> r
                is Ok,
            old(self).reader.memory.steady() && r is Err ==> r == Err::<usize, Error>(
                Error::InvalidInput,
            ) && old(self).cluster.extent() > usize::MAX,
    {
        let index = self.offset / Block::SIZE;
        let within = self.offset % Block::SIZE;
        let blocks = self.cluster.blocks();
        if index >= blocks.len() {
            return Ok(0);
        }
        if blocks.len() > usize::MAX / Block::SIZE {
            return Err(Error::InvalidInput);
        }
        let block = blocks[index];
        if block.index > (usize::MAX - within) / Block::SIZE {
            // The block lies behind every byte that a store can hold.
            let _ = self.reader.memory.len()?;
            return Ok(0);
        }
        let start = block.index * Block::SIZE + within;
        let _ = self.reader.seek(SeekFrom::Start(start as u64))?;
        let mut max_read = Block::SIZE - within;
        if buf.len() < max_read {
            max_read = buf.len();
        }
        let ghost mem = self.reader.memory.bytes();
        let (head, tail) = buf.split_at_mut(max_read);
        let n = self.reader.read(head)?;
        proof {
            let at = self.offset as int;
            let after = head@ + tail@;
            assert forall|i: int| #![trigger after[i]] 0 <= i < after.len() implies after[i] == if i
                < n {
                stream_byte(mem, self.cluster@, at + i)
            } else {
                old(buf)@[i]
            } by {
                if i < n {
                    lemma_same_block(at, i);
                }
            }
            assert forall|k: int| at <= k < at + n implies #[trigger] stream_has(
                mem,
                self.cluster@,
                k,
            ) by {
                lemma_same_block(at, k - at);
            }
            lemma_same_block(at, 0);
        }
        self.offset = self.offset + n;
        Ok(n)
    }

    /// Fills `buf` from the cursor on. Where the stream ends before `buf` is
    /// full, the read fails with `InvalidInput`.
    pub fn read_exact(&mut self, buf: &mut [u8]) -> (r: Result<(), Error>)
        ensures
            final(self).cluster == old(self).cluster,
            final(self).reader.memory == old(self).reader.memory,
            final(buf)@.len() == old(buf)@.len(),
            old(self).offset <= final(self).offset <= old(self).offset + old(buf)@.len(),
            r is Ok ==> {
                &&& final(self).offset == old(self).offset + old(buf)@.len()
                &&& stream_filled(
                    old(self).reader.memory.bytes(),
                    old(self).cluster@,
                    old(self).offset as int,
                    old(buf)@,
                    final(buf)@,
                    old(buf)@.len() as int,
                )
                &&& old(buf)@.len() > 0 ==> old(self).cluster.extent() <= usize::MAX
            },
            old(buf)@.len() == 0 ==> r is Ok,
            !stream_holds(
                old(self).reader.memory.bytes(),
                old(self).cluster@,
                old(self).offset as int,
                old(buf)@.len() as int,
            ) ==> r is Err,
            old(self).reader.memory.steady() && r is Err ==> r == Err::<(), Error>(
                Error::InvalidInput,
            ) && (old(self).cluster.extent() > usize::MAX || !stream_holds(
                old(self).reader.memory.bytes(),
                old(self).cluster@,
                old(self).offset as int,
                old(buf)@.len() as int,
            )),
    {
        let ghost start = self.offset;
        let ghost mem = self.reader.memory.bytes();
        let ghost blocks = self.cluster@;
        let total = buf.len();
        let mut filled: usize = 0;
        while filled < total
            invariant
                self.cluster == old(self).cluster,
                self.reader.memory == old(self).reader.memory,
                mem == self.reader.memory.bytes(),
                blocks == self.cluster@,
                start == old(self).offset,
                total == buf@.len(),
                total == old(buf)@.len(),
                filled <= total,
                self.offset == start + filled,
                stream_filled(mem, blocks, start as int, old(buf)@, buf@, filled as int),
                filled > 0 ==> self.cluster.extent() <= usize::MAX,
            decreases total - filled,
        {
            let ghost before = buf@;
            let (done, rest) = buf.split_at_mut(filled);
            let n = self.read(rest)?;
            if n == 0 {
                proof {
                    assert(!stream_has(mem, blocks, start + filled));
                }
                return Err(Error::InvalidInput);
            }
            proof {
                let after = done@ + rest@;
                assert forall|i: int| #![trigger after[i]] 0 <= i < after.len() implies after[i]
                    == if i < filled + n {
                    stream_byte(mem, blocks, start + i)
                } else {
                    old(buf)@[i]
                } by {
                    if i < filled {
                        assert(after[i] == before[i]);
                    } else {
                        assert(after[i] == rest@[i - filled]);
                        assert(before[i] == before.skip(filled as int)[i - filled]);
                    }
                }
            }
            filled = filled + n;
        }
        Ok(())
    }

    /// Reads the stream from the cursor to its end, adds the bytes at the end
    /// of `out` and returns how many they are. The stream ends where the
    /// cluster ends, or the store.
    pub fn read_to_end(&mut self, out: &mut Vec<u8>) -> (r: Result<usize, Error>)
        ensures
            final(self).cluster == old(self).cluster,
            final(self).reader.memory == old(self).reader.memory,
            final(out)@.len() >= old(out)@.len(),
            final(out)@.take(old(out)@.len() as int) == old(out)@,
            final(self).offset == old(self).offset + (final(out)@.len() - old(out)@.len()),
            stream_range(
                old(self).reader.memory.bytes(),
                old(self).cluster@,
                old(self).offset as int,
                final(out)@.skip(old(out)@.len() as int),
            ),
            r matches Ok(n) ==> {
                &&& n == final(out)@.len() - old(out)@.len()
                &&& !stream_has(
                    old(self).reader.memory.bytes(),
                    old(self).cluster@,
                    final(self).offset as int,
                )
            },
            old(self).reader.memory.steady() && old(self).cluster.extent() <= usize::MAX ==> r
                is Ok,
    {
        let ghost start = self.offset;
        let ghost mem = self.reader.memory.bytes();
        let ghost blocks = self.cluster@;
        let before = out.len();
        let mut chunk: Vec<u8> = vec![0u8; Block::SIZE];
        loop
            invariant
                self.cluster == old(self).cluster,
                self.reader.memory == old(self).reader.memory,
                mem == self.reader.memory.bytes(),
                blocks == self.cluster@,
                start == old(self).offset,
                before == old(out)@.len(),
                chunk@.len() == 512,
                out@.len() >= before,
                out@.take(before as int) == old(out)@,
                self.offset == start + (out@.len() - before),
                stream_range(mem, blocks, start as int, out@.skip(before as int)),
            decreases usize::MAX - self.offset,
        {
            let ghost at = self.offset;
            let ghost sofar = out@;
            let n = self.read(chunk.as_mut_slice())?;
            if n == 0 {
                return Ok(out.len() - before);
            }
            let mut i: usize = 0;
            while i < n
                invariant
                    i <= n <= chunk@.len(),
                    out@ == sofar + chunk@.take(i as int),
                decreases n - i,
            {
                out.push(chunk[i]);
                proof {
                    assert(out@ =~= sofar + chunk@.take(i + 1));
                }
                i = i + 1;
            }
            proof {
                assert(out@.take(before as int) =~= sofar.take(before as int));
                let data = out@.skip(before as int);
                let earlier = sofar.skip(before as int);
                assert forall|i: int| #![trigger data[i]] 0 <= i < data.len() implies data[i]
                    == stream_byte(mem, blocks, start + i) by {
                    if i >= earlier.len() {
                        assert(data[i] == chunk@[i - earlier.len()]);
                    } else {
                        assert(data[i] == earlier[i]);
                    }
                }
            }
        }
    }
}

/// The blocks of the indices of `indices`.
pub open spec fn blocks_of(indices: Seq<int>) -> Seq<Block> {
    Seq::new(indices.len(), |i: int| Block { index: indices[i] as usize })
}

/// The number of blocks that a cluster of `len` blocks lacks to hold byte
/// `at` of its stream.
pub open spec fn lacking(len: int, at: int) -> nat {
    if at / 512 >= len {
        (at / 512 + 1 - len) as nat
    } else {
        0
    }
}

/// Where in `len` bytes written at offset `pos` of a stream the last block
/// that they reach begins: the number of bytes that lie in the blocks before it.
pub open spec fn last_cut(pos: int, len: int) -> int {
    let boundary = (pos + len - 1) / 512 * 512;
    if boundary > pos {
        boundary - pos
    } else {
        0
    }
}

/// The bytes of a store of bytes `mem` once `data` has been written at offset
/// `pos` of the stream that `blocks` hold: the bytes are laid over the blocks
/// in order, block by block, and before each block is written the store
/// grows by the pages of `page` bytes that it lacks to hold what the block
/// receives.
pub open spec fn laid(mem: Seq<u8>, blocks: Seq<Block>, pos: int, data: Seq<u8>, page: int) -> Seq<
    u8,
>
    decreases data.len(),
{
    let cut = last_cut(pos, data.len() as int);
    if 0 <= cut < data.len() {
        let at = place(blocks, pos + cut);
        overwrite(
            grown(laid(mem, blocks, pos, data.take(cut), page), at + data.len() - cut, page),
            at,
            data.skip(cut),
        )
    } else {
        mem
    }
}

/// The number of blocks that a cluster of `len` blocks lacks to hold `count`
/// bytes written at offset `at` of its stream.
pub open spec fn lacking_for(len: int, at: int, count: int) -> nat {
    if count <= 0 {
        0
    } else {
        lacking(len, at + count - 1)
    }
}

/// What is laid over a cluster depends on the blocks that the bytes reach
/// alone: blocks added behind them change nothing.
pub proof fn lemma_laid_frame(
    mem: Seq<u8>,
    blocks: Seq<Block>,
    longer: Seq<Block>,
    pos: int,
    data: Seq<u8>,
    page: int,
)
    requires
        0 <= pos,
        blocks.is_prefix_of(longer),
        lacking_for(blocks.len() as int, pos, data.len() as int) == 0,
    ensures
        laid(mem, blocks, pos, data, page) == laid(mem, longer, pos, data, page),
    decreases data.len(),
{
    let cut = last_cut(pos, data.len() as int);
    if 0 <= cut < data.len() {
        assert((pos + cut) / 512 <= (pos + data.len() - 1) / 512);
        assert(blocks[(pos + cut) / 512] == longer[(pos + cut) / 512]);
        if cut > 0 {
            assert((pos + cut - 1) / 512 <= (pos + data.len() - 1) / 512);
        }
        lemma_laid_frame(mem, blocks, longer, pos, data.take(cut), page);
    }
}

/// What the clusters of a file system share: the bits of the bitmap and the
/// bytes of the store.
pub struct Disk {
    pub bits: Seq<bool>,
    pub mem: Seq<u8>,
}

/// The stream of a cluster under a writer: the disk, the blocks of the
/// cluster and the offset of the cursor.
pub struct Stream {
    pub disk: Disk,
    pub blocks: Seq<Block>,
    pub offset: int,
}

/// Whether `after` has the blocks of `before` and maybe more behind them, and
/// the bits that are set in `before` and maybe more.
pub open spec fn extends(before: Stream, after: Stream) -> bool {
    &&& before.blocks.is_prefix_of(after.blocks)
    &&& after.disk.bits.len() == before.disk.bits.len()
    &&& forall|i: int|
        #![trigger after.disk.bits[i]]
        0 <= i < before.disk.bits.len() && before.disk.bits[i] ==> after.disk.bits[i]
}

/// The number of blocks that one write at the cursor of a stream takes from
/// the bitmap, whether it goes through or not: the blocks that the cluster
/// lacks to have a block at the cursor, or every free block where the bitmap
/// has fewer.
pub open spec fn allotted(stream: Stream) -> nat {
    let need = lacking(stream.blocks.len() as int, stream.offset);
    if free_count(stream.disk.bits) < need {
        free_count(stream.disk.bits)
    } else {
        need
    }
}

/// Whether `bits` and `blocks` are the bitmap and the cluster of the stream
/// `before` once the cluster has taken some of the blocks that it lacks to
/// hold `wanted` bytes at the cursor: the free blocks of the lowest index,
/// one by one, each added behind the blocks of the cluster and marked as
/// taken in the bitmap, and no other block or bit changed.
pub open spec fn took_blocks(
    before: Stream,
    wanted: int,
    bits: Seq<bool>,
    blocks: Seq<Block>,
) -> bool {
    exists|k: nat|
        {
            &&& k <= lacking_for(before.blocks.len() as int, before.offset, wanted)
            &&& k <= free_count(before.disk.bits)
            &&& blocks == before.blocks + blocks_of(#[trigger] allocations(before.disk.bits, k))
            &&& bits == after_allocations(before.disk.bits, k)
        }
}

/// What one write of `buf` makes of a stream whose store has pages of `page`
/// bytes: the cluster takes the free blocks of the lowest index until it has
/// a block at the cursor, and the bytes of `buf` that this block has room for
/// are written there.
pub open spec fn chunk_written(stream: Stream, buf: Seq<u8>, page: int) -> Stream {
    let need = lacking(stream.blocks.len() as int, stream.offset);
    let blocks = stream.blocks + blocks_of(allocations(stream.disk.bits, need));
    let n = chunk_len(stream.offset, buf.len() as int);
    let at = place(blocks, stream.offset);
    Stream {
        disk: Disk {
            bits: after_allocations(stream.disk.bits, need),
            mem: if n == 0 {
                stream.disk.mem
            } else {
                overwrite(grown(stream.disk.mem, at + n, page), at, buf.take(n))
            },
        },
        blocks,
        offset: stream.offset + n,
    }
}

/// What writing all of `buf` makes of a stream whose store has pages of
/// `page` bytes: the cluster takes the free blocks of the lowest index until
/// it has a block for every byte, and the bytes are laid over its blocks.
pub open spec fn all_written(stream: Stream, buf: Seq<u8>, page: int) -> Stream {
    let need = lacking_for(stream.blocks.len() as int, stream.offset, buf.len() as int);
    let blocks = stream.blocks + blocks_of(allocations(stream.disk.bits, need));
    Stream {
        disk: Disk {
            bits: after_allocations(stream.disk.bits, need),
            mem: laid(stream.disk.mem, blocks, stream.offset, buf, page),
        },
        blocks,
        offset: stream.offset + buf.len(),
    }
}

/// Whether one write of `wanted` bytes at the cursor of a stream fits: the
/// bitmap has the free blocks that the cluster lacks to have a block at the
/// cursor, a `usize` holds the cursor behind the write and the place of the
/// bytes in the store, and the store, of pages of `page` bytes each and with
/// room for `max_pages` pages, can come to hold the bytes.
pub open spec fn chunk_fits(stream: Stream, wanted: int, page: int, max_pages: int) -> bool {
    let need = lacking(stream.blocks.len() as int, stream.offset);
    let blocks = stream.blocks + blocks_of(allocations(stream.disk.bits, need));
    let n = chunk_len(stream.offset, wanted);
    let at = place(blocks, stream.offset);
    &&& free_count(stream.disk.bits) >= need
    &&& stream.offset + n <= usize::MAX
    &&& at <= usize::MAX
    &&& n == 0 || (at + n <= usize::MAX && can_hold(
        stream.disk.mem.len() as int,
        at + n,
        page,
        max_pages,
    ))
}

/// Whether writing all of `buf` at the cursor of a stream fits: whether each
/// of the writes that lay `buf` over the blocks fits, one after the other.
pub open spec fn all_fit(stream: Stream, buf: Seq<u8>, page: int, max_pages: int) -> bool
    decreases buf.len(),
{
    let cut = last_cut(stream.offset, buf.len() as int);
    if 0 <= cut < buf.len() {
        all_fit(stream, buf.take(cut), page, max_pages) && chunk_fits(
            all_written(stream, buf.take(cut), page),
            buf.len() - cut,
            page,
            max_pages,
        )
    } else {
        true
    }
}

/// Whether the bitmap of a stream has the free blocks that writing `len`
/// bytes at the cursor takes.
pub open spec fn can_write(stream: Stream, len: int) -> bool {
    free_count(stream.disk.bits) >= lacking_for(stream.blocks.len() as int, stream.offset, len)
}

/// Whether every block of `blocks` is marked as taken in `bits`.
pub open spec fn covered(bits: Seq<bool>, blocks: Seq<Block>) -> bool {
    forall|i: int|
        0 <= i < blocks.len() ==> (#[trigger] blocks[i]).index < bits.len()
            && bits[blocks[i].index as int]
}

/// A write keeps a cluster within the bitmap: where every block of the
/// cluster was marked as taken before all of `buf` is written, every block
/// that it has afterwards is marked as taken, and no block that was taken
/// has become free.
pub proof fn lemma_all_written_covered(stream: Stream, buf: Seq<u8>, page: int)
    requires
        stream.disk.bits.len() <= usize::MAX,
        can_write(stream, buf.len() as int),
        covered(stream.disk.bits, stream.blocks),
    ensures
        extends(stream, all_written(stream, buf, page)),
        covered(all_written(stream, buf, page).disk.bits, all_written(stream, buf, page).blocks),
{
    let need = lacking_for(stream.blocks.len() as int, stream.offset, buf.len() as int);
    let after = all_written(stream, buf, page);
    let taken = allocations(stream.disk.bits, need);
    lemma_allocations_keep(stream.disk.bits, need);
    lemma_allocations_taken(stream.disk.bits, need);
    assert forall|i: int| 0 <= i < after.blocks.len() implies (#[trigger] after.blocks[i]).index
        < after.disk.bits.len() && after.disk.bits[after.blocks[i].index as int] by {
        if i < stream.blocks.len() {
            assert(after.blocks[i] == stream.blocks[i]);
            assert(stream.disk.bits[stream.blocks[i].index as int]);
            assert(after.disk.bits[stream.blocks[i].index as int]);
        } else {
            let j = i - stream.blocks.len();
            assert(after.blocks[i] == blocks_of(taken)[j]);
            assert(0 <= taken[j] < stream.disk.bits.len());
            assert(after.disk.bits[taken[j]]);
        }
    }
}

/// Whether no block occurs twice in `blocks`.
pub open spec fn distinct(blocks: Seq<Block>) -> bool {
    forall|i: int, j: int|
        0 <= i < j < blocks.len() ==> (#[trigger] blocks[i]).index != (#[trigger] blocks[j]).index
}

/// Bytes laid over distinct blocks lie in the store afterwards, each at its
/// place in the stream: where the cluster has a block for every byte of
/// `data` written at offset `pos`, the store holds every one of them, and no
/// byte of `data` has been laid over another.
pub proof fn lemma_laid_read_back(
    mem: Seq<u8>,
    blocks: Seq<Block>,
    pos: int,
    data: Seq<u8>,
    page: int,
)
    requires
        0 <= pos,
        page > 0,
        distinct(blocks),
        lacking_for(blocks.len() as int, pos, data.len() as int) == 0,
    ensures
        laid(mem, blocks, pos, data, page).len() >= mem.len(),
        stream_range(laid(mem, blocks, pos, data, page), blocks, pos, data),
    decreases data.len(),
{
    let out = laid(mem, blocks, pos, data, page);
    let len = data.len() as int;
    let cut = last_cut(pos, len);
    if len > 0 {
        let head = data.take(cut);
        let inner = laid(mem, blocks, pos, head, page);
        let at = place(blocks, pos + cut);
        let last = (pos + len - 1) / 512;
        assert((pos + cut) / 512 == last && (pos + cut) % 512 + (len - cut) <= 512);
        if cut > 0 {
            assert((pos + cut - 1) / 512 < last);
        }
        lemma_laid_read_back(mem, blocks, pos, head, page);
        lemma_missing_pages(inner.len() as int, at + len - cut, page);
        lemma_zeros_len(missing_pages(inner.len() as int, at + len - cut, page) * page);
        let base = grown(inner, at + len - cut, page);
        assert(base.len() >= at + len - cut) by {
            assert(missing_pages(inner.len() as int, at + len - cut, page) * page >= 0)
                by (nonlinear_arith)
                requires
                    missing_pages(inner.len() as int, at + len - cut, page) >= 0,
                    page > 0,
            ;
        }
        assert(out == overwrite(base, at, data.skip(cut)));
        assert forall|k: int| pos <= k < pos + len implies #[trigger] stream_has(
            out,
            blocks,
            k,
        ) && out[place(blocks, k)] == data[k - pos] by {
            let i = k - pos;
            if i >= cut {
                lemma_same_block(pos + cut, i - cut);
                assert(place(blocks, k) == at + (i - cut));
                assert(data.skip(cut)[i - cut] == data[i]);
            } else {
                assert(stream_has(inner, blocks, k));
                assert(head[i] == stream_byte(inner, blocks, pos + i));
                assert(k / 512 < last);
                assert(blocks[k / 512].index != blocks[last].index);
                assert(base[place(blocks, k)] == inner[place(blocks, k)]);
            }
        }
        assert forall|i: int| 0 <= i < data.len() implies #[trigger] data[i] == stream_byte(
            out,
            blocks,
            pos + i,
        ) by {
            assert(stream_has(out, blocks, pos + i));
        }
    }
}

/// What a cluster takes from the bitmap is its own: the `k` blocks that the
/// cluster of the blocks `blocks` takes were free and are marked as taken
/// afterwards, stand behind the blocks that it had, and no bit that was set
/// has been cleared. Where the blocks it had were marked as taken, all its
/// blocks are; where they were distinct as well, all its blocks are, so that
/// it shares no block with itself.
pub proof fn lemma_allocated(bits: Seq<bool>, blocks: Seq<Block>, k: nat)
    requires
        bits.len() <= usize::MAX,
        k <= free_count(bits),
    ensures
        (blocks + blocks_of(allocations(bits, k))).len() == blocks.len() + k,
        blocks.is_prefix_of(blocks + blocks_of(allocations(bits, k))),
        keeps(bits, after_allocations(bits, k)),
        forall|i: int|
            blocks.len() <= i < blocks.len() + k ==> {
                let index = (#[trigger] (blocks + blocks_of(allocations(bits, k)))[i]).index;
                index < bits.len() && !bits[index as int] && after_allocations(bits, k)[index as int]
            },
        covered(bits, blocks) ==> covered(
            after_allocations(bits, k),
            blocks + blocks_of(allocations(bits, k)),
        ),
        covered(bits, blocks) && distinct(blocks) ==> distinct(
            blocks + blocks_of(allocations(bits, k)),
        ),
{
    let taken = allocations(bits, k);
    let after_bits = after_allocations(bits, k);
    let after_blocks = blocks + blocks_of(taken);
    let n = blocks.len() as int;
    lemma_allocations_keep(bits, k);
    lemma_allocations_taken(bits, k);
    lemma_allocations_ascend(bits, k);
    assert forall|i: int| n <= i < n + k implies {
        let index = (#[trigger] after_blocks[i]).index;
        index < bits.len() && !bits[index as int] && after_bits[index as int]
    } by {
        assert(after_blocks[i] == blocks_of(taken)[i - n]);
        assert(0 <= taken[i - n] < bits.len());
    }
    if covered(bits, blocks) {
        assert forall|i: int| 0 <= i < after_blocks.len() implies (#[trigger] after_blocks[i]).index
            < after_bits.len() && after_bits[after_blocks[i].index as int] by {
            if i < n {
                assert(after_blocks[i] == blocks[i]);
                assert(bits[blocks[i].index as int]);
            }
        }
        if distinct(blocks) {
            assert forall|i: int, j: int| 0 <= i < j < after_blocks.len() implies (
            #[trigger] after_blocks[i]).index != (#[trigger] after_blocks[j]).index by {
                if j < n {
                    assert(after_blocks[i] == blocks[i] && after_blocks[j] == blocks[j]);
                } else if i < n {
                    assert(after_blocks[i] == blocks[i]);
                    assert(after_blocks[j] == blocks_of(taken)[j - n]);
                    assert(bits[blocks[i].index as int]);
                    assert(!bits[taken[j - n]]);
                } else {
                    assert(after_blocks[i] == blocks_of(taken)[i - n]);
                    assert(after_blocks[j] == blocks_of(taken)[j - n]);
                    assert(taken[i - n] < taken[j - n]);
                }
            }
        }
    }
}

/// Bytes laid over the blocks of a cluster leave the rest of the store
/// alone: a byte of the store that lies in none of the blocks is as it was.
pub proof fn lemma_laid_elsewhere(
    mem: Seq<u8>,
    blocks: Seq<Block>,
    pos: int,
    data: Seq<u8>,
    page: int,
    p: int,
)
    requires
        0 <= pos,
        0 <= p < mem.len(),
        lacking_for(blocks.len() as int, pos, data.len() as int) == 0,
        forall|i: int| 0 <= i < blocks.len() ==> (#[trigger] blocks[i]).index != p / 512,
    ensures
        p < laid(mem, blocks, pos, data, page).len(),
        laid(mem, blocks, pos, data, page)[p] == mem[p],
    decreases data.len(),
{
    let len = data.len() as int;
    let cut = last_cut(pos, len);
    if len > 0 {
        let inner = laid(mem, blocks, pos, data.take(cut), page);
        let at = place(blocks, pos + cut);
        let last = (pos + len - 1) / 512;
        assert((pos + cut) / 512 == last && (pos + cut) % 512 + (len - cut) <= 512);
        if cut > 0 {
            assert((pos + cut - 1) / 512 < last);
        }
        lemma_laid_elsewhere(mem, blocks, pos, data.take(cut), page, p);
        assert(blocks[last].index != p / 512);
        let base = grown(inner, at + len - cut, page);
        assert(base.len() >= inner.len() && base[p] == inner[p]);
    }
}

/// A write through a cluster leaves the rest of the store alone: a byte of
/// the store that lies in none of the blocks that the cluster has after
/// all of `buf` has been written is as it was.
pub proof fn lemma_all_written_elsewhere(stream: Stream, buf: Seq<u8>, page: int, p: int)
    requires
        stream.disk.bits.len() <= usize::MAX,
        0 <= stream.offset,
        0 <= p < stream.disk.mem.len(),
        can_write(stream, buf.len() as int),
        forall|i: int|
            0 <= i < all_written(stream, buf, page).blocks.len() ==> (#[trigger] all_written(
                stream,
                buf,
                page,
            ).blocks[i]).index != p / 512,
    ensures
        p < all_written(stream, buf, page).disk.mem.len(),
        all_written(stream, buf, page).disk.mem[p] == stream.disk.mem[p],
{
    let need = lacking_for(stream.blocks.len() as int, stream.offset, buf.len() as int);
    let after = all_written(stream, buf, page);
    lemma_allocations_ascend(stream.disk.bits, need);
    assert(after.blocks.len() == stream.blocks.len() + need);
    lemma_laid_elsewhere(stream.disk.mem, after.blocks, stream.offset, buf, page, p);
}

/// Whether no block of `a` is a block of `b`.
pub open spec fn apart(a: Seq<Block>, b: Seq<Block>) -> bool {
    forall|i: int, j: int|
        0 <= i < a.len() && 0 <= j < b.len() ==> (#[trigger] a[i]).index != (#[trigger] b[j]).index
}

/// A write through a cluster leaves the streams of other clusters alone:
/// where the blocks `other` are marked as taken and none of them is a block
/// of the cluster written, the cluster takes none of them, and the stream
/// that they hold has the bytes after the write that it had before.
pub proof fn lemma_all_written_apart(
    stream: Stream,
    buf: Seq<u8>,
    page: int,
    other: Seq<Block>,
    len: int,
)
    requires
        stream.disk.bits.len() <= usize::MAX,
        0 <= stream.offset,
        can_write(stream, buf.len() as int),
        covered(stream.disk.bits, other),
        apart(stream.blocks, other),
        0 <= len,
        stream_holds(stream.disk.mem, other, 0, len),
    ensures
        apart(all_written(stream, buf, page).blocks, other),
        stream_holds(all_written(stream, buf, page).disk.mem, other, 0, len),
        stream_bytes(all_written(stream, buf, page).disk.mem, other, 0, len) == stream_bytes(
            stream.disk.mem,
            other,
            0,
            len,
        ),
{
    let need = lacking_for(stream.blocks.len() as int, stream.offset, buf.len() as int);
    let after = all_written(stream, buf, page);
    let n = stream.blocks.len() as int;
    lemma_allocated(stream.disk.bits, stream.blocks, need);
    assert forall|i: int, j: int| 0 <= i < after.blocks.len() && 0 <= j < other.len() implies (
    #[trigger] after.blocks[i]).index != (#[trigger] other[j]).index by {
        if i < n {
            assert(after.blocks[i] == stream.blocks[i]);
        } else {
            assert(!stream.disk.bits[after.blocks[i].index as int]);
            assert(stream.disk.bits[other[j].index as int]);
        }
    }
    assert forall|k: int| 0 <= k < len implies #[trigger] stream_has(after.disk.mem, other, k)
        && stream_byte(after.disk.mem, other, k) == stream_byte(stream.disk.mem, other, k) by {
        assert(stream_has(stream.disk.mem, other, k));
        let p = place(other, k);
        assert(p / 512 == other[k / 512].index);
        lemma_all_written_elsewhere(stream, buf, page, p);
    }
    assert forall|i: int| 0 <= i < len implies stream_bytes(after.disk.mem, other, 0, len)[i]
        == stream_bytes(stream.disk.mem, other, 0, len)[i] by {
        assert(stream_has(after.disk.mem, other, i));
    }
    assert(stream_bytes(after.disk.mem, other, 0, len) =~= stream_bytes(
        stream.disk.mem,
        other,
        0,
        len,
    ));
}

/// The blocks that a cluster of distinct blocks, each marked as taken, comes
/// to have by a write are distinct too.
pub proof fn lemma_all_written_distinct(stream: Stream, buf: Seq<u8>, page: int)
    requires
        stream.disk.bits.len() <= usize::MAX,
        can_write(stream, buf.len() as int),
        covered(stream.disk.bits, stream.blocks),
        distinct(stream.blocks),
    ensures
        distinct(all_written(stream, buf, page).blocks),
{
    let need = lacking_for(stream.blocks.len() as int, stream.offset, buf.len() as int);
    let after = all_written(stream, buf, page);
    let taken = allocations(stream.disk.bits, need);
    lemma_allocations_ascend(stream.disk.bits, need);
    assert forall|i: int, j: int| 0 <= i < j < after.blocks.len() implies (
    #[trigger] after.blocks[i]).index != (#[trigger] after.blocks[j]).index by {
        let n = stream.blocks.len() as int;
        if j < n {
            assert(after.blocks[i] == stream.blocks[i] && after.blocks[j] == stream.blocks[j]);
        } else if i < n {
            assert(after.blocks[i] == stream.blocks[i]);
            assert(after.blocks[j] == blocks_of(taken)[j - n]);
            assert(stream.disk.bits[stream.blocks[i].index as int]);
            assert(!stream.disk.bits[taken[j - n]]);
        } else {
            assert(after.blocks[i] == blocks_of(taken)[i - n]);
            assert(after.blocks[j] == blocks_of(taken)[j - n]);
            assert(taken[i - n] < taken[j - n]);
        }
    }
}

/// What is written through a cluster is read back through it: where the
/// blocks of the cluster are distinct and marked as taken, the stream holds
/// the bytes of `buf` from the cursor on once all of `buf` has been written
/// there, whatever blocks the cluster has taken for them.
pub proof fn lemma_all_written_read_back(stream: Stream, buf: Seq<u8>, page: int)
    requires
        stream.disk.bits.len() <= usize::MAX,
        0 <= stream.offset,
        page > 0,
        can_write(stream, buf.len() as int),
        covered(stream.disk.bits, stream.blocks),
        distinct(stream.blocks),
    ensures
        stream_range(
            all_written(stream, buf, page).disk.mem,
            all_written(stream, buf, page).blocks,
            stream.offset,
            buf,
        ),
        stream_bytes(
            all_written(stream, buf, page).disk.mem,
            all_written(stream, buf, page).blocks,
            stream.offset,
            buf.len() as int,
        ) == buf,
{
    let need = lacking_for(stream.blocks.len() as int, stream.offset, buf.len() as int);
    let after = all_written(stream, buf, page);
    lemma_all_written_distinct(stream, buf, page);
    lemma_allocations_ascend(stream.disk.bits, need);
    assert(after.blocks.len() == stream.blocks.len() + need);
    lemma_laid_read_back(stream.disk.mem, after.blocks, stream.offset, buf, page);
    assert(stream_bytes(after.disk.mem, after.blocks, stream.offset, buf.len() as int) =~= buf);
}

/// What is written from the start of a cluster is what its stream begins
/// with: where the blocks of the cluster are distinct and marked as taken,
/// the whole stream is the bytes of `buf` once they have been written at
/// offset zero, and behind them whatever the blocks hold there.
pub proof fn lemma_all_written_begins(stream: Stream, buf: Seq<u8>, page: int)
    requires
        stream.disk.bits.len() <= usize::MAX,
        stream.offset == 0,
        page > 0,
        can_write(stream, buf.len() as int),
        covered(stream.disk.bits, stream.blocks),
        distinct(stream.blocks),
    ensures
        stream_end(all_written(stream, buf, page).disk.mem, all_written(stream, buf, page).blocks)
            >= buf.len(),
        whole_stream(
            all_written(stream, buf, page).disk.mem,
            all_written(stream, buf, page).blocks,
        ) == buf + stream_bytes(
            all_written(stream, buf, page).disk.mem,
            all_written(stream, buf, page).blocks,
            buf.len() as int,
            stream_end(
                all_written(stream, buf, page).disk.mem,
                all_written(stream, buf, page).blocks,
            ) - buf.len(),
        ),
{
    let after = all_written(stream, buf, page);
    let end = stream_end(after.disk.mem, after.blocks);
    lemma_all_written_read_back(stream, buf, page);
    lemma_stream_ends(after.disk.mem, after.blocks);
    if end < buf.len() {
        assert(stream_has(after.disk.mem, after.blocks, end));
    }
    assert(whole_stream(after.disk.mem, after.blocks) =~= buf + stream_bytes(
        after.disk.mem,
        after.blocks,
        buf.len() as int,
        end - buf.len(),
    )) by {
        assert(stream_bytes(after.disk.mem, after.blocks, 0, buf.len() as int) == buf);
    }
}

/// Whether `after` has a bit for each bit of `before`, and every bit set that
/// is set in `before`.
pub open spec fn keeps(before: Seq<bool>, after: Seq<bool>) -> bool {
    &&& after.len() == before.len()
    &&& forall|i: int| 0 <= i < before.len() && before[i] ==> #[trigger] after[i]
}

/// A write frees no block, and its cluster comes to hold every byte written.
pub proof fn lemma_all_written_keeps(stream: Stream, buf: Seq<u8>, page: int)
    requires
        0 <= stream.offset,
        can_write(stream, buf.len() as int),
    ensures
        keeps(stream.disk.bits, all_written(stream, buf, page).disk.bits),
        stream.blocks.is_prefix_of(all_written(stream, buf, page).blocks),
        buf.len() > 0 ==> stream.offset + buf.len() <= 512 * all_written(
            stream,
            buf,
            page,
        ).blocks.len(),
{
    let need = lacking_for(stream.blocks.len() as int, stream.offset, buf.len() as int);
    lemma_allocations_keep(stream.disk.bits, need);
    lemma_allocations_taken(stream.disk.bits, need);
}

/// What keeps the bits that keep the bits of a bitmap keeps those.
pub proof fn lemma_keeps_trans(a: Seq<bool>, b: Seq<bool>, c: Seq<bool>)
    requires
        keeps(a, b),
        keeps(b, c),
    ensures
        keeps(a, c),
{
    assert forall|i: int| 0 <= i < a.len() && a[i] implies #[trigger] c[i] by {
        assert(b[i]);
    }
}

/// One byte at the end of a block takes one block, and the next byte a
/// second: a write of one byte at offset `n * 512 - 1` of the stream of a
/// cluster of `n - 1` blocks lacks exactly one block, and so does a write of
/// one more byte behind it. An empty cluster lacks `n` blocks for the first
/// of them, which is one where `n` is one.
pub proof fn lemma_block_end_write(n: int)
    requires
        n >= 1,
    ensures
        lacking(n - 1, n * 512 - 1) == 1,
        chunk_len(n * 512 - 1, 1) == 1,
        lacking(n, n * 512) == 1,
        lacking(0, n * 512 - 1) == n,
{
}

/// A seekable writer over the stream that a cluster holds, which adds blocks
/// to the cluster where a write reaches past its last block.
pub struct ClusterWriter<'a, W> {
    pub cluster: &'a mut Cluster,
    pub writer: W,
    pub bitmap: &'a mut Bitmap,
    /// The offset in the stream at which the next write starts.
    pub offset: usize,
}

impl Cluster {
    /// A writer over the cluster's stream, with its cursor at offset zero,
    /// which takes blocks from `bitmap` and writes the store through `writer`.
    pub fn writer<'a, W>(&'a mut self, bitmap: &'a mut Bitmap, writer: W) -> (w: ClusterWriter<
        'a,
        W,
    >)
        ensures
            *w.cluster == *old(self),
            *final(w.cluster) == *final(self),
            *w.bitmap == *old(bitmap),
            *final(w.bitmap) == *final(bitmap),
            w.writer == writer,
            w.offset == 0,
    {
        ClusterWriter { cluster: self, writer, bitmap, offset: 0 }
    }
}

impl<'a, W> ClusterWriter<'a, W> {
    /// Moves the cursor, and neither the cluster nor the store changes. A
    /// position below zero, or one that a `usize` cannot hold, is refused as
    /// `InvalidInput`. The end of the stream is the end of the cluster's last
    /// block.
    pub fn seek(&mut self, pos: SeekFrom) -> (r: Result<u64, Error>)
        ensures
            *final(final(self).cluster) == *final(old(self).cluster),
            *final(final(self).bitmap) == *final(old(self).bitmap),
            *final(self).cluster == *old(self).cluster,
            *final(self).bitmap == *old(self).bitmap,
            final(self).writer == old(self).writer,
            pos.lands(old(self).offset as int, old(self).cluster.extent()) ==> r == Ok::<
                u64,
                Error,
            >(pos.target(old(self).offset as int, old(self).cluster.extent()) as u64)
                && final(self).offset == pos.target(
                old(self).offset as int,
                old(self).cluster.extent(),
            ),
            !pos.lands(old(self).offset as int, old(self).cluster.extent()) ==> r == Err::<
                u64,
                Error,
            >(Error::InvalidInput) && final(self).offset == old(self).offset,
    {
        let target = seek_target(pos, self.offset, self.cluster.blocks().len())?;
        self.offset = target;
        Ok(target as u64)
    }
}

impl<'a, M: Memory> ClusterWriter<'a, MemoryWriter<'a, M>> {
    /// The stream as the writer sees it now.
    pub open spec fn stream(&self) -> Stream {
        Stream {
            disk: Disk { bits: self.bitmap@, mem: self.writer.memory.bytes() },
            blocks: self.cluster@,
            offset: self.offset as int,
        }
    }

    /// Writes bytes from the front of `buf` at the cursor, moves the cursor
    /// past them and returns how many: as many as `buf` has, but no more than
    /// the block at the cursor has left. Where the cluster has no block at
    /// the cursor yet, it first takes from the bitmap, one by one, the free
    /// blocks of the lowest index until it has one there; it fails with
    /// `OutOfMemory` where the bitmap runs out of them. The blocks taken by
    /// then stay with the cluster, marked as taken, and the store is as it
    /// was; with no free block at all, nothing changes.
    pub fn write(&mut self, buf: &[u8]) -> (r: Result<usize, Error>)
        ensures
            *final(final(self).cluster) == *final(old(self).cluster),
            *final(final(self).bitmap) == *final(old(self).bitmap),
            *final(final(self).writer.memory) == *final(old(self).writer.memory),
            final(self).writer.memory.steady() == old(self).writer.memory.steady(),
            extends(old(self).stream(), final(self).stream()),
            r matches Ok(n) ==> {
                &&& n == chunk_len(old(self).offset as int, buf@.len() as int)
                &&& free_count(old(self).bitmap@) >= lacking(
                    old(self).cluster@.len() as int,
                    old(self).offset as int,
                )
                &&& final(self).stream() == chunk_written(
                    old(self).stream(),
                    buf@,
                    M::PAGE_SIZE as int,
                )
                &&& final(self).writer.offset == place(
                    final(self).cluster@,
                    old(self).offset as int,
                ) + n
                &&& final(self).offset <= final(self).cluster.extent()
                &&& n > 0 ==> final(self).writer.memory.bytes().len() >= place(
                    final(self).cluster@,
                    old(self).offset as int,
                ) + n
            },
            final(self).cluster@ == old(self).cluster@ + blocks_of(
                allocations(old(self).bitmap@, allotted(old(self).stream())),
            ),
            final(self).bitmap@ == after_allocations(
                old(self).bitmap@,
                allotted(old(self).stream()),
            ),
            free_count(old(self).bitmap@) == 0 ==> final(self).cluster@ == old(self).cluster@
                && final(self).bitmap@ == old(self).bitmap@,
            final(self).writer.memory.bytes().len() >= old(self).writer.memory.bytes().len(),
            r is Err ==> final(self).offset == old(self).offset,
            free_count(old(self).bitmap@) < lacking(
                old(self).cluster@.len() as int,
                old(self).offset as int,
            ) ==> r == Err::<usize, Error>(Error::OutOfMemory)
                && final(self).writer == old(self).writer,
            old(self).writer.memory.steady() ==> (r is Ok <==> chunk_fits(
                old(self).stream(),
                buf@.len() as int,
                M::PAGE_SIZE as int,
                M::MAX_PAGES as int,
            )),
            old(self).writer.memory.steady() ==> (r matches Err(e) ==> e == Error::OutOfMemory
                && final(self).writer.memory.bytes() == old(self).writer.memory.bytes()),
    {
        let index = self.offset / Block::SIZE;
        let within = self.offset % Block::SIZE;
        let mut max_write = Block::SIZE - within;
        if buf.len() < max_write {
            max_write = buf.len();
        }
        let ghost blocks0 = self.cluster@;
        let ghost bits0 = self.bitmap@;
        let ghost need = lacking(blocks0.len() as int, self.offset as int);
        let ghost taken: nat = 0;
        proof {
            assert(blocks0 + blocks_of(allocations(bits0, 0)) =~= blocks0);
        }
        while index >= self.cluster.blocks().len()
            invariant
                *final(self.cluster) == *final(old(self).cluster),
                *final(self.bitmap) == *final(old(self).bitmap),
                self.writer == old(self).writer,
                *final(self.writer.memory) == *final(old(self).writer.memory),
                self.offset == old(self).offset,
                blocks0 == old(self).cluster@,
                bits0 == old(self).bitmap@,
                index == self.offset / 512,
                need == lacking(blocks0.len() as int, self.offset as int),
                taken <= need,
                taken <= free_count(bits0),
                self.cluster@ == blocks0 + blocks_of(allocations(bits0, taken)),
                self.cluster@.len() == blocks0.len() + taken,
                self.bitmap@ == after_allocations(bits0, taken),
            decreases need - taken,
        {
            proof {
                lemma_allocations_keep(bits0, taken);
            }
            let ghost bits = self.bitmap@;
            match self.bitmap.occupy_next() {
                Some(i) => {
                    self.cluster.extend(Block::at(i));
                    proof {
                        lemma_free_index_counts(bits, i as int);
                        lemma_first_free_unique(bits, i as int);
                        lemma_allocations_step(bits0, taken);
                        assert(blocks_of(allocations(bits0, taken + 1)) =~= blocks_of(
                            allocations(bits0, taken),
                        ).push(Block { index: i }));
                        assert(self.cluster@ =~= blocks0 + blocks_of(
                            allocations(bits0, taken + 1),
                        ));
                        taken = taken + 1;
                    }
                },
                None => {
                    proof {
                        lemma_full_free_count(bits);
                    }
                    return Err(Error::OutOfMemory);
                },
            }
        }
        proof {
            lemma_allocations_keep(bits0, taken);
        }
        if usize::MAX - self.offset < max_write {
            return Err(Error::OutOfMemory);
        }
        let block = self.cluster.blocks()[index];
        if block.index > (usize::MAX - within) / Block::SIZE {
            return Err(Error::OutOfMemory);
        }
        let start = block.index * Block::SIZE + within;
        let _ = self.writer.seek(SeekFrom::Start(start as u64))?;
        self.writer.write_all(vstd::slice::slice_subrange(buf, 0, max_write))?;
        proof {
            assert(buf@.subrange(0, max_write as int) =~= buf@.take(max_write as int));
        }
        self.offset = self.offset + max_write;
        Ok(max_write)
    }

    /// Does nothing: a write reaches the store at once.
    pub fn flush(&mut self) -> (r: Result<(), Error>)
        ensures
            *final(self) == *old(self),
            r is Ok,
    {
        self.writer.flush()
    }

    /// Writes all of `buf` at the cursor, block by block, and moves the cursor
    /// past it. The cluster takes from the bitmap the blocks it lacks, the
    /// free blocks of the lowest index first. Where a write fails on the
    /// way, the bytes written by then stay written, and the blocks taken by
    /// then stay with the cluster, marked as taken.
    pub fn write_all(&mut self, buf: &[u8]) -> (r: Result<(), Error>)
        ensures
            *final(final(self).cluster) == *final(old(self).cluster),
            *final(final(self).bitmap) == *final(old(self).bitmap),
            *final(final(self).writer.memory) == *final(old(self).writer.memory),
            final(self).writer.memory.steady() == old(self).writer.memory.steady(),
            extends(old(self).stream(), final(self).stream()),
            old(self).offset <= final(self).offset <= old(self).offset + buf@.len(),
            final(self).offset > old(self).offset ==> final(self).offset
                <= final(self).cluster.extent(),
            final(self).writer.memory.bytes().len() >= old(self).writer.memory.bytes().len(),
            took_blocks(
                old(self).stream(),
                buf@.len() as int,
                final(self).bitmap@,
                final(self).cluster@,
            ),
            free_count(old(self).bitmap@) == 0 ==> final(self).cluster@ == old(self).cluster@
                && final(self).bitmap@ == old(self).bitmap@,
            r is Ok ==> can_write(old(self).stream(), buf@.len() as int) && final(self).stream()
                == all_written(old(self).stream(), buf@, M::PAGE_SIZE as int),
            r is Ok ==> stream_holds(
                final(self).writer.memory.bytes(),
                final(self).cluster@,
                old(self).offset as int,
                buf@.len() as int,
            ),
            !can_write(old(self).stream(), buf@.len() as int) ==> r is Err,
            old(self).writer.memory.steady() ==> (r is Ok <==> all_fit(
                old(self).stream(),
                buf@,
                M::PAGE_SIZE as int,
                M::MAX_PAGES as int,
            )),
            old(self).writer.memory.steady() ==> (r matches Err(e) ==> e == Error::OutOfMemory),
    {
        let ghost first = self.stream();
        let ghost page = M::PAGE_SIZE as int;
        let total = buf.len();
        let mut written: usize = 0;
        proof {
            lemma_all_written_nothing(first, buf@.take(0), page);
        }
        while written < total
            invariant
                *final(self.cluster) == *final(old(self).cluster),
                *final(self.bitmap) == *final(old(self).bitmap),
                *final(self.writer.memory) == *final(old(self).writer.memory),
                self.writer.memory.steady() == old(self).writer.memory.steady(),
                first == old(self).stream(),
                page == M::PAGE_SIZE,
                total == buf@.len(),
                written <= total,
                written > 0 ==> self.offset <= self.cluster.extent(),
                written == 0 || written == total || (first.offset + written) % 512 == 0,
                can_write(first, written as int),
                self.stream() == all_written(first, buf@.take(written as int), page),
                extends(first, self.stream()),
                self.offset == first.offset + written,
                self.writer.memory.bytes().len() >= first.disk.mem.len(),
                stream_holds(
                    self.writer.memory.bytes(),
                    self.cluster@,
                    first.offset,
                    written as int,
                ),
                old(self).writer.memory.steady() ==> all_fit(
                    first,
                    buf@.take(written as int),
                    page,
                    M::MAX_PAGES as int,
                ),
            decreases total - written,
        {
            let ghost before = self.stream();
            let rest = vstd::slice::slice_subrange(buf, written, total);
            proof {
                assert(rest@ =~= buf@.skip(written as int));
                if free_count(before.disk.bits) >= lacking(
                    before.blocks.len() as int,
                    before.offset,
                ) {
                    lemma_all_written_step(first, buf@, written as int, page);
                }
                if old(self).writer.memory.steady() {
                    lemma_all_fit_next(first, buf@, written as int, page, M::MAX_PAGES as int);
                }
                lemma_took_blocks_next(first, written as int, total as int, before);
            }
            let n = self.write(rest)?;
            proof {
                lemma_extends_trans(first, before, self.stream());
                lemma_chunk_held(
                    before,
                    self.writer.memory.bytes(),
                    self.cluster@,
                    first.offset,
                    n as int,
                );
            }
            written = written + n;
        }
        proof {
            assert(buf@.take(total as int) =~= buf@);
        }
        Ok(())
    }
}

/// The blocks that a cluster has taken for the first `done` of `total`
/// bytes, and then takes for one more write, are blocks that it lacks to hold
/// all `total`, taken in the same order.
pub proof fn lemma_took_blocks_next(first: Stream, done: int, total: int, mid: Stream)
    requires
        0 <= first.offset,
        0 <= done < total,
        can_write(first, done),
        mid.blocks == first.blocks + blocks_of(
            allocations(
                first.disk.bits,
                lacking_for(first.blocks.len() as int, first.offset, done),
            ),
        ),
        mid.disk.bits == after_allocations(
            first.disk.bits,
            lacking_for(first.blocks.len() as int, first.offset, done),
        ),
        mid.offset == first.offset + done,
    ensures
        took_blocks(
            first,
            total,
            after_allocations(mid.disk.bits, allotted(mid)),
            mid.blocks + blocks_of(allocations(mid.disk.bits, allotted(mid))),
        ),
{
    let bits = first.disk.bits;
    let a = lacking_for(first.blocks.len() as int, first.offset, done);
    let b = allotted(mid);
    lemma_allocations_keep(bits, a);
    lemma_allocations_ascend(bits, a);
    lemma_allocations_compose(bits, a, b);
    lemma_allocations_ascend(mid.disk.bits, b);
    assert(mid.blocks.len() == first.blocks.len() + a);
    assert(blocks_of(allocations(bits, a + b)) =~= blocks_of(allocations(bits, a)) + blocks_of(
        allocations(mid.disk.bits, b),
    ));
    assert(mid.blocks + blocks_of(allocations(mid.disk.bits, b)) =~= first.blocks + blocks_of(
        allocations(bits, a + b),
    ));
    assert(a + b <= lacking_for(first.blocks.len() as int, first.offset, total)) by {
        if done > 0 {
            assert((first.offset + done - 1) / 512 <= (first.offset + total - 1) / 512);
        }
        assert((first.offset + done) / 512 <= (first.offset + total - 1) / 512);
    }
}

/// A stream that holds its bytes up to the cursor holds them up to the end
/// of the next write: where the store has not shrunk, the cluster has kept
/// its blocks, and the `n` bytes written at the cursor lie in one block and
/// within the store.
pub proof fn lemma_chunk_held(before: Stream, mem: Seq<u8>, blocks: Seq<Block>, from: int, n: int)
    requires
        0 <= from <= before.offset,
        0 <= n <= 512 - before.offset % 512,
        stream_holds(before.disk.mem, before.blocks, from, before.offset - from),
        before.blocks.is_prefix_of(blocks),
        mem.len() >= before.disk.mem.len(),
        n > 0 ==> before.offset / 512 < blocks.len() && mem.len() >= place(blocks, before.offset)
            + n,
    ensures
        stream_holds(mem, blocks, from, before.offset - from + n),
{
    assert forall|k: int| from <= k < before.offset + n implies #[trigger] stream_has(
        mem,
        blocks,
        k,
    ) by {
        if k < before.offset {
            assert(stream_has(before.disk.mem, before.blocks, k));
            assert(blocks[k / 512] == before.blocks[k / 512]);
        } else {
            lemma_same_block(before.offset, k - before.offset);
        }
    }
}

/// Bytes that end in the block in which they start are written by one write:
/// writing all of them fits where that write fits, and makes of the stream
/// what that write makes of it.
pub proof fn lemma_all_written_within(stream: Stream, buf: Seq<u8>, page: int, max_pages: int)
    requires
        0 <= stream.offset,
        0 < buf.len(),
        stream.offset % 512 + buf.len() <= 512,
    ensures
        all_fit(stream, buf, page, max_pages) == chunk_fits(
            stream,
            buf.len() as int,
            page,
            max_pages,
        ),
        all_written(stream, buf, page) == chunk_written(stream, buf, page),
{
    let len = buf.len() as int;
    lemma_same_block(stream.offset, len - 1);
    assert(last_cut(stream.offset, len) == 0);
    lemma_all_written_nothing(stream, buf.take(0), page);
    reveal_with_fuel(all_fit, 2);
    reveal_with_fuel(laid, 2);
    assert(buf.skip(0) =~= buf);
    assert(buf.take(len) =~= buf);
    assert(chunk_len(stream.offset, len) == len);
}

/// Writing all of some bytes fits where writing them block by block does:
/// where the first `done` bytes of `buf` end at a block's end, or `done` is
/// zero, all the bytes up to the end of the next write fit exactly where the
/// first `done` fit and the next write fits after them.
pub proof fn lemma_all_fit_step(first: Stream, buf: Seq<u8>, done: int, page: int, max_pages: int)
    requires
        0 <= first.offset,
        0 <= done < buf.len(),
        done == 0 || (first.offset + done) % 512 == 0,
    ensures
        ({
            let n = chunk_len(first.offset + done, buf.len() - done);
            &&& 0 < n <= buf.len() - done
            &&& done + n == buf.len() || (first.offset + done + n) % 512 == 0
            &&& all_fit(first, buf.take(done + n), page, max_pages) == (all_fit(
                first,
                buf.take(done),
                page,
                max_pages,
            ) && chunk_fits(
                all_written(first, buf.take(done), page),
                buf.len() - done,
                page,
                max_pages,
            ))
        }),
{
    let at = first.offset + done;
    let n = chunk_len(at, buf.len() - done);
    lemma_same_block(at, n - 1);
    if done > 0 {
        assert((at - 1) / 512 == at / 512 - 1);
    }
    let data = buf.take(done + n);
    assert(last_cut(first.offset, data.len() as int) == done);
    assert(data.take(done) =~= buf.take(done));
    assert(chunk_len(at, n) == n);
    let middle = all_written(first, buf.take(done), page);
    assert(middle.offset == at);
}

/// Where all of some bytes fit, so do those of them that end at a block's
/// end.
pub proof fn lemma_all_fit_prefix(first: Stream, buf: Seq<u8>, k: int, page: int, max_pages: int)
    requires
        0 <= first.offset,
        0 < k <= buf.len(),
        k == buf.len() || (first.offset + k) % 512 == 0,
        all_fit(first, buf, page, max_pages),
    ensures
        all_fit(first, buf.take(k), page, max_pages),
    decreases buf.len(),
{
    if k == buf.len() {
        assert(buf.take(k) =~= buf);
    } else {
        let cut = last_cut(first.offset, buf.len() as int);
        assert(first.offset + k <= (first.offset + buf.len() - 1) / 512 * 512) by {
            let end = first.offset + buf.len() - 1;
            assert((first.offset + k) / 512 <= end / 512);
            assert((first.offset + k) / 512 * 512 == first.offset + k);
        }
        assert(k <= cut < buf.len());
        lemma_all_fit_prefix(first, buf.take(cut), k, page, max_pages);
        assert(buf.take(cut).take(k) =~= buf.take(k));
    }
}

/// The next write decides whether all of some bytes fit: where the first
/// `done` bytes of `buf` fit and end at a block's end, or `done` is zero, the
/// bytes up to the end of the next write fit where that write fits, and not
/// all of `buf` fit where it does not.
pub proof fn lemma_all_fit_next(first: Stream, buf: Seq<u8>, done: int, page: int, max_pages: int)
    requires
        0 <= first.offset,
        0 <= done < buf.len(),
        done == 0 || (first.offset + done) % 512 == 0,
        all_fit(first, buf.take(done), page, max_pages),
    ensures
        chunk_fits(
            all_written(first, buf.take(done), page),
            buf.len() - done,
            page,
            max_pages,
        ) ==> all_fit(
            first,
            buf.take(done + chunk_len(first.offset + done, buf.len() - done)),
            page,
            max_pages,
        ),
        !chunk_fits(all_written(first, buf.take(done), page), buf.len() - done, page, max_pages)
            ==> !all_fit(first, buf, page, max_pages),
{
    lemma_all_fit_step(first, buf, done, page, max_pages);
    if all_fit(first, buf, page, max_pages) {
        lemma_all_fit_prefix(
            first,
            buf,
            done + chunk_len(first.offset + done, buf.len() - done),
            page,
            max_pages,
        );
    }
}

/// Writing nothing changes nothing.
pub proof fn lemma_all_written_nothing(stream: Stream, buf: Seq<u8>, page: int)
    requires
        buf.len() == 0,
    ensures
        all_written(stream, buf, page) == stream,
        can_write(stream, 0),
        extends(stream, stream),
{
    assert(stream.blocks + blocks_of(allocations(stream.disk.bits, 0)) =~= stream.blocks);
}

/// What extends a stream that extends another extends that one.
pub proof fn lemma_extends_trans(a: Stream, b: Stream, c: Stream)
    requires
        extends(a, b),
        extends(b, c),
    ensures
        extends(a, c),
{
    assert forall|i: int|
        #![trigger c.disk.bits[i]]
        0 <= i < a.disk.bits.len() && a.disk.bits[i] implies c.disk.bits[i] by {
        assert(b.disk.bits[i]);
    }
}

/// Writing all of some bytes is writing them block by block: where the
/// first `done` bytes of `buf` end at a block's end, or `done` is zero, one
/// write of the rest after all of them makes what writing all of the bytes
/// up to the end of that write makes.
#[verifier::rlimit(40)]
pub proof fn lemma_all_written_step(first: Stream, buf: Seq<u8>, done: int, page: int)
    requires
        0 <= first.offset,
        0 <= done < buf.len(),
        done == 0 || (first.offset + done) % 512 == 0,
        can_write(first, done),
        free_count(all_written(first, buf.take(done), page).disk.bits) >= lacking(
            all_written(first, buf.take(done), page).blocks.len() as int,
            first.offset + done,
        ),
    ensures
        ({
            let n = chunk_len(first.offset + done, buf.len() - done);
            &&& 0 < n <= buf.len() - done
            &&& can_write(first, done + n)
            &&& chunk_written(all_written(first, buf.take(done), page), buf.skip(done), page)
                == all_written(first, buf.take(done + n), page)
            &&& first.offset + done + n <= 512 * all_written(
                first,
                buf.take(done + n),
                page,
            ).blocks.len()
            &&& done + n == buf.len() || (first.offset + done + n) % 512 == 0
        }),
{
    let bits0 = first.disk.bits;
    let blocks0 = first.blocks;
    let at = first.offset + done;
    let n = chunk_len(at, buf.len() - done);
    let before = lacking_for(blocks0.len() as int, first.offset, done);
    let middle = all_written(first, buf.take(done), page);
    let more = lacking(middle.blocks.len() as int, at);
    let after = chunk_written(middle, buf.skip(done), page);
    let whole = all_written(first, buf.take(done + n), page);
    lemma_same_block(at, n - 1);
    crate::bitmap::lemma_allocations_ascend(bits0, before);
    lemma_allocations_keep(bits0, before);
    assert(middle.blocks.len() == blocks0.len() + before);
    if done > 0 {
        assert((at - 1) / 512 == at / 512 - 1);
    }
    assert(before + more == lacking_for(blocks0.len() as int, first.offset, done + n));
    lemma_allocations_compose(bits0, before, more);
    crate::bitmap::lemma_allocations_ascend(bits0, before + more);
    assert(blocks_of(allocations(bits0, before + more)) =~= blocks_of(allocations(bits0, before))
        + blocks_of(allocations(after_allocations(bits0, before), more)));
    assert(after.blocks =~= whole.blocks);
    let data = buf.take(done + n);
    assert(last_cut(first.offset, data.len() as int) == done);
    assert(data.take(done) =~= buf.take(done));
    assert(data.skip(done) =~= buf.skip(done).take(n));
    lemma_laid_frame(first.disk.mem, middle.blocks, whole.blocks, first.offset, buf.take(done), page);
    assert(after.disk.mem == whole.disk.mem);
    assert(after.disk.bits == whole.disk.bits);
}

} // verus!
