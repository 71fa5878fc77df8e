//! The block model: what a header records, and when a sequence of blocks
//! is a valid division of an arena.

use vstd::prelude::*;
use crate::layout::{ALIGNMENT, HEADER_SIZE, is_aligned};

verus! {

/// One block of the arena, as its header describes it.
///
/// Blocks are kept in address order, so the physical neighbours of a block are
/// the entries before and after it in the chain.
#[derive(Clone, Copy, Debug, PartialEq, Eq, Structural)]
pub struct Block {
    /// Offset of the header from the base of the arena.
    pub offset: usize,
    /// Bytes of the whole block, header included.
    pub total_size: usize,
    /// Whether the block is free.
    pub is_free: bool,
}

impl Block {
    /// Offset just behind the block, where its successor starts.
    pub open spec fn end(self) -> int {
        self.offset + self.total_size
    }

    /// Offset of the payload: the header's offset plus the header size.
    pub open spec fn payload(self) -> int {
        self.offset + HEADER_SIZE
    }

    /// Bytes of payload that the block offers.
    pub open spec fn capacity(self) -> int {
        self.total_size - HEADER_SIZE
    }

    /// The block is free and its payload holds `size` bytes.
    pub open spec fn fits(self, size: int) -> bool {
        self.is_free && self.capacity() >= size
    }

    /// The block has room for its header, and starts and ends on the alignment unit.
    pub open spec fn well_formed(self) -> bool {
        &&& self.total_size >= HEADER_SIZE
        &&& is_aligned(self.offset as int)
        &&& is_aligned(self.total_size as int)
    }

    /// Whether the block is free and its payload holds `size` bytes.
    pub fn can_hold(&self, size: usize) -> (r: bool)
        ensures
            r == self.fits(size as int),
    {
        self.is_free && self.total_size >= HEADER_SIZE && self.total_size - HEADER_SIZE >= size
    }
}

/// The header offset that belongs to a payload offset: the payload offset
/// less the header size.
pub open spec fn header_of(payload: int) -> int {
    payload - HEADER_SIZE
}

/// Header and payload determine each other: from the payload of a block one
/// gets back to its header, and an aligned header has an aligned payload.
pub proof fn lemma_header_of_payload(b: Block)
    ensures
        header_of(b.payload()) == b.offset,
        is_aligned(b.offset as int) <==> is_aligned(b.payload()),
{
}

/// Block `i` ends where block `i + 1` starts.
pub open spec fn adjoins(blocks: Seq<Block>, i: int) -> bool {
    blocks[i].end() == blocks[i + 1].offset
}

/// Blocks `i` and `i + 1` are not both free.
pub open spec fn not_both_free(blocks: Seq<Block>, i: int) -> bool {
    !(blocks[i].is_free && blocks[i + 1].is_free)
}

/// The blocks divide the bytes `0 .. size` without gap or overlap, in address
/// order, and each of them is well formed.
pub open spec fn partitions(blocks: Seq<Block>, size: usize) -> bool {
    &&& blocks.len() > 0
    &&& blocks[0].offset == 0
    &&& blocks[blocks.len() - 1].end() == size
    &&& forall|i: int| 0 <= i < blocks.len() ==> (#[trigger] blocks[i]).well_formed()
    &&& forall|i: int| 0 <= i < blocks.len() - 1 ==> #[trigger] adjoins(blocks, i)
}

/// No two neighbours in the chain are both free.
pub open spec fn coalesced(blocks: Seq<Block>) -> bool {
    forall|i: int| 0 <= i < blocks.len() - 1 ==> #[trigger] not_both_free(blocks, i)
}

/// The free list of a chain: its free blocks, in address order.
pub open spec fn free_blocks(blocks: Seq<Block>) -> Seq<Block> {
    blocks.filter(|b: Block| b.is_free)
}

/// Sum of the total sizes of the blocks.
pub open spec fn sum_sizes(blocks: Seq<Block>) -> int
    decreases blocks.len(),
{
    if blocks.len() == 0 {
        0
    } else {
        sum_sizes(blocks.drop_last()) + blocks.last().total_size
    }
}

/// In a chain without gaps the sizes of the first `k` blocks add up to the
/// distance from the first block's offset to the end of block `k - 1`.
proof fn lemma_sum_prefix(blocks: Seq<Block>, k: int)
    requires
        0 < k <= blocks.len(),
        forall|i: int| 0 <= i < blocks.len() - 1 ==> #[trigger] adjoins(blocks, i),
    ensures
        sum_sizes(blocks.take(k)) == blocks[k - 1].end() - blocks[0].offset,
    decreases k,
{
    let prefix = blocks.take(k);
    assert(prefix.last() == blocks[k - 1]);
    assert(prefix.drop_last() =~= blocks.take(k - 1));
    if k == 1 {
        assert(sum_sizes(blocks.take(0)) == 0);
    } else {
        lemma_sum_prefix(blocks, k - 1);
        assert(adjoins(blocks, k - 2));
    }
}

/// Conservation: the sizes of the blocks of a partition add up to the size of the arena.
pub proof fn lemma_partition_conserves_size(blocks: Seq<Block>, size: usize)
    requires
        partitions(blocks, size),
    ensures
        sum_sizes(blocks) == size,
{
    lemma_sum_prefix(blocks, blocks.len() as int);
    assert(blocks.take(blocks.len() as int) =~= blocks);
}

/// Offsets grow strictly along a partition.
pub proof fn lemma_offsets_increase(blocks: Seq<Block>, size: usize, i: int, j: int)
    requires
        partitions(blocks, size),
        0 <= i < j < blocks.len(),
    ensures
        blocks[i].end() <= blocks[j].offset,
        blocks[i].offset < blocks[j].offset,
    decreases j - i,
{
    if i + 1 < j {
        lemma_offsets_increase(blocks, size, i, j - 1);
        assert(adjoins(blocks, j - 1));
        assert(blocks[j - 1].well_formed());
    } else {
        assert(adjoins(blocks, i));
    }
    assert(blocks[i].well_formed());
}

/// Every block of a partition lies inside the arena.
pub proof fn lemma_block_within(blocks: Seq<Block>, size: usize, i: int)
    requires
        partitions(blocks, size),
        0 <= i < blocks.len(),
    ensures
        blocks[i].end() <= size,
{
    let last = blocks.len() - 1;
    if i < last {
        lemma_offsets_increase(blocks, size, i, last);
        assert(blocks[last].well_formed());
    }
}

} // verus!
