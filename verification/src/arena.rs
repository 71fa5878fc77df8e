//! The allocator engine: an arena, its chain of blocks, and the operations on it.

use vstd::prelude::*;
use crate::block::{
    Block, adjoins, coalesced, free_blocks, header_of, lemma_block_within, lemma_offsets_increase,
    lemma_partition_conserves_size, not_both_free, partitions, sum_sizes,
};
use crate::fit::{FitFunction, lemma_select, no_fit, select};
use crate::layout::{ALIGNMENT, HEADER_SIZE, MIN_BLOCK_SIZE, align_up, is_aligned, round_up};

verus! {

/// A request for a block of `need` bytes splits block `b`: what is left over
/// is larger than the least block worth having.
pub open spec fn splits(b: Block, need: int) -> bool {
    b.total_size - need > MIN_BLOCK_SIZE
}

/// The chain after block `i` has served a request for a block of `need` bytes.
///
/// When more than [`MIN_BLOCK_SIZE`] bytes are left over, the block is split:
/// its first `need` bytes become the allocated block and the rest a free block
/// right behind it. Otherwise the whole block is allocated.
pub open spec fn place(blocks: Seq<Block>, i: int, need: int) -> Seq<Block> {
    let b = blocks[i];
    if splits(b, need) {
        blocks.update(i, Block { offset: b.offset, total_size: need as usize, is_free: false })
            .insert(
            i + 1,
            Block {
                offset: (b.offset + need) as usize,
                total_size: (b.total_size - need) as usize,
                is_free: true,
            },
        )
    } else {
        blocks.update(i, Block { offset: b.offset, total_size: b.total_size, is_free: false })
    }
}

/// The chain after block `i` has been freed and merged with its free neighbours.
///
/// The blocks from `lo` up to `hi` (block `i`, with the block before it and
/// the block behind it as far as they are free) give way to one free block
/// that spans them.
pub open spec fn release(blocks: Seq<Block>, i: int) -> Seq<Block> {
    let lo = if i > 0 && blocks[i - 1].is_free {
        i - 1
    } else {
        i
    };
    let hi = if i + 1 < blocks.len() && blocks[i + 1].is_free {
        i + 2
    } else {
        i + 1
    };
    let merged = Block {
        offset: blocks[lo].offset,
        total_size: (blocks[hi - 1].end() - blocks[lo].offset) as usize,
        is_free: true,
    };
    blocks.subrange(0, lo).push(merged) + blocks.subrange(hi, blocks.len() as int)
}

/// Block `i` is allocated and its payload starts at `ptr`: the header that
/// belongs to `ptr` is the header of block `i`.
pub open spec fn allocated_at(blocks: Seq<Block>, ptr: int, i: int) -> bool {
    &&& 0 <= i < blocks.len()
    &&& !blocks[i].is_free
    &&& blocks[i].offset == header_of(ptr)
}

/// The index of the allocated block whose payload starts at `ptr`, if there is one.
pub open spec fn allocated_index(blocks: Seq<Block>, ptr: int) -> Option<int> {
    if exists|i: int| allocated_at(blocks, ptr, i) {
        Some(choose|i: int| allocated_at(blocks, ptr, i))
    } else {
        None
    }
}

/// The payload offsets of the allocated blocks: the pointers that are in use.
pub open spec fn live(blocks: Seq<Block>) -> Set<int> {
    Set::new(|p: int| exists|i: int| allocated_at(blocks, p, i))
}

/// No payload starts before the end of the first header. In particular the
/// null offset, 0, is never in use.
pub proof fn lemma_null_is_not_live(blocks: Seq<Block>)
    ensures
        forall|p: int| p < HEADER_SIZE ==> !live(blocks).contains(p),
        forall|p: int| p < HEADER_SIZE ==> allocated_index(blocks, p) is None,
{
}

/// In a partition at most one block has its payload at a given offset.
pub proof fn lemma_allocated_index(blocks: Seq<Block>, size: usize, ptr: int)
    requires
        partitions(blocks, size),
    ensures
        forall|i: int| allocated_index(blocks, ptr) == Some(i) <==> allocated_at(blocks, ptr, i),
{
    assert forall|i: int| allocated_at(blocks, ptr, i) implies allocated_index(blocks, ptr)
        == Some(i) by {
        let c = choose|c: int| allocated_at(blocks, ptr, c);
        if c < i {
            lemma_offsets_increase(blocks, size, c, i);
        } else if i < c {
            lemma_offsets_increase(blocks, size, i, c);
        }
    }
}

/// Serving a request from a free block of a valid chain leaves a valid chain.
pub proof fn lemma_place_valid(blocks: Seq<Block>, size: usize, i: int, need: int)
    requires
        partitions(blocks, size),
        coalesced(blocks),
        0 <= i < blocks.len(),
        blocks[i].is_free,
        is_aligned(need),
        HEADER_SIZE <= need <= blocks[i].total_size,
    ensures
        partitions(place(blocks, i, need), size),
        coalesced(place(blocks, i, need)),
{
    let after = place(blocks, i, need);
    let b = blocks[i];
    assert(b.well_formed());
    lemma_block_within(blocks, size, i);
    if splits(b, need) {
        assert(after.len() == blocks.len() + 1);
        assert(forall|j: int| 0 <= j < i ==> after[j] == blocks[j]);
        assert(forall|j: int| i + 1 < j < after.len() ==> after[j] == blocks[j - 1]);
        assert(after[i].end() == after[i + 1].offset);
        assert(after[i + 1].end() == b.end());
        assert forall|j: int| 0 <= j < after.len() implies (#[trigger] after[j]).well_formed() by {
            if j < i {
                assert(blocks[j].well_formed());
            } else if j > i + 1 {
                assert(blocks[j - 1].well_formed());
            }
        }
        assert forall|j: int| 0 <= j < after.len() - 1 implies #[trigger] adjoins(after, j) by {
            if j < i {
                assert(adjoins(blocks, j));
            } else if j > i {
                assert(adjoins(blocks, j - 1));
            }
        }
        assert forall|j: int| 0 <= j < after.len() - 1 implies #[trigger] not_both_free(
            after,
            j,
        ) by {
            if j < i {
                assert(not_both_free(blocks, j));
            } else if j > i {
                assert(not_both_free(blocks, j - 1));
                if j == i + 1 {
                    assert(not_both_free(blocks, i));
                }
            }
        }
    } else {
        assert(after.len() == blocks.len());
        assert(forall|j: int| 0 <= j < after.len() && j != i ==> after[j] == blocks[j]);
        assert forall|j: int| 0 <= j < after.len() implies (#[trigger] after[j]).well_formed() by {
            assert(blocks[j].well_formed());
        }
        assert forall|j: int| 0 <= j < after.len() - 1 implies #[trigger] adjoins(after, j) by {
            assert(adjoins(blocks, j));
        }
        assert forall|j: int| 0 <= j < after.len() - 1 implies #[trigger] not_both_free(
            after,
            j,
        ) by {
            assert(not_both_free(blocks, j));
        }
    }
}

/// Freeing an allocated block of a valid chain leaves a valid chain.
pub proof fn lemma_release_valid(blocks: Seq<Block>, size: usize, i: int)
    requires
        partitions(blocks, size),
        coalesced(blocks),
        0 <= i < blocks.len(),
        !blocks[i].is_free,
    ensures
        partitions(release(blocks, i), size),
        coalesced(release(blocks, i)),
{
    let lo = if i > 0 && blocks[i - 1].is_free {
        i - 1
    } else {
        i
    };
    let hi = if i + 1 < blocks.len() && blocks[i + 1].is_free {
        i + 2
    } else {
        i + 1
    };
    let after = release(blocks, i);
    let gone = hi - lo - 1;
    assert(after.len() == blocks.len() - gone);
    assert(forall|j: int| 0 <= j < lo ==> after[j] == blocks[j]);
    assert(forall|j: int| lo < j < after.len() ==> after[j] == blocks[j + gone]);
    assert(blocks[lo].well_formed());
    assert(blocks[i].well_formed());
    assert(blocks[hi - 1].well_formed());
    if lo < i {
        assert(adjoins(blocks, lo));
    }
    if i < hi - 1 {
        assert(adjoins(blocks, i));
    }
    lemma_block_within(blocks, size, hi - 1);
    assert(after[lo].offset == blocks[lo].offset);
    assert(after[lo].end() == blocks[hi - 1].end());
    assert(after[lo].is_free);
    assert(after[lo].well_formed());
    assert forall|j: int| 0 <= j < after.len() implies (#[trigger] after[j]).well_formed() by {
        if j < lo {
            assert(blocks[j].well_formed());
        } else if j > lo {
            assert(blocks[j + gone].well_formed());
        }
    }
    assert forall|j: int| 0 <= j < after.len() - 1 implies #[trigger] adjoins(after, j) by {
        if j < lo {
            assert(adjoins(blocks, j));
        } else {
            assert(adjoins(blocks, j + gone));
        }
    }
    assert forall|j: int| 0 <= j < after.len() - 1 implies #[trigger] not_both_free(after, j) by {
        if j < lo {
            assert(not_both_free(blocks, j));
        } else {
            assert(not_both_free(blocks, j + gone));
            if j == lo && hi == i + 2 {
                assert(not_both_free(blocks, i + 1));
            }
        }
    }
}

/// Serving a request from a free block brings one pointer into use, a new one:
/// the payload of that block.
pub proof fn lemma_place_live(blocks: Seq<Block>, size: usize, i: int, need: int)
    requires
        partitions(blocks, size),
        coalesced(blocks),
        0 <= i < blocks.len(),
        blocks[i].is_free,
        is_aligned(need),
        HEADER_SIZE <= need <= blocks[i].total_size,
    ensures
        !live(blocks).contains(blocks[i].payload()),
        live(place(blocks, i, need)) == live(blocks).insert(blocks[i].payload()),
{
    let after = place(blocks, i, need);
    let ptr = blocks[i].payload();
    let shift = if splits(blocks[i], need) {
        1int
    } else {
        0int
    };
    lemma_block_within(blocks, size, i);
    assert(after.len() == blocks.len() + shift);
    assert(forall|j: int| 0 <= j < i ==> after[j] == blocks[j]);
    assert(forall|j: int| i + shift < j < after.len() ==> after[j] == blocks[j - shift]);
    assert(allocated_at(after, ptr, i));
    assert forall|c: int| !allocated_at(blocks, ptr, c) by {
        if 0 <= c < i {
            lemma_offsets_increase(blocks, size, c, i);
        } else if i < c < blocks.len() {
            lemma_offsets_increase(blocks, size, i, c);
        }
    }
    assert forall|p: int| live(after).contains(p) <==> live(blocks).insert(ptr).contains(p) by {
        if live(after).contains(p) {
            let c = choose|c: int| allocated_at(after, p, c);
            if c < i {
                assert(allocated_at(blocks, p, c));
            } else if c > i {
                assert(allocated_at(blocks, p, c - shift));
            }
        }
        if live(blocks).contains(p) {
            let c = choose|c: int| allocated_at(blocks, p, c);
            if c < i {
                assert(allocated_at(after, p, c));
            } else {
                assert(allocated_at(after, p, c + shift));
            }
        }
    }
    assert(live(after) =~= live(blocks).insert(ptr));
}

/// Freeing an allocated block takes its pointer out of use, and no other.
pub proof fn lemma_release_live(blocks: Seq<Block>, size: usize, i: int)
    requires
        partitions(blocks, size),
        coalesced(blocks),
        0 <= i < blocks.len(),
        !blocks[i].is_free,
    ensures
        live(blocks).contains(blocks[i].payload()),
        live(release(blocks, i)) == live(blocks).remove(blocks[i].payload()),
{
    let lo = if i > 0 && blocks[i - 1].is_free {
        i - 1
    } else {
        i
    };
    let hi = if i + 1 < blocks.len() && blocks[i + 1].is_free {
        i + 2
    } else {
        i + 1
    };
    let after = release(blocks, i);
    let gone = hi - lo - 1;
    let ptr = blocks[i].payload();
    assert(after.len() == blocks.len() - gone);
    assert(forall|j: int| 0 <= j < lo ==> after[j] == blocks[j]);
    assert(forall|j: int| lo < j < after.len() ==> after[j] == blocks[j + gone]);
    assert(after[lo].is_free);
    assert(allocated_at(blocks, ptr, i));
    assert forall|p: int| live(after).contains(p) <==> live(blocks).remove(ptr).contains(p) by {
        if live(after).contains(p) {
            let c = choose|c: int| allocated_at(after, p, c);
            if c < lo {
                assert(allocated_at(blocks, p, c));
                lemma_offsets_increase(blocks, size, c, i);
            } else {
                assert(allocated_at(blocks, p, c + gone));
                lemma_offsets_increase(blocks, size, i, c + gone);
            }
        }
        if live(blocks).remove(ptr).contains(p) {
            let c = choose|c: int| allocated_at(blocks, p, c);
            if c < lo {
                assert(allocated_at(after, p, c));
            } else {
                assert(c >= hi);
                assert(allocated_at(after, p, c - gone));
            }
        }
    }
    assert(live(after) =~= live(blocks).remove(ptr));
}

/// Full reclamation: a valid chain with no pointer in use is the chain of a
/// fresh arena, one free block that spans it.
pub proof fn lemma_nothing_live(blocks: Seq<Block>, size: usize)
    requires
        partitions(blocks, size),
        coalesced(blocks),
        live(blocks) == Set::<int>::empty(),
    ensures
        blocks == seq![(Block { offset: 0, total_size: size, is_free: true })],
{
    assert forall|j: int| 0 <= j < blocks.len() implies (#[trigger] blocks[j]).is_free by {
        if !blocks[j].is_free {
            assert(allocated_at(blocks, blocks[j].payload(), j));
            assert(live(blocks).contains(blocks[j].payload()));
        }
    }
    if blocks.len() > 1 {
        assert(not_both_free(blocks, 0));
    }
    assert(blocks =~= seq![(Block { offset: 0, total_size: size, is_free: true })]);
}

/// Freeing a block right after it was allocated restores the chain.
pub proof fn lemma_release_undoes_place(blocks: Seq<Block>, size: usize, i: int, need: int)
    requires
        partitions(blocks, size),
        coalesced(blocks),
        0 <= i < blocks.len(),
        blocks[i].is_free,
        is_aligned(need),
        HEADER_SIZE <= need <= blocks[i].total_size,
    ensures
        release(place(blocks, i, need), i) == blocks,
{
    let after = place(blocks, i, need);
    lemma_block_within(blocks, size, i);
    if i > 0 {
        assert(not_both_free(blocks, i - 1));
    }
    if i + 1 < blocks.len() {
        assert(not_both_free(blocks, i));
    }
    assert(release(after, i) =~= blocks);
}

/// A fixed-size arena with its chain of blocks and its active fit strategy.
///
/// Offsets stand for addresses: offset 0 is the base of the arena, and the
/// "pointers" that [`Arena::allocate`] hands out are payload offsets. No
/// payload starts at offset 0, so 0 can stand for the null pointer.
pub struct Arena {
    size: usize,
    fit: FitFunction,
    blocks: Vec<Block>,
}

impl View for Arena {
    type V = Seq<Block>;

    /// The chain of blocks, in address order.
    closed spec fn view(&self) -> Seq<Block> {
        self.blocks@
    }
}

impl Arena {
    /// Size of the arena in bytes.
    pub closed spec fn spec_size(&self) -> usize {
        self.size
    }

    /// The active fit strategy.
    pub closed spec fn spec_fit(&self) -> FitFunction {
        self.fit
    }

    /// The arena's invariant: the blocks divide the arena exactly, and no two
    /// neighbours are both free.
    pub open spec fn wf(&self) -> bool {
        &&& partitions(self@, self.spec_size())
        &&& coalesced(self@)
    }

    /// Conservation: whenever the invariant holds, the sizes of all the blocks
    /// add up to the size of the arena.
    pub proof fn lemma_conservation(&self)
        requires
            self.wf(),
        ensures
            sum_sizes(self@) == self.spec_size(),
    {
        lemma_partition_conserves_size(self@, self.spec_size());
    }

    /// Sets up an arena of `size` bytes: one free block that spans it, and
    /// first fit as the strategy.
    ///
    /// Every call makes a new arena, independent of the others: pointers of one
    /// arena mean nothing to another.
    pub fn init(size: usize) -> (arena: Arena)
        requires
            size >= HEADER_SIZE,
            is_aligned(size as int),
        ensures
            arena.wf(),
            arena.spec_size() == size,
            arena.spec_fit() == FitFunction::First,
            arena@ == seq![(Block { offset: 0, total_size: size, is_free: true })],
    {
        let mut blocks: Vec<Block> = Vec::new();
        blocks.push(Block { offset: 0, total_size: size, is_free: true });
        assert(blocks@ =~= seq![(Block { offset: 0, total_size: size, is_free: true })]);
        Arena { size, fit: FitFunction::First, blocks }
    }

    /// Size of the arena in bytes.
    #[verifier::when_used_as_spec(spec_size)]
    pub fn size(&self) -> (r: usize)
        ensures
            r == self.spec_size(),
    {
        self.size
    }

    /// The active fit strategy.
    #[verifier::when_used_as_spec(spec_fit)]
    pub fn fit(&self) -> (r: FitFunction)
        ensures
            r == self.spec_fit(),
    {
        self.fit
    }

    /// The chain of blocks, in address order.
    pub fn blocks(&self) -> (r: &Vec<Block>)
        ensures
            r@ == self@,
    {
        &self.blocks
    }

    /// Makes `fit` the active strategy. The blocks stay as they are; only later
    /// allocations see the change.
    pub fn set_fit(&mut self, fit: FitFunction)
        ensures
            final(self).spec_fit() == fit,
            final(self).spec_size() == old(self).spec_size(),
            final(self)@ == old(self)@,
            old(self).wf() ==> final(self).wf(),
    {
        self.fit = fit;
    }

    /// Allocates `size` bytes and returns the offset of the payload, or `None`
    /// when no free block has room.
    ///
    /// The request is rounded up to the alignment unit, and the active strategy
    /// picks among the free blocks whose payload holds that many bytes. The
    /// block picked is split if more than [`MIN_BLOCK_SIZE`] bytes would be
    /// left over, and allocated whole if not.
    pub fn allocate(&mut self, size: usize) -> (r: Option<usize>)
        requires
            old(self).wf(),
        ensures
            final(self).wf(),
            final(self).spec_size() == old(self).spec_size(),
            final(self).spec_fit() == old(self).spec_fit(),
            match select(old(self).spec_fit(), old(self)@, round_up(size as int)) {
                Some(i) => {
                    &&& r matches Some(p) && p == old(self)@[i].payload()
                    &&& final(self)@ == place(
                        old(self)@,
                        i,
                        round_up(size as int) + HEADER_SIZE,
                    )
                    &&& splits(old(self)@[i], round_up(size as int) + HEADER_SIZE) ==> {
                        &&& final(self)@.len() == old(self)@.len() + 1
                        &&& !final(self)@[i].is_free
                        &&& final(self)@[i].total_size == round_up(size as int) + HEADER_SIZE
                        &&& final(self)@[i + 1].is_free
                        &&& final(self)@[i + 1].offset == final(self)@[i].end()
                        &&& final(self)@[i + 1].end() == old(self)@[i].end()
                    }
                    &&& !splits(old(self)@[i], round_up(size as int) + HEADER_SIZE) ==> {
                        &&& final(self)@.len() == old(self)@.len()
                        &&& !final(self)@[i].is_free
                        &&& final(self)@[i].total_size == old(self)@[i].total_size
                    }
                },
                None => r is None && final(self)@ == old(self)@,
            },
            r is None <==> no_fit(old(self)@, round_up(size as int)),
            size > old(self).spec_size() ==> r is None && final(self)@ == old(self)@,
            r matches Some(p) ==> p >= HEADER_SIZE && is_aligned(p as int),
            r matches Some(p) ==> allocated_index(final(self)@, p as int) matches Some(i)
                && final(self)@[i].capacity() >= size,
            r matches Some(p) ==> !live(old(self)@).contains(p as int) && live(final(self)@)
                == live(old(self)@).insert(p as int),
    {
        proof {
            lemma_select(self.fit, self@, round_up(size as int));
            assert(self@[self@.len() - 1].well_formed());
        }
        if size > self.size {
            proof {
                assert forall|j: int| 0 <= j < self@.len() implies !(#[trigger] self@[j]).fits(
                    round_up(size as int),
                ) by {
                    lemma_block_within(self@, self.size, j);
                }
            }
            return None;
        }
        let payload: usize = align_up(size);
        match self.fit.to_fn(&self.blocks, payload) {
            None => None,
            Some(i) => {
                let b: Block = self.blocks[i];
                let need: usize = payload + HEADER_SIZE;
                proof {
                    assert(self@[i as int].well_formed());
                    lemma_block_within(self@, self.size, i as int);
                    lemma_place_valid(self@, self.size, i as int, need as int);
                    lemma_place_live(self@, self.size, i as int, need as int);
                }
                if b.total_size - need > MIN_BLOCK_SIZE {
                    self.blocks[i] = Block { offset: b.offset, total_size: need, is_free: false };
                    assert(i < self.blocks.len());
                    self.blocks.insert(
                        i + 1,
                        Block {
                            offset: b.offset + need,
                            total_size: b.total_size - need,
                            is_free: true,
                        },
                    );
                } else {
                    self.blocks[i] = Block {
                        offset: b.offset,
                        total_size: b.total_size,
                        is_free: false,
                    };
                }
                let p: usize = b.offset + HEADER_SIZE;
                proof {
                    lemma_allocated_index(self@, self.size, p as int);
                    assert(allocated_at(self@, p as int, i as int));
                }
                Some(p)
            },
        }
    }

    /// The index of the allocated block whose payload starts at `ptr`, or
    /// `None` when `ptr` is not the payload of an allocated block.
    ///
    /// The header sits [`HEADER_SIZE`] bytes before the payload; the block is
    /// the one whose offset that is.
    pub fn block_of(&self, ptr: usize) -> (r: Option<usize>)
        requires
            self.wf(),
        ensures
            match r {
                Some(i) => allocated_index(self@, ptr as int) == Some(i as int),
                None => allocated_index(self@, ptr as int) is None,
            },
    {
        proof {
            lemma_allocated_index(self@, self.size, ptr as int);
        }
        if ptr < HEADER_SIZE {
            return None;
        }
        let header: usize = ptr - HEADER_SIZE;
        let mut lo: usize = 0;
        let mut hi: usize = self.blocks.len();
        while lo < hi
            invariant
                lo <= hi <= self.blocks@.len(),
                partitions(self.blocks@, self.size),
                header == ptr - HEADER_SIZE,
                forall|j: int| 0 <= j < lo ==> (#[trigger] self.blocks@[j]).offset < header,
                forall|j: int|
                    hi <= j < self.blocks@.len() ==> (#[trigger] self.blocks@[j]).offset > header,
                forall|i: int|
                    allocated_index(self.blocks@, ptr as int) == Some(i) <==> allocated_at(
                        self.blocks@,
                        ptr as int,
                        i,
                    ),
            decreases hi - lo,
        {
            let mid: usize = lo + (hi - lo) / 2;
            let b: Block = self.blocks[mid];
            if b.offset == header {
                if b.is_free {
                    proof {
                        assert forall|c: int| !allocated_at(self.blocks@, ptr as int, c) by {
                            if 0 <= c < mid {
                                lemma_offsets_increase(self.blocks@, self.size, c, mid as int);
                            } else if mid < c < self.blocks@.len() {
                                lemma_offsets_increase(self.blocks@, self.size, mid as int, c);
                            }
                        }
                    }
                    return None;
                } else {
                    assert(allocated_at(self.blocks@, ptr as int, mid as int));
                    return Some(mid);
                }
            } else if b.offset < header {
                proof {
                    assert forall|j: int| 0 <= j < mid + 1 implies (#[trigger] self.blocks@[j]).offset
                        < header by {
                        if j < mid {
                            lemma_offsets_increase(self.blocks@, self.size, j, mid as int);
                        }
                    }
                }
                lo = mid + 1;
            } else {
                proof {
                    assert forall|j: int| mid <= j < self.blocks@.len() implies (
                    #[trigger] self.blocks@[j]).offset > header by {
                        if mid < j {
                            lemma_offsets_increase(self.blocks@, self.size, mid as int, j);
                        }
                    }
                }
                hi = mid;
            }
        }
        proof {
            assert forall|c: int| !allocated_at(self.blocks@, ptr as int, c) by {
                if 0 <= c < self.blocks@.len() {
                    assert(self.blocks@[c].offset != header);
                }
            }
        }
        None
    }

    /// Frees the allocated block whose payload starts at `ptr` and merges it
    /// with the free blocks next to it. Returns whether a block was freed.
    ///
    /// A `ptr` that is not the payload of an allocated block (one that was
    /// never handed out, one already freed, the null offset) is found out and
    /// left without effect.
    pub fn deallocate(&mut self, ptr: usize) -> (released: bool)
        requires
            old(self).wf(),
        ensures
            final(self).wf(),
            final(self).spec_size() == old(self).spec_size(),
            final(self).spec_fit() == old(self).spec_fit(),
            match allocated_index(old(self)@, ptr as int) {
                Some(i) => released && final(self)@ == release(old(self)@, i),
                None => !released && final(self)@ == old(self)@,
            },
            coalesced(final(self)@),
            released == live(old(self)@).contains(ptr as int),
            live(final(self)@) == live(old(self)@).remove(ptr as int),
    {
        match self.block_of(ptr) {
            None => {
                assert(live(self@).remove(ptr as int) =~= live(self@));
                false
            },
            Some(i) => {
                let ghost before = self.blocks@;
                let b: Block = self.blocks[i];
                proof {
                    lemma_allocated_index(before, self.size, ptr as int);
                    lemma_release_valid(before, self.size, i as int);
                    lemma_release_live(before, self.size, i as int);
                    lemma_block_within(before, self.size, i as int);
                    assert(before[i as int].well_formed());
                }
                let mut at: usize = i;
                if i > 0 && self.blocks[i - 1].is_free {
                    let prev: Block = self.blocks[i - 1];
                    proof {
                        assert(adjoins(before, i - 1));
                    }
                    self.blocks[i - 1] = Block {
                        offset: prev.offset,
                        total_size: prev.total_size + b.total_size,
                        is_free: true,
                    };
                    self.blocks.remove(i);
                    at = i - 1;
                } else {
                    self.blocks[i] = Block {
                        offset: b.offset,
                        total_size: b.total_size,
                        is_free: true,
                    };
                }
                assert(self.blocks@[at as int].end() == before[i as int].end());
                assert(at < self.blocks.len());
                if at + 1 < self.blocks.len() && self.blocks[at + 1].is_free {
                    let cur: Block = self.blocks[at];
                    proof {
                        assert(self.blocks@[at + 1] == before[i + 1]);
                        assert(adjoins(before, i as int));
                        lemma_block_within(before, self.size, i + 1);
                    }
                    let next: Block = self.blocks.remove(at + 1);
                    self.blocks[at] = Block {
                        offset: cur.offset,
                        total_size: cur.total_size + next.total_size,
                        is_free: true,
                    };
                }
                assert(self.blocks@ =~= release(before, i as int));
                true
            },
        }
    }

    /// The free list: the free blocks, in address order.
    pub fn free_list(&self) -> (r: Vec<Block>)
        ensures
            r@ == free_blocks(self@),
    {
        let mut free: Vec<Block> = Vec::new();
        proof {
            reveal(Seq::filter);
        }
        let mut i: usize = 0;
        while i < self.blocks.len()
            invariant
                i <= self.blocks@.len(),
                free@ == free_blocks(self.blocks@.take(i as int)),
            decreases self.blocks@.len() - i,
        {
            proof {
                reveal(Seq::filter);
                let next = self.blocks@.take(i + 1);
                assert(next.drop_last() =~= self.blocks@.take(i as int));
                assert(next.last() == self.blocks@[i as int]);
            }
            if self.blocks[i].is_free {
                free.push(self.blocks[i]);
            }
            i += 1;
        }
        assert(self.blocks@.take(i as int) =~= self.blocks@);
        free
    }
}

} // verus!
