//! Fit strategies: which free block serves a request.

use vstd::prelude::*;
use crate::block::Block;

verus! {

/// The policy by which a free block is picked for a request.
#[derive(Clone, Copy, Debug, PartialEq, Eq, Structural)]
#[non_exhaustive]
pub enum FitFunction {
    /// The first free block, in address order, that is large enough.
    First,
    /// The free block that leaves the least residue; among equals, the first.
    Best,
    /// The free block that leaves the largest residue; among equals, the first.
    Worst,
}

impl Default for FitFunction {
    /// The strategy in force until another is set: first fit.
    fn default() -> (r: Self)
        ensures
            r == FitFunction::First,
    {
        FitFunction::First
    }
}

/// Under `fit`, block `a` is strictly better than block `b` when both hold the request.
pub open spec fn preferred(fit: FitFunction, a: Block, b: Block) -> bool {
    match fit {
        FitFunction::First => false,
        FitFunction::Best => a.capacity() < b.capacity(),
        FitFunction::Worst => a.capacity() > b.capacity(),
    }
}

/// Among the first `k` blocks, block `i` is the choice of `fit` for `size`
/// bytes: it fits, it is strictly better than every fitting block before it,
/// and no fitting block behind it is strictly better.
pub open spec fn selected_within(
    fit: FitFunction,
    blocks: Seq<Block>,
    size: int,
    i: int,
    k: int,
) -> bool {
    &&& 0 <= i < k <= blocks.len()
    &&& blocks[i].fits(size)
    &&& forall|j: int|
        0 <= j < i && (#[trigger] blocks[j]).fits(size) ==> preferred(fit, blocks[i], blocks[j])
    &&& forall|j: int|
        i < j < k && (#[trigger] blocks[j]).fits(size) ==> !preferred(fit, blocks[j], blocks[i])
}

/// Block `i` is the choice of `fit` for `size` bytes among all the blocks.
pub open spec fn selected(fit: FitFunction, blocks: Seq<Block>, size: int, i: int) -> bool {
    selected_within(fit, blocks, size, i, blocks.len() as int)
}

/// No block is free with room for `size` bytes.
pub open spec fn no_fit(blocks: Seq<Block>, size: int) -> bool {
    forall|j: int| 0 <= j < blocks.len() ==> !(#[trigger] blocks[j]).fits(size)
}

/// The index of the block that `fit` picks for `size` bytes, if any block fits.
pub open spec fn select(fit: FitFunction, blocks: Seq<Block>, size: int) -> Option<int> {
    if exists|i: int| selected(fit, blocks, size, i) {
        Some(choose|i: int| selected(fit, blocks, size, i))
    } else {
        None
    }
}

/// A strategy never picks two blocks for one request.
pub proof fn lemma_selected_unique(
    fit: FitFunction,
    blocks: Seq<Block>,
    size: int,
    i: int,
    j: int,
)
    requires
        selected(fit, blocks, size, i),
        selected(fit, blocks, size, j),
    ensures
        i == j,
{
}

/// The choice among the first `k` blocks, built up block by block.
proof fn lemma_choice_within(fit: FitFunction, blocks: Seq<Block>, size: int, k: int) -> (w:
    Option<int>)
    requires
        0 <= k <= blocks.len(),
    ensures
        match w {
            Some(i) => selected_within(fit, blocks, size, i, k),
            None => forall|j: int| 0 <= j < k ==> !(#[trigger] blocks[j]).fits(size),
        },
    decreases k,
{
    if k == 0 {
        None
    } else {
        let before = lemma_choice_within(fit, blocks, size, k - 1);
        if !blocks[k - 1].fits(size) {
            before
        } else {
            match before {
                None => Some(k - 1),
                Some(i) => if preferred(fit, blocks[k - 1], blocks[i]) {
                    Some(k - 1)
                } else {
                    Some(i)
                },
            }
        }
    }
}

/// Every strategy picks a block exactly when some block fits, and the block
/// it picks is the one that [`selected`] describes.
pub proof fn lemma_select(fit: FitFunction, blocks: Seq<Block>, size: int)
    ensures
        select(fit, blocks, size) is None <==> no_fit(blocks, size),
        forall|i: int| select(fit, blocks, size) == Some(i) <==> selected(fit, blocks, size, i),
{
    match lemma_choice_within(fit, blocks, size, blocks.len() as int) {
        Some(w) => {
            assert(selected(fit, blocks, size, w));
            assert(blocks[w].fits(size));
        },
        None => {
            assert forall|i: int| !selected(fit, blocks, size, i) by {
                if 0 <= i < blocks.len() {
                    assert(!blocks[i].fits(size));
                }
            }
        },
    }
    assert forall|i: int| selected(fit, blocks, size, i) implies select(fit, blocks, size) == Some(
        i,
    ) by {
        let c = choose|c: int| selected(fit, blocks, size, c);
        lemma_selected_unique(fit, blocks, size, i, c);
    }
}

/// First fit: the first block, in address order, that is free with room for `size` bytes.
pub fn first_fit(blocks: &Vec<Block>, size: usize) -> (r: Option<usize>)
    ensures
        match r {
            Some(i) => select(FitFunction::First, blocks@, size as int) == Some(i as int),
            None => select(FitFunction::First, blocks@, size as int) is None,
        },
        r is None <==> no_fit(blocks@, size as int),
        r matches Some(i) ==> selected(FitFunction::First, blocks@, size as int, i as int),
{
    proof {
        lemma_select(FitFunction::First, blocks@, size as int);
    }
    let mut i: usize = 0;
    while i < blocks.len()
        invariant
            i <= blocks.len(),
            forall|j: int| 0 <= j < i ==> !(#[trigger] blocks@[j]).fits(size as int),
        decreases blocks.len() - i,
    {
        if blocks[i].can_hold(size) {
            assert(selected(FitFunction::First, blocks@, size as int, i as int));
            return Some(i);
        }
        i += 1;
    }
    None
}

/// Best fit: the free block of least capacity that has room for `size` bytes;
/// among several of that capacity, the first in address order.
pub fn best_fit(blocks: &Vec<Block>, size: usize) -> (r: Option<usize>)
    ensures
        match r {
            Some(i) => select(FitFunction::Best, blocks@, size as int) == Some(i as int),
            None => select(FitFunction::Best, blocks@, size as int) is None,
        },
        r is None <==> no_fit(blocks@, size as int),
        r matches Some(i) ==> selected(FitFunction::Best, blocks@, size as int, i as int),
{
    proof {
        lemma_select(FitFunction::Best, blocks@, size as int);
    }
    let mut choice: Option<usize> = None;
    let mut i: usize = 0;
    while i < blocks.len()
        invariant
            i <= blocks.len(),
            match choice {
                Some(c) => selected_within(FitFunction::Best, blocks@, size as int, c as int, i as int),
                None => forall|j: int| 0 <= j < i ==> !(#[trigger] blocks@[j]).fits(size as int),
            },
        decreases blocks.len() - i,
    {
        if blocks[i].can_hold(size) {
            match choice {
                Some(c) => {
                    if blocks[i].total_size < blocks[c].total_size {
                        choice = Some(i);
                    }
                },
                None => {
                    choice = Some(i);
                },
            }
        }
        i += 1;
    }
    choice
}

/// Worst fit: the free block of largest capacity, if it has room for `size`
/// bytes; among several of that capacity, the first in address order.
pub fn worst_fit(blocks: &Vec<Block>, size: usize) -> (r: Option<usize>)
    ensures
        match r {
            Some(i) => select(FitFunction::Worst, blocks@, size as int) == Some(i as int),
            None => select(FitFunction::Worst, blocks@, size as int) is None,
        },
        r is None <==> no_fit(blocks@, size as int),
        r matches Some(i) ==> selected(FitFunction::Worst, blocks@, size as int, i as int),
{
    proof {
        lemma_select(FitFunction::Worst, blocks@, size as int);
    }
    let mut choice: Option<usize> = None;
    let mut i: usize = 0;
    while i < blocks.len()
        invariant
            i <= blocks.len(),
            match choice {
                Some(c) => selected_within(FitFunction::Worst, blocks@, size as int, c as int, i as int),
                None => forall|j: int| 0 <= j < i ==> !(#[trigger] blocks@[j]).fits(size as int),
            },
        decreases blocks.len() - i,
    {
        if blocks[i].can_hold(size) {
            match choice {
                Some(c) => {
                    if blocks[i].total_size > blocks[c].total_size {
                        choice = Some(i);
                    }
                },
                None => {
                    choice = Some(i);
                },
            }
        }
        i += 1;
    }
    choice
}

impl FitFunction {
    /// Applies the strategy: the index in `blocks` of the block that it picks
    /// for a payload of `size` bytes, or `None` when no free block has room.
    pub fn to_fn(self, blocks: &Vec<Block>, size: usize) -> (r: Option<usize>)
        ensures
            match r {
                Some(i) => select(self, blocks@, size as int) == Some(i as int),
                None => select(self, blocks@, size as int) is None,
            },
            r is None <==> no_fit(blocks@, size as int),
            r matches Some(i) ==> selected(self, blocks@, size as int, i as int),
    {
        match self {
            FitFunction::First => first_fit(blocks, size),
            FitFunction::Best => best_fit(blocks, size),
            FitFunction::Worst => worst_fit(blocks, size),
        }
    }
}

} // verus!
