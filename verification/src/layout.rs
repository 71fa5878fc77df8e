//! Layout parameters of the arena, fixed at build time, and their arithmetic.

use vstd::prelude::*;

verus! {

/// Alignment unit in bytes: every block and every payload starts at a multiple of it.
pub const ALIGNMENT: usize = 16;

/// Bytes that the header takes at the start of every block. A multiple of
/// [`ALIGNMENT`], so that a payload behind an aligned header is aligned too.
pub const HEADER_SIZE: usize = 32;

/// Smallest payload for which a block of its own is worth having.
pub const MIN_PAYLOAD: usize = 16;

/// Split threshold: a free block is split only when what is left over is larger
/// than a header with a payload of [`MIN_PAYLOAD`] bytes.
pub const MIN_BLOCK_SIZE: usize = 48;

/// Size in bytes of the arena behind a default allocator: 1 GiB.
pub const MEMORY_SIZE: usize = 0x4000_0000;

/// `n` is a multiple of the alignment unit.
pub open spec fn is_aligned(n: int) -> bool {
    n % (ALIGNMENT as int) == 0
}

/// The least multiple of the alignment unit that is not below `n`.
pub open spec fn round_up(n: int) -> int {
    if n % (ALIGNMENT as int) == 0 {
        n
    } else {
        n + ALIGNMENT - n % (ALIGNMENT as int)
    }
}

/// `round_up(n)` is aligned, lies in `n .. n + ALIGNMENT`, and no aligned
/// number from `n` on is smaller.
pub proof fn lemma_round_up(n: int)
    ensures
        is_aligned(round_up(n)),
        n <= round_up(n) < n + ALIGNMENT,
        forall|m: int| is_aligned(m) && n <= m ==> round_up(n) <= m,
{
}

/// The header size and the split threshold agree with the alignment unit.
pub proof fn lemma_layout_constants()
    ensures
        is_aligned(HEADER_SIZE as int),
        is_aligned(MIN_PAYLOAD as int),
        MIN_BLOCK_SIZE == HEADER_SIZE + MIN_PAYLOAD,
        is_aligned(MEMORY_SIZE as int),
        MEMORY_SIZE >= HEADER_SIZE,
{
}

/// Rounds `n` up to the alignment unit.
pub fn align_up(n: usize) -> (r: usize)
    requires
        round_up(n as int) <= usize::MAX,
    ensures
        r == round_up(n as int),
{
    let rem: usize = n % ALIGNMENT;
    if rem == 0 {
        n
    } else {
        n - rem + ALIGNMENT
    }
}

} // verus!
