//! A dynamic-memory allocator over one fixed-size arena.
//!
//! The arena is a span of `size` bytes addressed by offsets from its base. It is
//! cut into blocks that follow each other without gap or overlap; every block
//! starts with a header of [`layout::HEADER_SIZE`] bytes and the rest of it is
//! payload. Allocation picks a free block with the active [`FitFunction`],
//! splits it when the rest is worth a block of its own, and hands out the
//! offset of the payload; deallocation marks the block free again and merges it
//! with the free blocks next to it.
//!
//! [`arena::Arena`] is the engine. [`Info3Allocateur`] and
//! [`Info3AllocateurGlobal`] put the vocabulary of an allocator object over it:
//! requests with a size and an alignment, failure as an error or as the null
//! offset.

pub mod layout;
pub mod block;
pub mod fit;
pub mod arena;

use vstd::prelude::*;
use crate::arena::{Arena, allocated_index, lemma_null_is_not_live, live, place, release};
use crate::block::Block;
pub use crate::fit::FitFunction;
use crate::fit::select;
use crate::layout::{ALIGNMENT, HEADER_SIZE, MEMORY_SIZE, is_aligned, round_up};

verus! {

/// An allocation failed: no free block has room for the request.
#[derive(Clone, Copy, Debug, PartialEq, Eq, Structural)]
pub struct AllocError;

/// The span of payload that an allocation hands out.
#[derive(Clone, Copy, Debug, PartialEq, Eq, Structural)]
pub struct Allocation {
    /// Offset of the first byte.
    pub ptr: usize,
    /// Number of bytes that were asked for.
    pub len: usize,
}

/// An allocator over an arena of its own.
///
/// A default allocator has an arena of [`MEMORY_SIZE`] bytes and uses first fit.
pub struct Info3Allocateur {
    arena: Arena,
}

impl View for Info3Allocateur {
    type V = Arena;

    /// The arena that the allocator manages.
    closed spec fn view(&self) -> Arena {
        self.arena
    }
}

impl Default for Info3Allocateur {
    /// An allocator over a fresh arena of [`MEMORY_SIZE`] bytes.
    fn default() -> (r: Self)
        ensures
            r.wf(),
            r@.spec_size() == MEMORY_SIZE,
            r@.spec_fit() == FitFunction::First,
            r@@ == seq![(Block { offset: 0, total_size: MEMORY_SIZE, is_free: true })],
    {
        Info3Allocateur { arena: Arena::init(MEMORY_SIZE) }
    }
}

impl Info3Allocateur {
    /// The invariant of the arena holds.
    pub open spec fn wf(&self) -> bool {
        self@.wf()
    }

    /// The arena, for inspection.
    pub fn arena(&self) -> (r: &Arena)
        ensures
            *r == self@,
    {
        &self.arena
    }

    /// Size of the arena in bytes.
    pub fn size(&self) -> (r: usize)
        ensures
            r == self@.spec_size(),
    {
        self.arena.size()
    }

    /// Use an alternative fit function.
    ///
    /// By default, allocators use the [`FitFunction::First`] strategy.
    pub fn set_fit_function(&mut self, fit: FitFunction)
        ensures
            final(self)@.spec_fit() == fit,
            final(self)@.spec_size() == old(self)@.spec_size(),
            final(self)@@ == old(self)@@,
    {
        self.arena.set_fit(fit);
    }

    /// Allocates `size` bytes for a request whose alignment is `align`.
    ///
    /// The arena aligns every payload to [`ALIGNMENT`] and to nothing stricter,
    /// so `align` may not exceed it. Fails with [`AllocError`] exactly when
    /// the arena has no free block with room for the request.
    pub fn allocate(&mut self, size: usize, align: usize) -> (r: Result<Allocation, AllocError>)
        requires
            old(self).wf(),
            align <= ALIGNMENT,
        ensures
            final(self).wf(),
            final(self)@.spec_size() == old(self)@.spec_size(),
            final(self)@.spec_fit() == old(self)@.spec_fit(),
            match select(old(self)@.spec_fit(), old(self)@@, round_up(size as int)) {
                Some(i) => {
                    &&& r matches Ok(a) && a.ptr == old(self)@@[i].payload() && a.len == size
                    &&& final(self)@@ == place(
                        old(self)@@,
                        i,
                        round_up(size as int) + HEADER_SIZE,
                    )
                },
                None => r == Err::<Allocation, AllocError>(AllocError) && final(self)@@ == old(self)@@,
            },
            r matches Ok(a) ==> {
                &&& a.ptr >= HEADER_SIZE
                &&& is_aligned(a.ptr as int)
                &&& a.len == size
                &&& !live(old(self)@@).contains(a.ptr as int)
                &&& live(final(self)@@) == live(old(self)@@).insert(a.ptr as int)
                &&& allocated_index(final(self)@@, a.ptr as int) matches Some(i) && final(self)@@[i].capacity() >= size
            },
    {
        match self.arena.allocate(size) {
            Some(ptr) => Ok(Allocation { ptr, len: size }),
            None => Err(AllocError),
        }
    }

    /// Frees the block whose payload starts at `ptr`.
    ///
    /// `ptr` comes from an earlier, successful [`Info3Allocateur::allocate`] and
    /// was not freed since. Any other offset is left without effect.
    pub fn deallocate(&mut self, ptr: usize)
        requires
            old(self).wf(),
        ensures
            final(self).wf(),
            final(self)@.spec_size() == old(self)@.spec_size(),
            final(self)@.spec_fit() == old(self)@.spec_fit(),
            match allocated_index(old(self)@@, ptr as int) {
                Some(i) => final(self)@@ == release(old(self)@@, i),
                None => final(self)@@ == old(self)@@,
            },
            live(final(self)@@) == live(old(self)@@).remove(ptr as int),
    {
        self.arena.deallocate(ptr);
    }
}

/// An allocator with the interface of a global allocator: a failed allocation
/// gives the null offset, 0, and freeing the null offset does nothing.
pub struct Info3AllocateurGlobal {
    instance: Info3Allocateur,
}

impl View for Info3AllocateurGlobal {
    type V = Arena;

    /// The arena that the allocator manages.
    closed spec fn view(&self) -> Arena {
        self.instance@
    }
}

impl Default for Info3AllocateurGlobal {
    /// An allocator over a fresh arena of [`MEMORY_SIZE`] bytes.
    fn default() -> (r: Self)
        ensures
            r.wf(),
            r@.spec_size() == MEMORY_SIZE,
            r@.spec_fit() == FitFunction::First,
            r@@ == seq![(Block { offset: 0, total_size: MEMORY_SIZE, is_free: true })],
    {
        Info3AllocateurGlobal { instance: Info3Allocateur::default() }
    }
}

impl std::ops::Deref for Info3AllocateurGlobal {
    type Target = Info3Allocateur;

    /// The allocator behind the global interface.
    fn deref(&self) -> (r: &Info3Allocateur)
        ensures
            r@ == self@,
    {
        &self.instance
    }
}

impl Info3AllocateurGlobal {
    /// The invariant of the arena holds.
    pub open spec fn wf(&self) -> bool {
        self@.wf()
    }

    /// The allocator behind the global interface, to change its settings.
    pub fn instance_mut(&mut self) -> (r: &mut Info3Allocateur)
        ensures
            r@ == old(self)@,
            final(self)@ == final(r)@,
    {
        &mut self.instance
    }

    /// Allocates `size` bytes for a request whose alignment is `align`, and
    /// returns the offset of the payload, or 0 when the arena has no free
    /// block with room for the request.
    pub fn allocate(&mut self, size: usize, align: usize) -> (ptr: usize)
        requires
            old(self).wf(),
            align <= ALIGNMENT,
        ensures
            final(self).wf(),
            final(self)@.spec_size() == old(self)@.spec_size(),
            final(self)@.spec_fit() == old(self)@.spec_fit(),
            match select(old(self)@.spec_fit(), old(self)@@, round_up(size as int)) {
                Some(i) => {
                    &&& ptr == old(self)@@[i].payload()
                    &&& ptr != 0
                    &&& final(self)@@ == place(
                        old(self)@@,
                        i,
                        round_up(size as int) + HEADER_SIZE,
                    )
                },
                None => ptr == 0 && final(self)@@ == old(self)@@,
            },
            is_aligned(ptr as int),
            ptr != 0 ==> {
                &&& !live(old(self)@@).contains(ptr as int)
                &&& live(final(self)@@) == live(old(self)@@).insert(ptr as int)
                &&& allocated_index(final(self)@@, ptr as int) matches Some(i) && final(self)@@[i].capacity() >= size
            },
    {
        match self.instance.allocate(size, align) {
            Ok(a) => a.ptr,
            Err(_) => 0,
        }
    }

    /// Frees the block whose payload starts at `ptr`; the null offset, 0, is
    /// ignored.
    pub fn dealloc(&mut self, ptr: usize)
        requires
            old(self).wf(),
        ensures
            final(self).wf(),
            final(self)@.spec_size() == old(self)@.spec_size(),
            final(self)@.spec_fit() == old(self)@.spec_fit(),
            match allocated_index(old(self)@@, ptr as int) {
                Some(i) => final(self)@@ == release(old(self)@@, i),
                None => final(self)@@ == old(self)@@,
            },
            ptr == 0 ==> final(self)@@ == old(self)@@,
            live(final(self)@@) == live(old(self)@@).remove(ptr as int),
    {
        if ptr != 0 {
            self.instance.deallocate(ptr);
        } else {
            proof {
                lemma_null_is_not_live(self@@);
            }
        }
    }
}

} // verus!
