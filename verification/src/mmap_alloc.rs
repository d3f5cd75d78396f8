//! Where an allocation goes: to the heap, or to an anonymous file mapping.
//!
//! The allocator itself maps files and talks to the heap; what stands here
//! is its bookkeeping and its decisions. An allocation is mapped where it is
//! large, or where the heap already holds half of the memory budget. A
//! mapped region stays mapped for as long as it lives.

use vstd::prelude::*;

verus! {

/// The size from which a single allocation is mapped whatever the budget.
pub const DEFAULT_MMAP_THRESHOLD: usize = 10_000_000;

/// What backs a region of memory.
#[derive(Debug, Clone, Copy, PartialEq, Eq, Structural)]
pub enum Backing {
    Heap,
    Mapped,
}

/// What the allocator has to do to grow a region.
#[derive(Debug, Clone, Copy, PartialEq, Eq, Structural)]
pub enum GrowAction {
    /// Grow the heap allocation in place or by the heap's own move.
    GrowHeap,
    /// Map a file of the new size, copy the region into it and free the
    /// heap allocation.
    MoveToMapping,
    /// Lengthen the file behind the mapping and map it anew.
    ResizeMapping,
}

/// Whether an allocation of `size` bytes is to be mapped, for a heap that
/// holds `allocated` bytes, under a memory budget and a size threshold.
/// Without a budget nothing is mapped.
pub open spec fn spec_should_mmap(
    size: usize,
    budget: Option<u64>,
    threshold: usize,
    allocated: usize,
) -> bool {
    match budget {
        Some(remaining) => size >= threshold || remaining <= allocated * 2,
        None => false,
    }
}

/// Whether an allocation of `size` bytes is to be mapped.
pub fn should_mmap(size: usize, budget: Option<u64>, threshold: usize, allocated: usize) -> (r:
    bool)
    ensures
        r == spec_should_mmap(size, budget, threshold, allocated),
{
    match budget {
        Some(remaining) => size >= threshold || (remaining as u128) <= (allocated as u128) * 2,
        None => false,
    }
}

/// The bookkeeping of the allocator: its configuration and a rough count of
/// the bytes that the heap holds for it.
#[derive(Debug, Clone, Copy, PartialEq, Eq, Structural)]
pub struct MmappableAllocator {
    budget: Option<u64>,
    threshold: usize,
    allocated: usize,
}

impl MmappableAllocator {
    /// The memory budget; `None` where the host's limit is not known.
    pub closed spec fn budget(&self) -> Option<u64> {
        self.budget
    }

    /// The size from which an allocation is mapped whatever the budget.
    pub closed spec fn threshold(&self) -> usize {
        self.threshold
    }

    /// The bytes that the heap holds.
    pub closed spec fn allocated(&self) -> usize {
        self.allocated
    }

    /// Whether an allocation of `size` bytes would be mapped now.
    pub open spec fn maps(&self, size: usize) -> bool {
        spec_should_mmap(size, self.budget(), self.threshold(), self.allocated())
    }

    /// An allocator that holds nothing, with the default threshold.
    pub fn new(budget: Option<u64>) -> (r: Self)
        ensures
            r.budget() == budget,
            r.threshold() == DEFAULT_MMAP_THRESHOLD,
            r.allocated() == 0,
    {
        MmappableAllocator { budget, threshold: DEFAULT_MMAP_THRESHOLD, allocated: 0 }
    }

    /// An allocator that holds nothing, with a threshold of its own.
    pub fn with_threshold(budget: Option<u64>, threshold: usize) -> (r: Self)
        ensures
            r.budget() == budget,
            r.threshold() == threshold,
            r.allocated() == 0,
    {
        MmappableAllocator { budget, threshold, allocated: 0 }
    }

    /// A rough estimate of the bytes that the heap holds.
    pub fn rough_total_usage(&self) -> (r: usize)
        ensures
            r == self.allocated(),
    {
        self.allocated
    }

    /// Decides what backs a new allocation of `size` bytes, and counts it
    /// where it goes to the heap.
    pub fn allocate(&mut self, size: usize) -> (r: Backing)
        ensures
            r == if old(self).maps(size) {
                Backing::Mapped
            } else {
                Backing::Heap
            },
            final(self).budget() == old(self).budget(),
            final(self).threshold() == old(self).threshold(),
            final(self).allocated() == if old(self).maps(size) {
                old(self).allocated() as int
            } else if old(self).allocated() + size > usize::MAX {
                usize::MAX as int
            } else {
                old(self).allocated() + size
            },
    {
        if should_mmap(size, self.budget, self.threshold, self.allocated) {
            Backing::Mapped
        } else {
            self.allocated = self.allocated.saturating_add(size);
            Backing::Heap
        }
    }

    /// Takes a freed region of `size` bytes out of the count, where the heap
    /// held it.
    pub fn deallocate(&mut self, backing: Backing, size: usize)
        ensures
            final(self).budget() == old(self).budget(),
            final(self).threshold() == old(self).threshold(),
            final(self).allocated() == if backing == Backing::Mapped {
                old(self).allocated() as int
            } else if old(self).allocated() < size {
                0
            } else {
                old(self).allocated() - size
            },
    {
        match backing {
            Backing::Mapped => {},
            Backing::Heap => {
                self.allocated = self.allocated.saturating_sub(size);
            },
        }
    }

    /// Decides how a region grows from `old_size` to `new_size` bytes. A
    /// mapped region is resized as a mapping and never goes back to the
    /// heap; a heap region moves to a mapping where an allocation of the new
    /// size would be mapped.
    pub fn grow(&mut self, backing: Backing, old_size: usize, new_size: usize) -> (r: GrowAction)
        requires
            old_size <= new_size,
        ensures
            r == if backing == Backing::Mapped {
                GrowAction::ResizeMapping
            } else if old(self).maps(new_size) {
                GrowAction::MoveToMapping
            } else {
                GrowAction::GrowHeap
            },
            final(self).budget() == old(self).budget(),
            final(self).threshold() == old(self).threshold(),
            final(self).allocated() == match r {
                GrowAction::ResizeMapping => old(self).allocated() as int,
                GrowAction::MoveToMapping => if old(self).allocated() < old_size {
                    0
                } else {
                    old(self).allocated() - old_size
                },
                GrowAction::GrowHeap => if old(self).allocated() + (new_size - old_size)
                    > usize::MAX {
                    usize::MAX as int
                } else {
                    old(self).allocated() + (new_size - old_size)
                },
            },
    {
        match backing {
            Backing::Mapped => GrowAction::ResizeMapping,
            Backing::Heap => {
                if should_mmap(new_size, self.budget, self.threshold, self.allocated) {
                    self.allocated = self.allocated.saturating_sub(old_size);
                    GrowAction::MoveToMapping
                } else {
                    self.allocated = self.allocated.saturating_add(new_size - old_size);
                    GrowAction::GrowHeap
                }
            },
        }
    }
}

impl GrowAction {
    pub open spec fn spec_backing(self) -> Backing {
        match self {
            GrowAction::GrowHeap => Backing::Heap,
            GrowAction::MoveToMapping => Backing::Mapped,
            GrowAction::ResizeMapping => Backing::Mapped,
        }
    }

    /// The backing of a region after it has grown in this way.
    pub fn backing(self) -> (r: Backing)
        ensures
            r == self.spec_backing(),
    {
        match self {
            GrowAction::GrowHeap => Backing::Heap,
            GrowAction::MoveToMapping => Backing::Mapped,
            GrowAction::ResizeMapping => Backing::Mapped,
        }
    }
}

} // verus!
