//! The part of a process that owns its address space.

use crate::address::{VirtualAddress, VirtualPageNumber};
use crate::config::{USER_RANGE_BASE, VA_LIMIT};
use crate::error::{MemoryError, MemoryResult};
use crate::frame::FrameAllocator;
use crate::mapping::memory_set::MemorySet;
use crate::mapping::page_table_entry::Flags;
use crate::mapping::segment::{MapType, Segment};
use crate::memory::PhysicalMemory;
use crate::range::Range;
use vstd::prelude::*;

verus! {

/// The state of a process that changes while it runs: the threads of a
/// process share one memory set.
pub struct ProcessInner {
    pub memory_set: MemorySet,
}

/// `size` rounded up to a whole number of pages.
pub open spec fn round_up_to_page(size: int) -> int {
    (size + 4095) / 4096 * 4096
}

/// The candidate range of `size` bytes, rounded up to whole pages, that
/// lies `step` such ranges above the base address of fresh pages.
pub open spec fn candidate(size: int, step: int) -> Range<VirtualPageNumber> {
    Range {
        start: VirtualPageNumber(((USER_RANGE_BASE + step * round_up_to_page(size)) / 4096) as u64),
        end: VirtualPageNumber(
            ((USER_RANGE_BASE + (step + 1) * round_up_to_page(size)) / 4096) as u64,
        ),
    }
}

impl ProcessInner {
    /// How many candidate ranges for `size` bytes are taken, counted from
    /// the base address upwards, before one is free: the least `step` at
    /// which the candidate shares no page with an applied segment.
    pub open spec fn first_free(&self, size: int, step: int) -> bool {
        &&& 0 <= step
        &&& !self.memory_set.overlaps(candidate(size, step))
        &&& forall|k: int| 0 <= k < step ==> self.memory_set.overlaps(#[trigger] candidate(size, k))
    }

    /// Gives the process `size` fresh bytes: the lowest range of whole
    /// pages that covers `size` bytes, starts a whole number of such ranges
    /// above the base address of fresh pages and shares no page with an
    /// applied segment is mapped as a frame-backed segment, with `flags`
    /// and with `USER` for a user process. The result is the range of the
    /// `size` bytes at its start.
    ///
    /// Fails with `AddressSpaceExhausted`, and changes nothing, where no
    /// such range ends inside the three-level address space, and with
    /// `FrameExhausted` where the free frames do not last.
    pub fn alloc_page_range(
        &mut self,
        is_user: bool,
        size: usize,
        flags: Flags,
        memory: &mut PhysicalMemory,
        allocator: &mut FrameAllocator,
    ) -> (r: MemoryResult<Range<VirtualAddress>>)
        requires
            old(self).memory_set.wf(old(memory), old(allocator)),
        ensures
            match r {
                Ok(range) => exists|step: int|
                    {
                        &&& old(self).first_free(size as int, step)
                        &&& range.start.0 == USER_RANGE_BASE + step * round_up_to_page(size as int)
                        &&& range.end.0 == range.start.0 + size
                        &&& range.start.0 + round_up_to_page(size as int) <= VA_LIMIT
                        &&& final(self).memory_set.wf(final(memory), final(allocator))
                        &&& final(self).memory_set.segments@ == old(self).memory_set.segments@.push(
                            Self::fresh_segment(is_user, size as int, flags, step),
                        )
                        &&& final(self).memory_set.mapping.map_effect(
                            &old(self).memory_set.mapping,
                            old(memory),
                            final(memory),
                            old(allocator),
                            final(allocator),
                            &Self::fresh_segment(is_user, size as int, flags, step),
                            None,
                            true,
                        )
                    },
                Err(MemoryError::AddressSpaceExhausted) => {
                    &&& forall|step: int|
                        old(self).first_free(size as int, step) ==> USER_RANGE_BASE + (step + 1)
                            * round_up_to_page(size as int) > VA_LIMIT
                    &&& final(self).memory_set.mapping == old(self).memory_set.mapping
                    &&& final(self).memory_set.segments@ == old(self).memory_set.segments@
                    &&& final(memory).same_as(old(memory))
                    &&& final(allocator).same_as(old(allocator))
                },
                Err(MemoryError::FrameExhausted) => exists|step: int|
                    {
                        &&& old(self).first_free(size as int, step)
                        &&& USER_RANGE_BASE + (step + 1) * round_up_to_page(size as int)
                            <= VA_LIMIT
                        &&& old(self).memory_set.mapping.frames_needed(
                            old(memory),
                            &Self::fresh_segment(is_user, size as int, flags, step),
                        ) > old(allocator).spec_available()
                        &&& final(self).memory_set.mapping.wf(final(memory), final(allocator))
                        &&& final(self).memory_set.segments@ == old(self).memory_set.segments@
                    },
                Err(MemoryError::SegmentOverlap) => false,
            },
    {
        if size as u64 > VA_LIMIT {
            proof {
                assert forall|step: int| old(self).first_free(size as int, step)
                    implies USER_RANGE_BASE
                    + (step + 1) * round_up_to_page(size as int) > VA_LIMIT by {
                    assert((step + 1) * round_up_to_page(size as int) >= round_up_to_page(
                        size as int,
                    )) by (nonlinear_arith)
                        requires
                            step >= 0,
                            round_up_to_page(size as int) >= 0,
                    ;
                }
            }
            return Err(MemoryError::AddressSpaceExhausted);
        }
        let alloc_size: u64 = (size as u64 + 4095) / 4096 * 4096;
        let mut start: u64 = USER_RANGE_BASE;
        let ghost mut step: int = 0;
        proof {
            assert(0 * round_up_to_page(size as int) == 0);
        }
        loop
            invariant
                alloc_size == round_up_to_page(size as int),
                alloc_size <= 0x80_0000_1000,
                0 <= step,
                start == USER_RANGE_BASE + step * alloc_size,
                start <= VA_LIMIT,
                *self == *old(self),
                *memory == *old(memory),
                *allocator == *old(allocator),
                self.memory_set.wf(memory, allocator),
                forall|k: int|
                    0 <= k < step
                        ==> self.memory_set.overlaps(#[trigger] candidate(size as int, k)),
            decreases VA_LIMIT - start,
        {
            proof {
                assert((step + 1) * alloc_size
                    == step * alloc_size + alloc_size) by (nonlinear_arith);
            }
            if alloc_size > VA_LIMIT - start {
                proof {
                    assert forall|other: int|
                        old(self).first_free(size as int, other)
                            implies USER_RANGE_BASE + (other + 1)
                        * round_up_to_page(size as int) > VA_LIMIT by {
                        if other < step {
                            assert(self.memory_set.overlaps(candidate(size as int, other)));
                        } else {
                            assert((other + 1) * alloc_size >= (step + 1) * alloc_size)
                                by (nonlinear_arith)
                                requires
                                    other >= step,
                                    alloc_size >= 0,
                            ;
                        }
                    }
                }
                return Err(MemoryError::AddressSpaceExhausted);
            }
            let range = Range {
                start: VirtualAddress(start),
                end: VirtualAddress(start + alloc_size),
            };
            let pages = range.page_range();
            proof {
                assert(start % 4096 == 0) by {
                    assert((step * (alloc_size / 4096)) * 4096 == step * alloc_size)
                        by (nonlinear_arith)
                        requires
                            alloc_size % 4096 == 0,
                    ;
                }
                assert(USER_RANGE_BASE % 4096 == 0);
                assert(pages == candidate(size as int, step));
            }
            if !self.memory_set.overlap_with(pages) {
                let segment = Segment {
                    map_type: MapType::Framed,
                    range,
                    flags: flags | Flags::user(is_user),
                };
                proof {
                    assert(segment == Self::fresh_segment(is_user, size as int, flags, step));
                    assert(self.first_free(size as int, step));
                }
                match self.memory_set.add_segment(segment, None, memory, allocator) {
                    Ok(()) => {},
                    Err(e) => {
                        return Err(e);
                    },
                }
                return Ok(
                    Range { start: VirtualAddress(start), end: VirtualAddress(start + size as u64) },
                );
            }
            proof {
                assert(alloc_size > 0) by {
                    if alloc_size == 0 {
                        assert(!pages.spec_overlap_with(&pages));
                        let i = choose|i: int|
                            0 <= i < self.memory_set.segments@.len() && (
                            #[trigger] self.memory_set.segments@[i]).spec_page_range().spec_overlap_with(
                                &pages,
                            );
                    }
                }
                step = step + 1;
            }
            start = start + alloc_size;
        }
    }

    /// The segment that `alloc_page_range` maps when it settles on the
    /// candidate range `step`.
    pub open spec fn fresh_segment(is_user: bool, size: int, flags: Flags, step: int) -> Segment {
        Segment {
            map_type: MapType::Framed,
            range: Range {
                start: VirtualAddress((USER_RANGE_BASE + step * round_up_to_page(size)) as u64),
                end: VirtualAddress((USER_RANGE_BASE + (step + 1) * round_up_to_page(size)) as u64),
            },
            flags: flags.spec_union(
                Flags {
                    bits: if is_user {
                        16u8
                    } else {
                        0u8
                    },
                },
            ),
        }
    }
}

} // verus!
