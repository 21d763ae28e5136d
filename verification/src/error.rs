//! What can go wrong in the memory subsystem.

use vstd::prelude::*;

verus! {

/// Why a memory operation did not succeed.
#[derive(Copy, Clone, Debug, PartialEq, Eq, Hash, Structural)]
pub enum MemoryError {
    /// The frame allocator has no free frame left.
    FrameExhausted,
    /// The segment shares a page with a segment that is already applied.
    SegmentOverlap,
    /// No free virtual range of the wanted size is left below the end of the
    /// three-level address space.
    AddressSpaceExhausted,
}

/// The result of a memory operation.
pub type MemoryResult<T> = Result<T, MemoryError>;

impl MemoryError {
    /// The description of each error.
    pub open spec fn spec_message(&self) -> Seq<char> {
        match self {
            MemoryError::FrameExhausted => "no available frame to allocate"@,
            MemoryError::SegmentOverlap => "segment overlaps an applied segment"@,
            MemoryError::AddressSpaceExhausted => "no free virtual range left"@,
        }
    }

    /// A short description for diagnostics.
    pub fn message(&self) -> (r: &'static str)
        ensures
            r@ == self.spec_message(),
    {
        match self {
            MemoryError::FrameExhausted => {
                proof {
                    reveal_strlit("no available frame to allocate");
                }
                "no available frame to allocate"
            },
            MemoryError::SegmentOverlap => {
                proof {
                    reveal_strlit("segment overlaps an applied segment");
                }
                "segment overlaps an applied segment"
            },
            MemoryError::AddressSpaceExhausted => {
                proof {
                    reveal_strlit("no free virtual range left");
                }
                "no free virtual range left"
            },
        }
    }
}

} // verus!
