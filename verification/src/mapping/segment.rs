//! A segment: one run of virtual addresses, with how it is backed and what
//! may be done with it.

use crate::address::{VirtualAddress, VirtualPageNumber};
use crate::config::{VA_LIMIT, VPN_LIMIT};
use crate::mapping::page_table_entry::Flags;
use crate::range::Range;
use vstd::prelude::*;

verus! {

/// How the pages of a segment get their frames.
#[derive(Copy, Clone, Debug, PartialEq, Eq, Structural)]
pub enum MapType {
    /// Each page is mapped to the frame of the same number.
    Linear,
    /// Each page is mapped to a frame of its own, taken from the allocator.
    Framed,
}

/// A run of virtual addresses that is mapped as a whole.
#[derive(Copy, Clone, Debug, PartialEq, Eq)]
pub struct Segment {
    pub map_type: MapType,
    pub range: Range<VirtualAddress>,
    pub flags: Flags,
}

impl Segment {
    /// The range runs forward and ends inside the 39 bits of address that
    /// three table levels and the page offset cover.
    pub open spec fn wf(&self) -> bool {
        self.range.start.0 <= self.range.end.0 <= VA_LIMIT
    }

    /// Whether the range runs forward and ends inside the three-level
    /// address space.
    pub fn is_well_formed(&self) -> (r: bool)
        ensures
            r <==> self.wf(),
    {
        self.range.start.0 <= self.range.end.0 && self.range.end.0 <= VA_LIMIT
    }

    /// The pages that the segment touches.
    pub open spec fn spec_page_range(&self) -> Range<VirtualPageNumber> {
        self.range.spec_page_range()
    }

    /// The pages that the segment touches.
    #[verifier::when_used_as_spec(spec_page_range)]
    pub fn page_range(&self) -> (r: Range<VirtualPageNumber>)
        ensures
            r == self.spec_page_range(),
            self.wf() ==> r.start.0 <= r.end.0 <= VPN_LIMIT,
    {
        self.range.page_range()
    }
}

} // verus!
