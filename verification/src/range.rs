//! Half-open ranges of virtual addresses and of virtual page numbers.

use crate::address::{VirtualAddress, VirtualPageNumber};
use vstd::prelude::*;

verus! {

/// The values from `start` up to, and not including, `end`.
#[derive(Copy, Debug, PartialEq, Eq)]
pub struct Range<T> {
    pub start: T,
    pub end: T,
}

impl<T: Copy> Clone for Range<T> {
    /// A copy of the range.
    fn clone(&self) -> (r: Self)
        ensures
            r == *self,
    {
        *self
    }
}

/// Whether the half-open intervals `a_start..a_end` and `b_start..b_end` have
/// a point in common.
pub open spec fn intervals_overlap(a_start: int, a_end: int, b_start: int, b_end: int) -> bool {
    a_start < a_end && b_start < b_end && a_start < b_end && b_start < a_end
}

impl Range<VirtualPageNumber> {
    /// The number of values in the range; none where it runs backwards.
    pub open spec fn spec_len(&self) -> int {
        if self.end.0 >= self.start.0 {
            self.end.0 - self.start.0
        } else {
            0
        }
    }

    /// The number of pages in the range.
    pub fn len(&self) -> (r: u64)
        ensures
            r == self.spec_len(),
    {
        if self.end.0 >= self.start.0 {
            self.end.0 - self.start.0
        } else {
            0
        }
    }

    /// Whether the value lies in the range.
    pub open spec fn spec_contains(&self, page: VirtualPageNumber) -> bool {
        self.start.0 <= page.0 < self.end.0
    }

    /// Whether `page` lies in the range.
    #[verifier::when_used_as_spec(spec_contains)]
    pub fn contains(&self, page: VirtualPageNumber) -> (r: bool)
        ensures
            r <==> self.spec_contains(page),
    {
        self.start.0 <= page.0 && page.0 < self.end.0
    }

    /// Whether some page lies in both ranges.
    pub open spec fn spec_overlap_with(&self, other: &Range<VirtualPageNumber>) -> bool {
        intervals_overlap(
            self.start.0 as int,
            self.end.0 as int,
            other.start.0 as int,
            other.end.0 as int,
        )
    }

    /// Whether some page lies in both ranges.
    #[verifier::when_used_as_spec(spec_overlap_with)]
    pub fn overlap_with(&self, other: &Range<VirtualPageNumber>) -> (r: bool)
        ensures
            r <==> self.spec_overlap_with(other),
            r <==> exists|page: VirtualPageNumber|
                #![trigger self.spec_contains(page)]
                self.spec_contains(page) && other.spec_contains(page),
    {
        let r = self.start.0 < self.end.0 && other.start.0 < other.end.0 && self.start.0
            < other.end.0 && other.start.0 < self.end.0;
        proof {
            if r {
                let page = if self.start.0 >= other.start.0 {
                    self.start
                } else {
                    other.start
                };
                assert(self.spec_contains(page) && other.spec_contains(page));
            }
        }
        r
    }

    /// The page at position `index` of the range.
    pub fn get(&self, index: u64) -> (r: VirtualPageNumber)
        requires
            index < self.spec_len(),
        ensures
            r.0 == self.start.0 + index,
            self.spec_contains(r),
    {
        VirtualPageNumber(self.start.0 + index)
    }
}

impl Range<VirtualAddress> {
    /// The number of values in the range; none where it runs backwards.
    pub open spec fn spec_len(&self) -> int {
        if self.end.0 >= self.start.0 {
            self.end.0 - self.start.0
        } else {
            0
        }
    }

    /// The number of bytes in the range.
    pub fn len(&self) -> (r: u64)
        ensures
            r == self.spec_len(),
    {
        if self.end.0 >= self.start.0 {
            self.end.0 - self.start.0
        } else {
            0
        }
    }

    /// Whether the value lies in the range.
    pub open spec fn spec_contains(&self, address: VirtualAddress) -> bool {
        self.start.0 <= address.0 < self.end.0
    }

    /// Whether `address` lies in the range.
    #[verifier::when_used_as_spec(spec_contains)]
    pub fn contains(&self, address: VirtualAddress) -> (r: bool)
        ensures
            r <==> self.spec_contains(address),
    {
        self.start.0 <= address.0 && address.0 < self.end.0
    }

    /// The pages that the range touches: from the page of its first byte to
    /// the page of its last, and one page where the range is empty but does
    /// not start on a page boundary.
    pub open spec fn spec_page_range(&self) -> Range<VirtualPageNumber> {
        Range {
            start: VirtualPageNumber((self.start.0 / 4096) as u64),
            end: VirtualPageNumber(crate::address::pages_up(self.end.0 as int) as u64),
        }
    }

    /// The pages that the range touches.
    #[verifier::when_used_as_spec(spec_page_range)]
    pub fn page_range(&self) -> (r: Range<VirtualPageNumber>)
        ensures
            r == self.spec_page_range(),
    {
        Range { start: VirtualPageNumber::floor(self.start), end: VirtualPageNumber::ceil(self.end) }
    }
}

} // verus!
