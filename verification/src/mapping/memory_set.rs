//! A memory set: one mapping together with the segments that were applied
//! to it, no two of which share a page.

use crate::address::{PhysicalPageNumber, VirtualAddress, VirtualPageNumber};
use crate::config::{VA_LIMIT, VPN_LIMIT};
use crate::error::{MemoryError, MemoryResult};
use crate::frame::{stack_after_alloc, FrameAllocator};
use crate::mapping::mapping::{nth_frame, Mapping};
use crate::mapping::page_table_entry::{lemma_new_round_trip, Flags, PageTableEntry};
use crate::mapping::segment::{MapType, Segment};
use crate::mapping::walk::{fresh_tables, lemma_fresh_tables, lemma_tables_upto_after, tables_upto};
use crate::memory::PhysicalMemory;
use crate::range::Range;
use vstd::prelude::*;

verus! {

/// Where the parts of the kernel lie in its own address space: the four
/// sections of its image, one after the other, and after them the memory
/// that is left for frames.
#[derive(Copy, Clone, Debug)]
pub struct KernelLayout {
    pub text_start: VirtualAddress,
    pub rodata_start: VirtualAddress,
    pub data_start: VirtualAddress,
    pub bss_start: VirtualAddress,
    pub kernel_end: VirtualAddress,
    pub memory_end: VirtualAddress,
}

impl KernelLayout {
    /// The parts follow one another and end inside the three-level address
    /// space.
    pub open spec fn wf(&self) -> bool {
        self.text_start.0 <= self.rodata_start.0 <= self.data_start.0 <= self.bss_start.0
            <= self.kernel_end.0 <= self.memory_end.0 <= VA_LIMIT
    }

    /// Whether the parts follow one another and end inside the three-level
    /// address space.
    pub fn is_well_formed(&self) -> (r: bool)
        ensures
            r <==> self.wf(),
    {
        self.text_start.0 <= self.rodata_start.0 && self.rodata_start.0 <= self.data_start.0
            && self.data_start.0 <= self.bss_start.0 && self.bss_start.0 <= self.kernel_end.0
            && self.kernel_end.0 <= self.memory_end.0 && self.memory_end.0 <= VA_LIMIT
    }

    /// The segments of the kernel, all of them linear: the code, readable
    /// and executable; the constants, readable; the initialised and the
    /// zeroed data, readable and writable; and the rest of memory, readable
    /// and writable.
    pub open spec fn spec_segments(&self) -> Seq<Segment> {
        seq![
            Segment {
                map_type: MapType::Linear,
                range: Range { start: self.text_start, end: self.rodata_start },
                flags: Flags { bits: 10 },
            },
            Segment {
                map_type: MapType::Linear,
                range: Range { start: self.rodata_start, end: self.data_start },
                flags: Flags { bits: 2 },
            },
            Segment {
                map_type: MapType::Linear,
                range: Range { start: self.data_start, end: self.bss_start },
                flags: Flags { bits: 6 },
            },
            Segment {
                map_type: MapType::Linear,
                range: Range { start: self.bss_start, end: self.kernel_end },
                flags: Flags { bits: 6 },
            },
            Segment {
                map_type: MapType::Linear,
                range: Range { start: self.kernel_end, end: self.memory_end },
                flags: Flags { bits: 6 },
            },
        ]
    }

    /// The segments of the kernel.
    pub fn segments(&self) -> (r: Vec<Segment>)
        ensures
            r@ == self.spec_segments(),
    {
        let read = Flags::from_bits(Flags::READABLE);
        let write = Flags::from_bits(Flags::WRITABLE);
        let execute = Flags::from_bits(Flags::EXECUTABLE);
        proof {
            assert(2u8 | 8u8 == 10u8 && 2u8 | 4u8 == 6u8) by (bit_vector);
        }
        let mut r: Vec<Segment> = Vec::new();
        r.push(
            Segment {
                map_type: MapType::Linear,
                range: Range { start: self.text_start, end: self.rodata_start },
                flags: read | execute,
            },
        );
        r.push(
            Segment {
                map_type: MapType::Linear,
                range: Range { start: self.rodata_start, end: self.data_start },
                flags: read,
            },
        );
        r.push(
            Segment {
                map_type: MapType::Linear,
                range: Range { start: self.data_start, end: self.bss_start },
                flags: read | write,
            },
        );
        r.push(
            Segment {
                map_type: MapType::Linear,
                range: Range { start: self.bss_start, end: self.kernel_end },
                flags: read | write,
            },
        );
        r.push(
            Segment {
                map_type: MapType::Linear,
                range: Range { start: self.kernel_end, end: self.memory_end },
                flags: read | write,
            },
        );
        assert(r@ =~= self.spec_segments());
        r
    }

    /// Whether two of the segments share a page, which they do where a
    /// part that is not empty starts or ends off a page boundary next to
    /// another.
    pub open spec fn overlapping(&self) -> bool {
        MemorySet::any_overlap(self.spec_segments(), 5)
    }

    /// The number of page tables below the root that the mapping of all
    /// segments takes.
    pub open spec fn tables(&self) -> int {
        fresh_total(self.spec_segments(), 5)
    }
}

/// The last page that the first `count` segments of `segments` hold, where
/// they lie in ascending order; a negative number where they hold no page.
pub open spec fn last_page(segments: Seq<Segment>, count: int) -> int
    decreases count,
{
    if count <= 0 {
        -1
    } else if segments[count - 1].spec_page_range().spec_len() > 0 {
        segments[count - 1].spec_page_range().end.0 - 1
    } else {
        last_page(segments, count - 1)
    }
}

/// How many tables a fresh mapping makes for the first `count` segments of
/// `segments`, mapped in order, where they lie in ascending order.
pub open spec fn fresh_total(segments: Seq<Segment>, count: int) -> int
    decreases count,
{
    if count <= 0 {
        0
    } else {
        fresh_total(segments, count - 1) + fresh_tables(
            last_page(segments, count - 1),
            segments[count - 1].spec_page_range().start.0 as int,
            segments[count - 1].spec_page_range().spec_len(),
        )
    }
}

/// Whether the first `count` segments of `segments` lie in ascending order:
/// each that holds a page starts after the end of those before it.
pub open spec fn ascending(segments: Seq<Segment>, count: int) -> bool {
    forall|i: int, j: int|
        0 <= i < j < count && (#[trigger] segments[i]).spec_page_range().spec_len() > 0 && (
        #[trigger] segments[j]).spec_page_range().spec_len() > 0
            ==> segments[i].spec_page_range().end.0 <= segments[j].spec_page_range().start.0
}

/// Below a segment that holds a page lies the last page of the segments
/// before it.
pub proof fn lemma_last_page(segments: Seq<Segment>, count: int, bound: int)
    requires
        0 <= count,
        forall|i: int|
            0 <= i < count && (#[trigger] segments[i]).spec_page_range().spec_len() > 0
                ==> segments[i].spec_page_range().end.0 <= bound,
    ensures
        -1 <= last_page(segments, count) < bound || last_page(segments, count) == -1,
        fresh_total(segments, count) >= 0,
    decreases count,
{
    if count > 0 {
        lemma_last_page(segments, count - 1, bound);
        lemma_fresh_tables_positive(
            last_page(segments, count - 1),
            segments[count - 1].spec_page_range().start.0 as int,
            segments[count - 1].spec_page_range().spec_len(),
        );
    }
}

/// A count of tables is not negative.
pub proof fn lemma_fresh_tables_positive(last: int, first: int, count: int)
    ensures
        fresh_tables(last, first, count) >= 0,
    decreases count,
{
    if count > 0 {
        lemma_fresh_tables_positive(last, first, count - 1);
    }
}

/// Two segments of which the one ends where the other starts, or before,
/// and which share no page, lie in ascending order.
pub proof fn lemma_ascending_pair(s: Segment, t: Segment)
    requires
        s.wf(),
        t.wf(),
        s.range.end.0 <= t.range.start.0,
        s.spec_page_range().spec_len() > 0,
        t.spec_page_range().spec_len() > 0,
        !s.spec_page_range().spec_overlap_with(&t.spec_page_range()),
    ensures
        s.spec_page_range().end.0 <= t.spec_page_range().start.0,
{
}

/// An address space under construction: a mapping and the segments applied
/// to it, in the order in which they were applied.
pub struct MemorySet {
    pub mapping: Mapping,
    pub segments: Vec<Segment>,
}

impl MemorySet {
    /// Whether page `vpn` lies in an applied segment.
    pub open spec fn covers(&self, vpn: VirtualPageNumber) -> bool {
        exists|i: int|
            0 <= i < self.segments@.len()
                && (#[trigger] self.segments@[i]).spec_page_range().spec_contains(
                vpn,
            )
    }

    /// Whether `range` shares a page with an applied segment.
    pub open spec fn overlaps(&self, range: Range<VirtualPageNumber>) -> bool {
        exists|i: int|
            0 <= i < self.segments@.len()
                && (#[trigger] self.segments@[i]).spec_page_range().spec_overlap_with(
                &range,
            )
    }

    /// The mapping is consistent with `memory` and `allocator`; the applied
    /// segments are well-formed and no two of them share a page; and a page
    /// of the three-level address space has an entry exactly when it lies
    /// in an applied segment.
    pub open spec fn wf(&self, memory: &PhysicalMemory, allocator: &FrameAllocator) -> bool {
        &&& self.mapping.wf(memory, allocator)
        &&& forall|i: int| 0 <= i < self.segments@.len() ==> (#[trigger] self.segments@[i]).wf()
        &&& forall|i: int, j: int|
            0 <= i < j < self.segments@.len()
                ==> !(#[trigger] self.segments@[i]).spec_page_range().spec_overlap_with(
                &(#[trigger] self.segments@[j]).spec_page_range(),
            )
        &&& forall|v: VirtualPageNumber|
            v.0 < VPN_LIMIT ==> (!(#[trigger] self.mapping.leaf(memory, v)).spec_is_empty()
                <==> self.covers(v))
    }

    /// A memory set with a fresh mapping and no segment. Fails with
    /// `FrameExhausted`, and changes nothing, when no frame is free for the
    /// root table.
    pub fn new(memory: &mut PhysicalMemory, allocator: &mut FrameAllocator) -> (r: MemoryResult<
        MemorySet,
    >)
        requires
            old(memory).wf(),
            old(allocator).wf(),
            old(memory).backs(old(allocator)),
        ensures
            r is Err <==> old(allocator).spec_available() == 0,
            match r {
                Ok(set) => {
                    &&& set.wf(final(memory), final(allocator))
                    &&& set.segments@.len() == 0
                    &&& set.mapping.spec_root() == nth_frame(old(allocator), 0)
                    &&& set.mapping.tables() == seq![set.mapping.spec_root()]
                    &&& set.mapping.pairs().len() == 0
                    &&& final(allocator).spec_start() == old(allocator).spec_start()
                    &&& final(allocator).spec_capacity() == old(allocator).spec_capacity()
                    &&& tables_upto(final(memory), set.mapping.spec_root(), -1)
                    &&& final(allocator).stack() == stack_after_alloc(old(allocator).stack())
                    &&& final(allocator).spec_available() == old(allocator).spec_available() - 1
                    &&& old(allocator).is_free(set.mapping.spec_root())
                    &&& forall|p: PhysicalPageNumber| #[trigger]
                        final(allocator).is_free(p) ==> old(allocator).is_free(p)
                    &&& old(memory).same_but_page(final(memory), set.mapping.spec_root())
                },
                Err(e) => {
                    &&& e == MemoryError::FrameExhausted
                    &&& final(memory).same_as(old(memory))
                    &&& final(allocator).same_as(old(allocator))
                },
            },
    {
        let mapping = match Mapping::new(memory, allocator) {
            Ok(mapping) => mapping,
            Err(e) => {
                return Err(e);
            },
        };
        let set = MemorySet { mapping, segments: Vec::new() };
        proof {
            assert forall|v: VirtualPageNumber| v.0 < VPN_LIMIT implies (!(
            #[trigger] set.mapping.leaf(memory, v)).spec_is_empty() <==> set.covers(v)) by {
                assert(set.mapping.leaf(memory, v).0 == 0);
            }
        }
        Ok(set)
    }

    /// Whether `range` shares a page with an applied segment.
    pub fn overlap_with(&self, range: Range<VirtualPageNumber>) -> (r: bool)
        ensures
            r <==> self.overlaps(range),
    {
        let mut i: usize = 0;
        while i < self.segments.len()
            invariant
                i <= self.segments@.len(),
                forall|k: int|
                    0 <= k < i
                        ==> !(#[trigger] self.segments@[k]).spec_page_range().spec_overlap_with(
                        &range,
                    ),
            decreases self.segments@.len() - i,
        {
            if self.segments[i].page_range().overlap_with(&range) {
                return true;
            }
            i += 1;
        }
        false
    }

    /// Applies `segment`: maps its pages as `Mapping::map` does and records
    /// it. A segment that shares a page with an applied one is rejected
    /// with `SegmentOverlap`, and nothing changes. Where the free frames do
    /// not last, the result is `FrameExhausted`, the segment is not
    /// recorded, and the pages mapped until then stay mapped.
    pub fn add_segment(
        &mut self,
        segment: Segment,
        init_data: Option<&[u8]>,
        memory: &mut PhysicalMemory,
        allocator: &mut FrameAllocator,
    ) -> (r: MemoryResult<()>)
        requires
            old(self).wf(old(memory), old(allocator)),
            segment.wf(),
            Mapping::data_fits(old(memory), old(allocator), &segment, init_data),
        ensures
            r is Ok <==> !old(self).overlaps(segment.spec_page_range())
                && old(self).mapping.frames_needed(old(memory), &segment)
                    <= old(allocator).spec_available(),
            r matches Err(e) ==> e == if old(self).overlaps(segment.spec_page_range()) {
                MemoryError::SegmentOverlap
            } else {
                MemoryError::FrameExhausted
            },
            old(self).overlaps(segment.spec_page_range()) ==> {
                &&& final(self).mapping == old(self).mapping
                &&& final(self).segments@ == old(self).segments@
                &&& final(memory).same_as(old(memory))
                &&& final(allocator).same_as(old(allocator))
            },
            !old(self).overlaps(segment.spec_page_range()) ==> {
                &&& final(self).mapping.wf(final(memory), final(allocator))
                &&& final(self).mapping.map_effect(
                    &old(self).mapping,
                    old(memory),
                    final(memory),
                    old(allocator),
                    final(allocator),
                    &segment,
                    init_data,
                    r is Ok,
                )
            },
            r is Ok ==> final(self).wf(final(memory), final(allocator)) && final(self).segments@
                == old(self).segments@.push(segment),
            r is Err ==> final(self).segments@ == old(self).segments@,
    {
        let range = segment.page_range();
        if self.overlap_with(range) {
            return Err(MemoryError::SegmentOverlap);
        }
        let ghost m0 = *memory;
        let ghost s0 = *self;
        proof {
            assert forall|v: VirtualPageNumber| range.spec_contains(v) implies (
            #[trigger] self.mapping.leaf(memory, v)).spec_is_empty() by {
                if !self.mapping.leaf(memory, v).spec_is_empty() {
                    assert(self.covers(v));
                    let i = choose|i: int|
                        0 <= i < self.segments@.len() && (
                        #[trigger] self.segments@[i]).spec_page_range().spec_contains(v);
                    assert(self.segments@[i].spec_page_range().spec_overlap_with(&range));
                }
            }
        }
        match self.mapping.map(&segment, init_data, memory, allocator) {
            Ok(()) => {},
            Err(e) => {
                return Err(e);
            },
        }
        self.segments.push(segment);
        proof {
            let segments = self.segments@;
            let last = segments.len() - 1;
            self.mapping.lemma_wf(memory, allocator);
            allocator.lemma_wf();
            assert forall|i: int, j: int| 0 <= i < j < segments.len() implies !(
            #[trigger] segments[i]).spec_page_range().spec_overlap_with(
                &(#[trigger] segments[j]).spec_page_range(),
            ) by {
                assert(segments[i] == s0.segments@[i]);
                if j < last {
                    assert(segments[j] == s0.segments@[j]);
                }
            }
            assert forall|v: VirtualPageNumber| v.0 < VPN_LIMIT implies (!(
            #[trigger] self.mapping.leaf(memory, v)).spec_is_empty() <==> self.covers(v)) by {
                crate::mapping::walk::lemma_levels_of_index(v);
                if range.spec_contains(v) {
                    assert(segments[last].spec_page_range().spec_contains(v));
                    match segment.map_type {
                        MapType::Linear => {
                            lemma_new_round_trip(PhysicalPageNumber(v.0), segment.flags);
                        },
                        MapType::Framed => {
                            let k = s0.mapping.pairs().len() + v.0 - range.start.0;
                            let frame = self.mapping.pairs()[k].1;
                            assert(allocator.is_allocated(frame));
                            lemma_new_round_trip(frame, segment.flags);
                        },
                    }
                } else {
                    assert(self.mapping.leaf(memory, v) == s0.mapping.leaf(&m0, v));
                    if s0.covers(v) {
                        let i = choose|i: int|
                            0 <= i < s0.segments@.len() && (
                            #[trigger] s0.segments@[i]).spec_page_range().spec_contains(v);
                        assert(segments[i] == s0.segments@[i]);
                    }
                    if self.covers(v) {
                        let i = choose|i: int|
                            0 <= i < segments.len() && (
                            #[trigger] segments[i]).spec_page_range().spec_contains(v);
                        assert(segments[i] == s0.segments@[i]);
                    }
                }
            }
        }
        Ok(())
    }

    /// The memory set of the kernel: a fresh mapping with the segments of
    /// `layout` applied in order, each page mapped to the frame of the same
    /// number.
    ///
    /// Fails with `SegmentOverlap`, and changes nothing, where two of the
    /// segments share a page, and else with `FrameExhausted` where the free
    /// frames do not last for the root table and the tables below it.
    pub fn new_kernel(
        layout: &KernelLayout,
        memory: &mut PhysicalMemory,
        allocator: &mut FrameAllocator,
    ) -> (r: MemoryResult<MemorySet>)
        requires
            old(memory).wf(),
            old(allocator).wf(),
            old(memory).backs(old(allocator)),
            layout.wf(),
        ensures
            r is Ok <==> !layout.overlapping()
                && 1 + layout.tables() <= old(allocator).spec_available(),
            r matches Err(e) ==> e == if layout.overlapping() {
                MemoryError::SegmentOverlap
            } else {
                MemoryError::FrameExhausted
            },
            layout.overlapping() ==> final(memory).same_as(old(memory)) && final(allocator).same_as(
                old(allocator),
            ),
            r matches Ok(set) ==> {
                &&& set.wf(final(memory), final(allocator))
                &&& set.segments@ == layout.spec_segments()
                &&& set.mapping.pairs().len() == 0
                &&& set.mapping.tables().len() == 1 + layout.tables()
                &&& final(allocator).spec_available() == old(allocator).spec_available() - 1
                    - layout.tables()
                &&& forall|i: int, v: VirtualPageNumber|
                    0 <= i < 5
                        && (#[trigger] layout.spec_segments()[i]).spec_page_range().spec_contains(
                        v,
                    ) ==> #[trigger] set.mapping.leaf(final(memory), v) == PageTableEntry::spec_new(
                        Some(PhysicalPageNumber(v.0)),
                        layout.spec_segments()[i].flags,
                    )
            },
            final(allocator).spec_start() == old(allocator).spec_start(),
            final(allocator).spec_capacity() == old(allocator).spec_capacity(),
            old(memory).same_extent(final(memory)),
            forall|p: PhysicalPageNumber|
                old(memory).contains_page(p) && !old(allocator).is_free(p)
                    ==> #[trigger] final(memory).page(p) == old(memory).page(p),
    {
        let ghost m0 = *memory;
        let ghost a0 = *allocator;
        let segments = layout.segments();
        proof {
            a0.lemma_wf();
            assert forall|k: int| 0 <= k < 5
                implies (#[trigger] segments@[k]).wf() && segments@[k].map_type
                == MapType::Linear by {}
        }
        if Self::share_a_page(&segments) {
            return Err(MemoryError::SegmentOverlap);
        }
        proof {
            assert forall|i: int, j: int|
                0 <= i < j < 5 && (#[trigger] segments@[i]).spec_page_range().spec_len() > 0 && (
                #[trigger] segments@[j]).spec_page_range().spec_len() > 0
                    implies segments@[i].spec_page_range().end.0
                <= segments@[j].spec_page_range().start.0 by {
                assert(segments@[i].range.end.0 <= segments@[j].range.start.0);
                lemma_ascending_pair(segments@[i], segments@[j]);
            }
            lemma_last_page(segments@, 5, VPN_LIMIT as int);
        }
        let mut set = match MemorySet::new(memory, allocator) {
            Ok(set) => set,
            Err(e) => {
                return Err(e);
            },
        };
        proof {
            assert(set.mapping.tables()[0] == set.mapping.spec_root());
            assert(set.built_from(&m0, memory, &a0, allocator));
        }
        match set.apply_linear(&segments, memory, allocator, Ghost(&m0), Ghost(&a0)) {
            Ok(()) => {},
            Err(e) => {
                return Err(e);
            },
        }
        Ok(set)
    }

    /// Whether two of the first `count` segments of `segments` share a
    /// page.
    pub open spec fn any_overlap(segments: Seq<Segment>, count: int) -> bool {
        exists|i: int, j: int|
            0 <= i < j < count && (#[trigger] segments[i]).spec_page_range().spec_overlap_with(
                &(#[trigger] segments[j]).spec_page_range(),
            )
    }

    /// Whether two of `segments` share a page.
    pub fn share_a_page(segments: &Vec<Segment>) -> (r: bool)
        ensures
            r <==> Self::any_overlap(segments@, segments@.len() as int),
    {
        let mut j: usize = 0;
        while j < segments.len()
            invariant
                j <= segments@.len(),
                !Self::any_overlap(segments@, j as int),
            decreases segments@.len() - j,
        {
            let range = segments[j].page_range();
            let mut i: usize = 0;
            while i < j
                invariant
                    i <= j < segments@.len(),
                    range == segments@[j as int].spec_page_range(),
                    forall|k: int|
                        0 <= k < i
                            ==> !(#[trigger] segments@[k]).spec_page_range().spec_overlap_with(
                            &range,
                        ),
                decreases j - i,
            {
                if segments[i].page_range().overlap_with(&range) {
                    proof {
                        Self::lemma_overlap_found(
                            segments@,
                            i as int,
                            j as int,
                            segments@.len() as int,
                        );
                    }
                    return true;
                }
                i += 1;
            }
            proof {
                if Self::any_overlap(segments@, j as int + 1) {
                    let (a, b) = choose|a: int, b: int|
                        0 <= a < b < j + 1 && (
                        #[trigger] segments@[a]).spec_page_range().spec_overlap_with(
                            &(#[trigger] segments@[b]).spec_page_range(),
                        );
                    if b < j {
                        Self::lemma_overlap_found(segments@, a, b, j as int);
                    }
                }
            }
            j += 1;
        }
        false
    }

    /// Whether this set, which has mapped linear segments only, was built on
    /// `memory_before` and `allocator_before`: its tables were free frames
    /// and are the only frames that were handed out and the only ones that
    /// have changed.
    pub open spec fn built_from(
        &self,
        memory_before: &PhysicalMemory,
        memory: &PhysicalMemory,
        allocator_before: &FrameAllocator,
        allocator: &FrameAllocator,
    ) -> bool {
        &&& self.mapping.pairs().len() == 0
        &&& self.mapping.tables().len() >= 1
        &&& allocator.spec_start() == allocator_before.spec_start()
        &&& allocator.spec_capacity() == allocator_before.spec_capacity()
        &&& allocator.spec_available() == allocator_before.spec_available()
            - self.mapping.tables().len()
        &&& memory_before.same_extent(memory)
        &&& forall|p: PhysicalPageNumber|
            self.mapping.tables().contains(p) ==> allocator_before.is_free(p)
        &&& forall|p: PhysicalPageNumber| #[trigger]
            allocator.is_free(p) ==> allocator_before.is_free(p)
        &&& forall|p: PhysicalPageNumber|
            memory_before.contains_page(p) && !allocator_before.is_free(p)
                ==> #[trigger] memory.page(
                p,
            ) == memory_before.page(p)
    }

    /// Applies linear segments without data, which lie in ascending order
    /// and share no page, to a set that holds no segment yet.
    fn apply_linear(
        &mut self,
        segments: &Vec<Segment>,
        memory: &mut PhysicalMemory,
        allocator: &mut FrameAllocator,
        Ghost(m0): Ghost<&PhysicalMemory>,
        Ghost(a0): Ghost<&FrameAllocator>,
    ) -> (r: MemoryResult<()>)
        requires
            old(self).wf(old(memory), old(allocator)),
            old(self).built_from(m0, old(memory), a0, old(allocator)),
            old(self).segments@.len() == 0,
            old(self).mapping.tables().len() == 1,
            tables_upto(old(memory), old(self).mapping.spec_root(), -1),
            forall|k: int|
                0 <= k < segments@.len() ==> (#[trigger] segments@[k]).wf() && segments@[k].map_type
                    == MapType::Linear,
            !Self::any_overlap(segments@, segments@.len() as int),
            ascending(segments@, segments@.len() as int),
        ensures
            final(self).built_from(m0, final(memory), a0, final(allocator)),
            r is Ok <==> fresh_total(segments@, segments@.len() as int)
                <= old(allocator).spec_available(),
            r matches Err(e) ==> e == MemoryError::FrameExhausted,
            r is Ok ==> {
                &&& final(self).wf(final(memory), final(allocator))
                &&& final(self).segments@ == segments@
                &&& final(self).mapping.tables().len() == 1 + fresh_total(
                    segments@,
                    segments@.len() as int,
                )
                &&& forall|k: int, v: VirtualPageNumber|
                    0 <= k < segments@.len()
                        && (#[trigger] segments@[k]).spec_page_range().spec_contains(
                        v,
                    ) ==> #[trigger] final(self).mapping.leaf(final(memory), v)
                        == PageTableEntry::spec_new(
                        Some(PhysicalPageNumber(v.0)),
                        segments@[k].flags,
                    )
            },
    {
        let ghost s0 = *self;
        let ghost first = *allocator;
        let ghost root = self.mapping.spec_root();
        let mut i: usize = 0;
        proof {
            assert(self.segments@ =~= segments@.take(0));
            self.mapping.lemma_wf(memory, allocator);
            first.lemma_wf();
        }
        while i < segments.len()
            invariant
                i <= segments@.len(),
                s0 == *old(self),
                first == *old(allocator),
                root == self.mapping.spec_root(),
                forall|k: int|
                    0 <= k < segments@.len() ==> (#[trigger] segments@[k]).wf()
                        && segments@[k].map_type == MapType::Linear,
                !Self::any_overlap(segments@, segments@.len() as int),
                ascending(segments@, segments@.len() as int),
                self.wf(memory, allocator),
                self.segments@ == segments@.take(i as int),
                self.built_from(m0, memory, a0, allocator),
                first.spec_available() == a0.spec_available() - 1,
                tables_upto(memory, root, last_page(segments@, i as int)),
                self.mapping.tables().len() == 1 + fresh_total(segments@, i as int),
                0 <= fresh_total(segments@, i as int) <= first.spec_available(),
                forall|k: int, v: VirtualPageNumber|
                    0 <= k < i && (#[trigger] segments@[k]).spec_page_range().spec_contains(v)
                        ==> #[trigger] self.mapping.leaf(memory, v) == PageTableEntry::spec_new(
                        Some(PhysicalPageNumber(v.0)),
                        segments@[k].flags,
                    ),
            decreases segments@.len() - i,
        {
            let segment = segments[i];
            let ghost before = *self;
            let ghost m1 = *memory;
            let ghost range = segment.spec_page_range();
            let ghost last = last_page(segments@, i as int);
            proof {
                Self::lemma_later_total(segments@, i as int + 1, segments@.len() as int);
                if range.spec_len() > 0 {
                    lemma_last_page(segments@, i as int, range.start.0 as int);
                }
                if before.overlaps(range) {
                    let k = choose|k: int|
                        0 <= k < before.segments@.len() && (
                        #[trigger] before.segments@[k]).spec_page_range().spec_overlap_with(&range);
                    assert(segments@[k].spec_page_range().spec_overlap_with(
                        &segments@[i as int].spec_page_range(),
                    ));
                    Self::lemma_overlap_found(segments@, k, i as int, segments@.len() as int);
                }
            }
            let r = self.add_linear(segment, memory, allocator, Ghost(m0), Ghost(a0), Ghost(last));
            match r {
                Ok(()) => {},
                Err(e) => {
                    return Err(e);
                },
            }
            proof {
                assert(self.segments@ =~= segments@.take(i as int + 1));
                assert forall|k: int, v: VirtualPageNumber|
                    0 <= k < i + 1 && (#[trigger] segments@[k]).spec_page_range().spec_contains(
                        v,
                    ) implies #[trigger] self.mapping.leaf(memory, v) == PageTableEntry::spec_new(
                    Some(PhysicalPageNumber(v.0)),
                    segments@[k].flags,
                ) by {
                    crate::mapping::walk::lemma_levels_of_index(v);
                    if k < i {
                        if segments@[k].spec_page_range().spec_overlap_with(&range) {
                            Self::lemma_overlap_found(
                                segments@,
                                k,
                                i as int,
                                segments@.len() as int,
                            );
                        }
                        assert(before.mapping.leaf(&m1, v) == PageTableEntry::spec_new(
                            Some(PhysicalPageNumber(v.0)),
                            segments@[k].flags,
                        ));
                    }
                }
            }
            i += 1;
        }
        proof {
            assert(segments@.take(segments@.len() as int) =~= segments@);
        }
        Ok(())
    }

    /// The tables of more segments are no fewer.
    proof fn lemma_later_total(segments: Seq<Segment>, count: int, more: int)
        requires
            0 <= count <= more,
        ensures
            0 <= fresh_total(segments, count) <= fresh_total(segments, more),
        decreases more,
    {
        if more > 0 {
            lemma_fresh_tables_positive(
                last_page(segments, more - 1),
                segments[more - 1].spec_page_range().start.0 as int,
                segments[more - 1].spec_page_range().spec_len(),
            );
            if count < more {
                Self::lemma_later_total(segments, count, more - 1);
            } else {
                Self::lemma_later_total(segments, count - 1, more - 1);
            }
        }
    }

    /// Two segments that share a page witness `any_overlap`.
    proof fn lemma_overlap_found(segments: Seq<Segment>, i: int, j: int, count: int)
        requires
            0 <= i < j < count,
            segments[i].spec_page_range().spec_overlap_with(&segments[j].spec_page_range()),
        ensures
            Self::any_overlap(segments, count),
    {
    }

    /// Applies one linear segment without data, which lies above the pages
    /// mapped so far and shares no page with them, to a set that holds
    /// linear segments only.
    fn add_linear(
        &mut self,
        segment: Segment,
        memory: &mut PhysicalMemory,
        allocator: &mut FrameAllocator,
        Ghost(m0): Ghost<&PhysicalMemory>,
        Ghost(a0): Ghost<&FrameAllocator>,
        Ghost(last): Ghost<int>,
    ) -> (r: MemoryResult<()>)
        requires
            old(self).wf(old(memory), old(allocator)),
            old(self).built_from(m0, old(memory), a0, old(allocator)),
            segment.wf(),
            segment.map_type == MapType::Linear,
            !old(self).overlaps(segment.spec_page_range()),
            tables_upto(old(memory), old(self).mapping.spec_root(), last),
            segment.spec_page_range().spec_len() > 0 ==> last < segment.spec_page_range().start.0,
        ensures
            final(self).built_from(m0, final(memory), a0, final(allocator)),
            final(self).mapping.spec_root() == old(self).mapping.spec_root(),
            r is Ok <==> fresh_tables(
                last,
                segment.spec_page_range().start.0 as int,
                segment.spec_page_range().spec_len(),
            ) <= old(allocator).spec_available(),
            r matches Err(e) ==> e == MemoryError::FrameExhausted,
            r is Ok ==> {
                &&& final(self).wf(final(memory), final(allocator))
                &&& final(self).segments@ == old(self).segments@.push(segment)
                &&& final(self).mapping.tables().len() == old(self).mapping.tables().len()
                    + fresh_tables(
                    last,
                    segment.spec_page_range().start.0 as int,
                    segment.spec_page_range().spec_len(),
                )
                &&& tables_upto(
                    final(memory),
                    old(self).mapping.spec_root(),
                    if segment.spec_page_range().spec_len() > 0 {
                        segment.spec_page_range().end.0 - 1
                    } else {
                        last
                    },
                )
                &&& forall|v: VirtualPageNumber| #[trigger]
                    final(self).mapping.leaf(final(memory), v)
                        == if segment.spec_page_range().spec_contains(
                        VirtualPageNumber(v.index() as u64),
                    ) {
                        PageTableEntry::spec_new(
                            Some(PhysicalPageNumber(v.index() as u64)),
                            segment.flags,
                        )
                    } else {
                        old(self).mapping.leaf(old(memory), v)
                    }
            },
    {
        let ghost before = *self;
        let ghost m1 = *memory;
        let ghost a1 = *allocator;
        let ghost range = segment.spec_page_range();
        proof {
            lemma_fresh_tables(
                &m1,
                self.mapping.spec_root(),
                last,
                range.start.0 as int,
                range.spec_len(),
            );
        }
        let r = self.add_segment(segment, None, memory, allocator);
        proof {
            assert forall|p: PhysicalPageNumber| self.mapping.tables().contains(p)
                implies a0.is_free(
                p,
            ) by {
                if !before.mapping.tables().contains(p) {
                    assert(a1.is_free(p));
                }
            }
            assert forall|p: PhysicalPageNumber| #[trigger] allocator.is_free(p) implies a0.is_free(
                p,
            ) by {
                assert(a1.is_free(p));
            }
            assert forall|p: PhysicalPageNumber|
                m0.contains_page(p) && !a0.is_free(p) implies #[trigger] memory.page(p) == m0.page(
                p,
            ) by {
                if self.mapping.tables().contains(p) {
                    assert(a0.is_free(p));
                }
                assert(m1.page(p) == m0.page(p));
            }
            if r is Ok {
                lemma_tables_upto_after(
                    &m1,
                    memory,
                    self.mapping.spec_root(),
                    last,
                    range.start.0 as int,
                    range.spec_len(),
                );
                assert forall|v: VirtualPageNumber| #[trigger]
                    self.mapping.leaf(memory, v) == if range.spec_contains(
                        VirtualPageNumber(v.index() as u64),
                    ) {
                        PageTableEntry::spec_new(
                            Some(PhysicalPageNumber(v.index() as u64)),
                            segment.flags,
                        )
                    } else {
                        before.mapping.leaf(&m1, v)
                    } by {
                    crate::mapping::walk::lemma_levels_of_index(v);
                }
            }
        }
        r
    }

    /// The word that makes the mapping of this set the active one when it
    /// is written to the root-table register.
    pub fn activate(&self) -> (satp: u64)
        ensures
            satp == crate::mapping::translate::satp_of(self.mapping.spec_root()),
    {
        self.mapping.activate()
    }
}

} // verus!
