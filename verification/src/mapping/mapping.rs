//! The mapping engine: one address space, as a tree of page tables in
//! physical memory together with the frames that back its pages.

use crate::address::{PhysicalAddress, PhysicalPageNumber, VirtualPageNumber};
use crate::config::{PPN_LIMIT, SATP_MODE_SV39, VA_LIMIT, VPN_LIMIT};
use crate::error::{MemoryError, MemoryResult};
use crate::frame::{
    lemma_allocs_compose, stack_after_alloc, stack_after_allocs, stack_nth_top, FrameAllocator,
    FrameTracker,
};
use crate::mapping::page_table::PageTableTracker;
use crate::mapping::page_table_entry::{lemma_new_round_trip, Flags, PageTableEntry};
use crate::mapping::segment::{MapType, Segment};
use crate::mapping::translate::satp_of;
use crate::mapping::walk::{
    leaf_of, lemma_attach_below_middle, lemma_attach_below_root, lemma_leaf_by_index,
    lemma_leaf_written, lemma_levels_in_range, lemma_levels_of_index, lemma_page_cost,
    lemma_page_mapped, lemma_pages_untouched, lemma_pointer, lemma_tables_needed_grows,
    lemma_tables_untouched, missing_tables, pointer, slot_of, table1, table2, tables_after_pages,
    tables_needed, tables_upto, tables_walked, tree_wf, EntrySlot,
};
use crate::memory::{overwrite, PhysicalMemory};
use crate::range::Range;
use std::collections::VecDeque;
use vstd::prelude::*;

verus! {

/// Every owned frame is handed out by `allocator`, and no frame is owned
/// twice, be it as a table or as the backing of a page.
pub open spec fn owned_wf(
    allocator: &FrameAllocator,
    tables: Seq<PhysicalPageNumber>,
    pairs: Seq<(VirtualPageNumber, PhysicalPageNumber)>,
) -> bool {
    &&& forall|i: int| 0 <= i < tables.len() ==> allocator.is_allocated(#[trigger] tables[i])
    &&& forall|i: int| 0 <= i < pairs.len() ==> allocator.is_allocated((#[trigger] pairs[i]).1)
    &&& forall|i: int, j: int|
        0 <= i < j < tables.len() ==> (#[trigger] tables[i]) != (#[trigger] tables[j])
    &&& forall|i: int, j: int|
        0 <= i < j < pairs.len() ==> (#[trigger] pairs[i]).1 != (#[trigger] pairs[j]).1
    &&& forall|i: int, j: int|
        0 <= i < tables.len() && 0 <= j < pairs.len() ==> (#[trigger] tables[i]) != (
        #[trigger] pairs[j]).1
}

/// Every recorded page lies in the three-level address space and its entry
/// names the frame recorded for it.
pub open spec fn pairs_wf(
    memory: &PhysicalMemory,
    root: PhysicalPageNumber,
    pairs: Seq<(VirtualPageNumber, PhysicalPageNumber)>,
) -> bool {
    forall|i: int|
        0 <= i < pairs.len() ==> {
            &&& (#[trigger] pairs[i]).0.0 < VPN_LIMIT
            &&& leaf_of(memory, root, pairs[i].0).0 != 0
            &&& leaf_of(memory, root, pairs[i].0).spec_page_number() == pairs[i].1
        }
}

/// The frame that the allocation after `count` earlier ones hands out.
pub open spec fn nth_frame(allocator: &FrameAllocator, count: int) -> PhysicalPageNumber {
    PhysicalPageNumber((allocator.spec_start().0 + stack_nth_top(allocator.stack(), count)) as u64)
}

/// A frame that the allocator has just handed out was owned by nothing, and
/// may join the tables.
pub proof fn lemma_owned_grows(
    before: &FrameAllocator,
    allocator: &FrameAllocator,
    tables: Seq<PhysicalPageNumber>,
    pairs: Seq<(VirtualPageNumber, PhysicalPageNumber)>,
    fresh: PhysicalPageNumber,
)
    requires
        owned_wf(before, tables, pairs),
        allocator.spec_start() == before.spec_start(),
        allocator.spec_capacity() == before.spec_capacity(),
        before.is_free(fresh),
        allocator.is_allocated(fresh),
        forall|p: PhysicalPageNumber| p != fresh ==> (allocator.is_free(p) <==> before.is_free(p)),
    ensures
        !tables.contains(fresh),
        forall|j: int| 0 <= j < pairs.len() ==> (#[trigger] pairs[j]).1 != fresh,
        owned_wf(allocator, tables, pairs),
        owned_wf(allocator, tables.push(fresh), pairs),
{
    if tables.contains(fresh) {
        let i = choose|i: int| 0 <= i < tables.len() && tables[i] == fresh;
        assert(before.is_allocated(tables[i]));
    }
    assert forall|i: int| 0 <= i < tables.len() implies allocator.is_allocated(
        #[trigger] tables[i],
    ) by {
        assert(before.is_allocated(tables[i]));
        assert(!before.is_free(tables[i]));
        assert(!allocator.is_free(tables[i]));
    }
    assert forall|i: int| 0 <= i < pairs.len() implies allocator.is_allocated(
        (#[trigger] pairs[i]).1,
    ) && pairs[i].1 != fresh by {
        assert(before.is_allocated(pairs[i].1));
        assert(!before.is_free(pairs[i].1));
        assert(!allocator.is_free(pairs[i].1));
    }
    let after = tables.push(fresh);
    assert forall|i: int, j: int| 0 <= i < j < after.len() implies (#[trigger] after[i]) != (
    #[trigger] after[j]) by {
        if j == tables.len() {
            assert(tables.contains(tables[i]));
        } else {
            assert(after[i] == tables[i] && after[j] == tables[j]);
        }
    }
    assert forall|i: int, j: int| 0 <= i < after.len() && 0 <= j < pairs.len() implies (
    #[trigger] after[i]) != (#[trigger] pairs[j]).1 by {
        if i < tables.len() {
            assert(after[i] == tables[i]);
        }
    }
    assert forall|i: int| 0 <= i < after.len() implies allocator.is_allocated(
        #[trigger] after[i],
    ) by {
        if i < tables.len() {
            assert(after[i] == tables[i]);
        }
    }
}

/// A frame that is handed out and owned by nothing may be recorded as the
/// backing of a page.
pub proof fn lemma_owned_pair_added(
    allocator: &FrameAllocator,
    tables: Seq<PhysicalPageNumber>,
    pairs: Seq<(VirtualPageNumber, PhysicalPageNumber)>,
    vpn: VirtualPageNumber,
    frame: PhysicalPageNumber,
)
    requires
        owned_wf(allocator, tables, pairs),
        allocator.is_allocated(frame),
        !tables.contains(frame),
        forall|j: int| 0 <= j < pairs.len() ==> (#[trigger] pairs[j]).1 != frame,
    ensures
        owned_wf(allocator, tables, pairs.push((vpn, frame))),
{
    let after = pairs.push((vpn, frame));
    assert forall|i: int| 0 <= i < after.len() implies allocator.is_allocated(
        (#[trigger] after[i]).1,
    ) by {
        if i < pairs.len() {
            assert(after[i] == pairs[i]);
        }
    }
    assert forall|i: int, j: int| 0 <= i < j < after.len() implies (#[trigger] after[i]).1 != (
    #[trigger] after[j]).1 by {
        assert(after[i] == pairs[i]);
        if j < pairs.len() {
            assert(after[j] == pairs[j]);
        }
    }
    assert forall|i: int, j: int| 0 <= i < tables.len() && 0 <= j < after.len() implies (
    #[trigger] tables[i]) != (#[trigger] after[j]).1 by {
        if j < pairs.len() {
            assert(after[j] == pairs[j]);
        } else {
            assert(tables.contains(tables[i]));
        }
    }
}

/// Whether a recorded pair stays when the pages of `range` are unmapped: its
/// page lies outside the range.
pub open spec fn kept(range: Range<VirtualPageNumber>) -> spec_fn(
    (VirtualPageNumber, PhysicalPageNumber),
) -> bool {
    |p: (VirtualPageNumber, PhysicalPageNumber)| !range.spec_contains(p.0)
}

/// Whether a recorded pair goes when the pages of `range` are unmapped: its
/// page lies in the range.
pub open spec fn dropped(range: Range<VirtualPageNumber>) -> spec_fn(
    (VirtualPageNumber, PhysicalPageNumber),
) -> bool {
    |p: (VirtualPageNumber, PhysicalPageNumber)| range.spec_contains(p.0)
}

/// The interval that the frame of a recorded pair makes on the stack of
/// free frames of an allocator whose pool starts at `start`.
pub open spec fn freed_interval(start: PhysicalPageNumber) -> spec_fn(
    (VirtualPageNumber, PhysicalPageNumber),
) -> (int, int) {
    |p: (VirtualPageNumber, PhysicalPageNumber)| (p.1.0 - start.0, p.1.0 - start.0 + 1)
}

/// Filtering a sequence that grew by one element.
pub proof fn lemma_filter_push<A>(s: Seq<A>, x: A, pred: spec_fn(A) -> bool)
    ensures
        s.push(x).filter(pred) == if pred(x) {
            s.filter(pred).push(x)
        } else {
            s.filter(pred)
        },
{
    reveal(Seq::filter);
    assert(s.push(x).drop_last() =~= s);
}

/// A filter that every element passes keeps the whole sequence, and one
/// that no element passes keeps nothing.
pub proof fn lemma_filter_all_or_none<A>(s: Seq<A>, pred: spec_fn(A) -> bool)
    ensures
        (forall|i: int| 0 <= i < s.len() ==> pred(#[trigger] s[i])) ==> s.filter(pred) == s,
        (forall|i: int| 0 <= i < s.len() ==> !pred(#[trigger] s[i])) ==> s.filter(pred).len() == 0,
    decreases s.len(),
{
    reveal(Seq::filter);
    if s.len() > 0 {
        lemma_filter_all_or_none(s.drop_last(), pred);
        if forall|i: int| 0 <= i < s.len() ==> pred(#[trigger] s[i]) {
            assert forall|i: int| 0 <= i < s.drop_last().len() implies pred(
                #[trigger] s.drop_last()[i],
            ) by {
                assert(s.drop_last()[i] == s[i]);
            }
            assert(pred(s[s.len() - 1]));
            assert(s.drop_last().push(s.last()) =~= s);
        }
        if forall|i: int| 0 <= i < s.len() ==> !pred(#[trigger] s[i]) {
            assert forall|i: int| 0 <= i < s.drop_last().len() implies !pred(
                #[trigger] s.drop_last()[i],
            ) by {
                assert(s.drop_last()[i] == s[i]);
            }
            assert(!pred(s[s.len() - 1]));
        }
    }
}

/// The bytes that a caller hands in to fill a segment with; none where it
/// hands in nothing.
pub open spec fn data_of(init_data: Option<&[u8]>) -> Seq<u8> {
    match init_data {
        Some(data) => data@,
        None => Seq::empty(),
    }
}

/// What the frame of page `vpn` of a frame-backed segment holds once the
/// segment is mapped with `data`: byte for byte the part of `data` that
/// falls into the page, where `data` starts at the start of the segment and
/// is cut off at its end, and zero everywhere else.
pub open spec fn page_image(segment: &Segment, data: Seq<u8>, vpn: VirtualPageNumber) -> Seq<u8> {
    Seq::new(
        4096,
        |j: int|
            if data.len() > 0 && segment.range.start.0 <= vpn.0 * 4096 + j < segment.range.end.0 {
                data[vpn.0 * 4096 + j - segment.range.start.0]
            } else {
                0u8
            },
    )
}

/// Builds the content of the frame of page `vpn`: zeroes, with the part of
/// the initial data that falls into the page copied in.
pub fn page_data(segment: &Segment, init_data: Option<&[u8]>, vpn: VirtualPageNumber) -> (r: [u8;
    4096])
    requires
        segment.wf(),
        segment.spec_page_range().spec_contains(vpn),
        data_of(init_data).len() == 0 || data_of(init_data).len() >= segment.range.spec_len(),
    ensures
        r@ == page_image(segment, data_of(init_data), vpn),
{
    let mut page_data: [u8; 4096] = [0u8; 4096];
    if let Some(data) = init_data {
        if data.len() > 0 {
            let page_address = vpn.address();
            let start: u64 = if segment.range.start.0 > page_address.0 {
                segment.range.start - page_address
            } else {
                0
            };
            let stop: u64 = if segment.range.end - page_address < 4096 {
                segment.range.end - page_address
            } else {
                4096
            };
            let len: usize = data.len();
            let mut j: u64 = start;
            while j < stop
                invariant
                    start <= j,
                    j <= stop || j == start,
                    stop <= 4096,
                    len == data@.len(),
                    page_address.0 < VA_LIMIT,
                    page_address.0 == vpn.0 * 4096,
                    page_address.0 + stop <= segment.range.end.0,
                    page_address.0 + start >= segment.range.start.0,
                    segment.range.end.0 - segment.range.start.0 <= data@.len(),
                    segment.range.end.0 <= VA_LIMIT,
                    forall|k: int|
                        0 <= k < 4096 ==> #[trigger] page_data@[k] == if start <= k < j {
                            data@[page_address.0 + k - segment.range.start.0]
                        } else {
                            0u8
                        },
                decreases stop - j,
            {
                page_data[j as usize] = data[((page_address + j) - segment.range.start) as usize];
                j += 1;
            }
        }
    }
    assert(page_data@ =~= page_image(segment, data_of(init_data), vpn));
    page_data
}

/// The frame of a page table.
pub open spec fn table_frame() -> spec_fn(PageTableTracker) -> PhysicalPageNumber {
    |t: PageTableTracker| t.spec_page_number()
}

/// A recorded page with the number of its frame.
pub open spec fn pair_frame() -> spec_fn((VirtualPageNumber, FrameTracker)) -> (
    VirtualPageNumber,
    PhysicalPageNumber,
) {
    |p: (VirtualPageNumber, FrameTracker)| (p.0, p.1.spec_page_number())
}

/// The interval that a frame makes on the stack of free frames of an
/// allocator whose pool starts at `start`.
pub open spec fn frame_interval(start: PhysicalPageNumber) -> spec_fn(PhysicalPageNumber) -> (
    int,
    int,
) {
    |p: PhysicalPageNumber| (p.0 - start.0, p.0 - start.0 + 1)
}

/// The memory mapping of one address space.
pub struct Mapping {
    /// Every page table that the mapping has made, the root first.
    page_tables: Vec<PageTableTracker>,
    /// The frame of the root table.
    root_ppn: PhysicalPageNumber,
    /// Every page that is backed by a frame of its own, with that frame.
    mapped_pairs: VecDeque<(VirtualPageNumber, FrameTracker)>,
}

impl Mapping {
    /// The frame of the root table.
    pub closed spec fn spec_root(&self) -> PhysicalPageNumber {
        self.root_ppn
    }

    /// The frames of the page tables, in the order in which they were made.
    pub closed spec fn tables(&self) -> Seq<PhysicalPageNumber> {
        self.page_tables@.map_values(table_frame())
    }

    /// The pages backed by a frame of their own, each with its frame, in the
    /// order in which they were mapped.
    pub closed spec fn pairs(&self) -> Seq<(VirtualPageNumber, PhysicalPageNumber)> {
        self.mapped_pairs@.map_values(pair_frame())
    }

    /// The entry of page `vpn` in this mapping.
    pub open spec fn leaf(&self, memory: &PhysicalMemory, vpn: VirtualPageNumber) -> PageTableEntry {
        leaf_of(memory, self.spec_root(), vpn)
    }

    /// The tables of the mapping form a tree in `memory` with the root table
    /// first, and every recorded page is mapped to its recorded frame.
    pub closed spec fn tree_in(&self, memory: &PhysicalMemory) -> bool {
        &&& memory.wf()
        &&& self.tables().len() > 0
        &&& self.tables()[0] == self.spec_root()
        &&& tree_wf(memory, self.spec_root(), self.tables())
        &&& pairs_wf(memory, self.spec_root(), self.pairs())
    }

    /// Every frame that the mapping owns is handed out by `allocator` and
    /// owned once.
    pub closed spec fn owned_by(&self, allocator: &FrameAllocator) -> bool {
        &&& allocator.wf()
        &&& owned_wf(allocator, self.tables(), self.pairs())
    }

    /// The mapping is consistent with `memory` and `allocator`: both are
    /// well-formed, the pool of the allocator lies in the memory, the
    /// tables of the mapping form a tree there, and its frames come from the
    /// allocator.
    pub open spec fn wf(&self, memory: &PhysicalMemory, allocator: &FrameAllocator) -> bool {
        &&& memory.wf()
        &&& allocator.wf()
        &&& memory.backs(allocator)
        &&& self.tree_in(memory)
        &&& self.owned_by(allocator)
    }

    /// What follows from `tree_in`.
    pub proof fn lemma_tree_in(&self, memory: &PhysicalMemory)
        requires
            self.tree_in(memory),
        ensures
            memory.wf(),
            self.tables().len() > 0,
            self.tables()[0] == self.spec_root(),
            tree_wf(memory, self.spec_root(), self.tables()),
            pairs_wf(memory, self.spec_root(), self.pairs()),
    {
    }

    /// What follows from `wf`.
    pub proof fn lemma_wf(&self, memory: &PhysicalMemory, allocator: &FrameAllocator)
        requires
            self.wf(memory, allocator),
        ensures
            memory.wf(),
            allocator.wf(),
            memory.backs(allocator),
            self.tables().len() > 0,
            self.tables()[0] == self.spec_root(),
            tree_wf(memory, self.spec_root(), self.tables()),
            owned_wf(allocator, self.tables(), self.pairs()),
            pairs_wf(memory, self.spec_root(), self.pairs()),
    {
    }

    /// Whether this mapping is `before` after a walk that made `count` new
    /// tables: the root and the recorded pages are the same; the allocator
    /// has handed out `count` frames, which are the new tables in that
    /// order; and no frame but a table has changed in memory.
    pub open spec fn grown_from(
        &self,
        before: &Mapping,
        memory_before: &PhysicalMemory,
        memory: &PhysicalMemory,
        allocator_before: &FrameAllocator,
        allocator: &FrameAllocator,
        count: int,
    ) -> bool {
        &&& self.spec_root() == before.spec_root()
        &&& self.pairs() == before.pairs()
        &&& allocator.spec_start() == allocator_before.spec_start()
        &&& allocator.spec_capacity() == allocator_before.spec_capacity()
        &&& allocator.stack() == stack_after_allocs(allocator_before.stack(), count)
        &&& allocator.spec_available() == allocator_before.spec_available() - count
        &&& self.tables() == before.tables() + Seq::new(
            count as nat,
            |k: int| nth_frame(allocator_before, k),
        )
        &&& forall|p: PhysicalPageNumber|
            self.tables().contains(p) ==> before.tables().contains(p) || allocator_before.is_free(p)
        &&& forall|p: PhysicalPageNumber| #[trigger]
            allocator.is_free(p) ==> allocator_before.is_free(p)
        &&& memory_before.same_extent(memory)
        &&& forall|p: PhysicalPageNumber|
            memory_before.contains_page(p) && !self.tables().contains(p) ==> #[trigger] memory.page(
                p,
            ) == memory_before.page(p)
    }

    /// Makes a mapping with an empty root table, in a frame taken from
    /// `allocator`. Fails with `FrameExhausted`, and changes nothing, when
    /// no frame is free.
    pub fn new(memory: &mut PhysicalMemory, allocator: &mut FrameAllocator) -> (r: MemoryResult<
        Mapping,
    >)
        requires
            old(memory).wf(),
            old(allocator).wf(),
            old(memory).backs(old(allocator)),
        ensures
            r is Err <==> old(allocator).spec_available() == 0,
            match r {
                Ok(mapping) => {
                    &&& mapping.wf(final(memory), final(allocator))
                    &&& mapping.spec_root() == nth_frame(old(allocator), 0)
                    &&& old(allocator).is_free(mapping.spec_root())
                    &&& forall|p: PhysicalPageNumber| #[trigger]
                        final(allocator).is_free(p) ==> old(allocator).is_free(p)
                    &&& mapping.tables() == seq![mapping.spec_root()]
                    &&& mapping.pairs().len() == 0
                    &&& forall|vpn: VirtualPageNumber|
                        (#[trigger] mapping.leaf(final(memory), vpn)).0 == 0
                    &&& tables_upto(final(memory), mapping.spec_root(), -1)
                    &&& final(allocator).spec_start() == old(allocator).spec_start()
                    &&& final(allocator).spec_capacity() == old(allocator).spec_capacity()
                    &&& final(allocator).stack() == stack_after_alloc(old(allocator).stack())
                    &&& final(allocator).spec_available() == old(allocator).spec_available() - 1
                    &&& old(memory).same_but_page(final(memory), mapping.spec_root())
                },
                Err(e) => {
                    &&& e == MemoryError::FrameExhausted
                    &&& final(memory).same_as(old(memory))
                    &&& final(allocator).same_as(old(allocator))
                },
            },
    {
        proof {
            allocator.lemma_wf();
        }
        let frame = match allocator.allocate() {
            Ok(frame) => frame,
            Err(e) => {
                return Err(e);
            },
        };
        let root_table = PageTableTracker::new(frame, memory);
        let root_ppn = root_table.page_number();
        let mut page_tables: Vec<PageTableTracker> = Vec::new();
        page_tables.push(root_table);
        let mapping = Mapping { page_tables, root_ppn, mapped_pairs: VecDeque::new() };
        proof {
            let tables = mapping.tables();
            assert(tables =~= seq![root_ppn]);
            assert(tables[0] == root_ppn);
            assert(mapping.pairs() =~= Seq::empty());
            assert forall|a: int| 0 <= a < 512 implies #[trigger] table1(memory, root_ppn, a)
                is None by {
                assert(memory.entry(root_ppn, a) == 0);
            }
            assert forall|t: PhysicalPageNumber| tables.contains(t) implies t == root_ppn by {}
            assert(old(allocator).stack().len() > 0);
            assert(stack_after_allocs(old(allocator).stack(), 0) == old(allocator).stack());
        }
        Ok(mapping)
    }

    /// Follows entry `a` of the root table to the table below it, and makes
    /// that table first where the entry is empty.
    fn descend_from_root(
        &mut self,
        a: usize,
        memory: &mut PhysicalMemory,
        allocator: &mut FrameAllocator,
    ) -> (r: MemoryResult<PhysicalPageNumber>)
        requires
            old(self).wf(old(memory), old(allocator)),
            a < 512,
        ensures
            final(self).wf(final(memory), final(allocator)),
            r is Err <==> table1(old(memory), old(self).spec_root(), a as int) is None
                && old(allocator).spec_available() == 0,
            final(self).grown_from(
                old(self),
                old(memory),
                final(memory),
                old(allocator),
                final(allocator),
                if r is Ok && table1(old(memory), old(self).spec_root(), a as int) is None {
                    1int
                } else {
                    0int
                },
            ),
            forall|vpn: VirtualPageNumber| #[trigger]
                leaf_of(final(memory), old(self).spec_root(), vpn) == leaf_of(
                    old(memory),
                    old(self).spec_root(),
                    vpn,
                ),
            forall|c: int|
                0 <= c < 512 && c != a ==> #[trigger] table1(
                    final(memory),
                    old(self).spec_root(),
                    c,
                ) == table1(old(memory), old(self).spec_root(), c),
            forall|c: int, d: int|
                0 <= c < 512 && 0 <= d < 512 ==> #[trigger] table2(
                    final(memory),
                    old(self).spec_root(),
                    c,
                    d,
                ) == table2(old(memory), old(self).spec_root(), c, d),
            match r {
                Ok(t) => {
                    &&& table1(final(memory), old(self).spec_root(), a as int) == Some(t)
                    &&& t == match table1(old(memory), old(self).spec_root(), a as int) {
                        Some(t0) => t0,
                        None => nth_frame(old(allocator), 0),
                    }
                },
                Err(e) => {
                    &&& e == MemoryError::FrameExhausted
                    &&& table1(final(memory), old(self).spec_root(), a as int) is None
                },
            },
    {
        let ghost root = self.spec_root();
        let ghost tables = self.tables();
        let ghost m0 = *memory;
        let ghost a0 = *allocator;
        proof {
            allocator.lemma_wf();
            assert(tables.contains(root));
            assert(stack_after_allocs(a0.stack(), 0) == a0.stack());
            assert(self.tables() =~= tables + Seq::new(0nat, |k: int| nth_frame(&a0, k)));
        }
        let entry = memory.read_entry(self.root_ppn, a);
        if !entry.is_empty() {
            return Ok(entry.page_number());
        }
        let frame = match allocator.allocate() {
            Ok(frame) => frame,
            Err(e) => {
                return Err(e);
            },
        };
        let ghost fresh = frame.spec_page_number();
        proof {
            lemma_owned_grows(&a0, allocator, tables, self.pairs(), fresh);
        }
        let new_table = PageTableTracker::new(frame, memory);
        let ghost m1 = *memory;
        let new_ppn = new_table.page_number();
        proof {
            lemma_tables_untouched(&m0, &m1, root, tables);
            lemma_pointer(fresh);
        }
        memory.write_entry(
            self.root_ppn,
            a,
            PageTableEntry::new(Some(new_ppn), Flags::from_bits(Flags::VALID)),
        );
        self.page_tables.push(new_table);
        proof {
            lemma_attach_below_root(&m1, memory, root, tables, a as int, fresh);
            assert(self.tables() =~= tables.push(fresh));
            assert(stack_after_allocs(a0.stack(), 1) == stack_after_alloc(a0.stack())) by {
                reveal_with_fuel(stack_after_allocs, 2);
            }
            assert(self.tables() =~= tables + Seq::new(1nat, |k: int| nth_frame(&a0, k)));
            assert(self.tables().contains(fresh)) by {
                assert(self.tables()[tables.len() as int] == fresh);
            }
            assert forall|p: PhysicalPageNumber|
                m0.contains_page(p) && !self.tables().contains(p) implies #[trigger] memory.page(p)
                == m0.page(p) by {
                assert(self.tables()[0] == root);
                assert(p != root && p != fresh);
                assert(m1.page(p) == m0.page(p));
                assert(memory.page(p) == m1.page(p));
            }
            assert forall|vpn: VirtualPageNumber| #[trigger]
                leaf_of(memory, root, vpn) == leaf_of(&m0, root, vpn) by {
                assert(leaf_of(&m1, root, vpn) == leaf_of(&m0, root, vpn));
            }
            assert forall|c: int| 0 <= c < 512 && c != a implies #[trigger] table1(memory, root, c)
                == table1(&m0, root, c) by {
                assert(table1(&m1, root, c) == table1(&m0, root, c));
            }
            assert forall|c: int, d: int| 0 <= c < 512 && 0 <= d < 512 implies #[trigger] table2(
                memory,
                root,
                c,
                d,
            ) == table2(&m0, root, c, d) by {
                assert(table2(&m1, root, c, d) == table2(&m0, root, c, d));
            }
            assert(table1(&m1, root, a as int) == table1(&m0, root, a as int));
            assert(table1(memory, root, a as int) == Some(fresh));
            let pairs = self.pairs();
            assert forall|i: int| 0 <= i < pairs.len() implies {
                &&& (#[trigger] pairs[i]).0.0 < VPN_LIMIT
                &&& leaf_of(memory, root, pairs[i].0).0 != 0
                &&& leaf_of(memory, root, pairs[i].0).spec_page_number() == pairs[i].1
            } by {
                assert(leaf_of(memory, root, pairs[i].0) == leaf_of(&m0, root, pairs[i].0));
            }
        }
        Ok(new_ppn)
    }

    /// Follows entry `b` of the second-level table in frame `middle`, which
    /// stands under entry `a` of the root, to the table below it, and makes
    /// that table first where the entry is empty.
    fn descend_from_middle(
        &mut self,
        Ghost(a): Ghost<int>,
        middle: PhysicalPageNumber,
        b: usize,
        memory: &mut PhysicalMemory,
        allocator: &mut FrameAllocator,
    ) -> (r: MemoryResult<PhysicalPageNumber>)
        requires
            old(self).wf(old(memory), old(allocator)),
            0 <= a < 512,
            b < 512,
            table1(old(memory), old(self).spec_root(), a) == Some(middle),
        ensures
            final(self).wf(final(memory), final(allocator)),
            r is Err <==> table2(old(memory), old(self).spec_root(), a, b as int) is None
                && old(allocator).spec_available() == 0,
            final(self).grown_from(
                old(self),
                old(memory),
                final(memory),
                old(allocator),
                final(allocator),
                if r is Ok && table2(old(memory), old(self).spec_root(), a, b as int) is None {
                    1int
                } else {
                    0int
                },
            ),
            forall|vpn: VirtualPageNumber| #[trigger]
                leaf_of(final(memory), old(self).spec_root(), vpn) == leaf_of(
                    old(memory),
                    old(self).spec_root(),
                    vpn,
                ),
            forall|c: int|
                0 <= c < 512 ==> #[trigger] table1(final(memory), old(self).spec_root(), c)
                    == table1(old(memory), old(self).spec_root(), c),
            forall|c: int, d: int|
                0 <= c < 512 && 0 <= d < 512 && !(c == a && d == b) ==> #[trigger] table2(
                    final(memory),
                    old(self).spec_root(),
                    c,
                    d,
                ) == table2(old(memory), old(self).spec_root(), c, d),
            match r {
                Ok(t) => {
                    &&& table2(final(memory), old(self).spec_root(), a, b as int) == Some(t)
                    &&& t == match table2(old(memory), old(self).spec_root(), a, b as int) {
                        Some(t0) => t0,
                        None => nth_frame(old(allocator), 0),
                    }
                },
                Err(e) => {
                    &&& e == MemoryError::FrameExhausted
                    &&& table2(final(memory), old(self).spec_root(), a, b as int) is None
                },
            },
    {
        let ghost root = self.spec_root();
        let ghost tables = self.tables();
        let ghost m0 = *memory;
        let ghost a0 = *allocator;
        proof {
            allocator.lemma_wf();
            assert(tables.contains(middle));
            assert(stack_after_allocs(a0.stack(), 0) == a0.stack());
            assert(self.tables() =~= tables + Seq::new(0nat, |k: int| nth_frame(&a0, k)));
        }
        let entry = memory.read_entry(middle, b);
        if !entry.is_empty() {
            return Ok(entry.page_number());
        }
        let frame = match allocator.allocate() {
            Ok(frame) => frame,
            Err(e) => {
                return Err(e);
            },
        };
        let ghost fresh = frame.spec_page_number();
        proof {
            lemma_owned_grows(&a0, allocator, tables, self.pairs(), fresh);
        }
        let new_table = PageTableTracker::new(frame, memory);
        let ghost m1 = *memory;
        let new_ppn = new_table.page_number();
        proof {
            lemma_tables_untouched(&m0, &m1, root, tables);
            lemma_pointer(fresh);
            assert(table1(&m1, root, a) == table1(&m0, root, a));
            assert(table2(&m1, root, a, b as int) == table2(&m0, root, a, b as int));
        }
        memory.write_entry(
            middle,
            b,
            PageTableEntry::new(Some(new_ppn), Flags::from_bits(Flags::VALID)),
        );
        self.page_tables.push(new_table);
        proof {
            lemma_attach_below_middle(&m1, memory, root, tables, a, b as int, fresh);
            assert(self.tables() =~= tables.push(fresh));
            assert(stack_after_allocs(a0.stack(), 1) == stack_after_alloc(a0.stack())) by {
                reveal_with_fuel(stack_after_allocs, 2);
            }
            assert(self.tables() =~= tables + Seq::new(1nat, |k: int| nth_frame(&a0, k)));
            assert(self.tables().contains(fresh)) by {
                assert(self.tables()[tables.len() as int] == fresh);
            }
            assert(self.tables().contains(middle)) by {
                let i = choose|i: int| 0 <= i < tables.len() && tables[i] == middle;
                assert(self.tables()[i] == middle);
            }
            assert forall|p: PhysicalPageNumber|
                m0.contains_page(p) && !self.tables().contains(p) implies #[trigger] memory.page(p)
                == m0.page(p) by {
                assert(p != middle && p != fresh);
                assert(m1.page(p) == m0.page(p));
                assert(memory.page(p) == m1.page(p));
            }
            assert forall|vpn: VirtualPageNumber| #[trigger]
                leaf_of(memory, root, vpn) == leaf_of(&m0, root, vpn) by {
                assert(leaf_of(&m1, root, vpn) == leaf_of(&m0, root, vpn));
            }
            assert forall|c: int| 0 <= c < 512 implies #[trigger] table1(memory, root, c) == table1(
                &m0,
                root,
                c,
            ) by {
                assert(table1(&m1, root, c) == table1(&m0, root, c));
            }
            assert forall|c: int, d: int|
                0 <= c < 512 && 0 <= d < 512 && !(c == a && d == b) implies #[trigger] table2(
                memory,
                root,
                c,
                d,
            ) == table2(&m0, root, c, d) by {
                assert(table2(&m1, root, c, d) == table2(&m0, root, c, d));
            }
            assert(table2(memory, root, a, b as int) == Some(fresh));
            let pairs = self.pairs();
            assert forall|i: int| 0 <= i < pairs.len() implies {
                &&& (#[trigger] pairs[i]).0.0 < VPN_LIMIT
                &&& leaf_of(memory, root, pairs[i].0).0 != 0
                &&& leaf_of(memory, root, pairs[i].0).spec_page_number() == pairs[i].1
            } by {
                assert(leaf_of(memory, root, pairs[i].0) == leaf_of(&m0, root, pairs[i].0));
            }
        }
        Ok(new_ppn)
    }

    /// How many frames a walk to the entry of `vpn` takes from the
    /// allocator: one for each missing table, as far as free frames last.
    pub open spec fn walk_cost(
        &self,
        memory: &PhysicalMemory,
        allocator: &FrameAllocator,
        vpn: VirtualPageNumber,
    ) -> int {
        let need = missing_tables(memory, self.spec_root(), vpn);
        if need <= allocator.spec_available() {
            need
        } else {
            allocator.spec_available()
        }
    }

    /// Where a walk to the entry of `vpn` ends, given that the free frames
    /// last: in the third-level table that is there already, or else in the
    /// last of the tables that the walk makes.
    pub open spec fn walk_target(
        &self,
        memory: &PhysicalMemory,
        allocator: &FrameAllocator,
        vpn: VirtualPageNumber,
    ) -> EntrySlot {
        let need = missing_tables(memory, self.spec_root(), vpn);
        EntrySlot {
            table: if need == 0 {
                table2(memory, self.spec_root(), vpn.level(0), vpn.level(1)).unwrap()
            } else {
                nth_frame(allocator, need - 1)
            },
            index: vpn.level(2) as usize,
        }
    }

    /// Finds the entry of page `vpn` in the third-level table, and makes the
    /// tables on the way to it that are missing: each in a fresh frame, all
    /// entries empty, linked from its parent by a pointer entry. The entry
    /// of no page changes.
    ///
    /// Fails with `FrameExhausted` exactly when more tables are missing than
    /// frames are free; the tables made until then stay.
    pub fn find_entry(
        &mut self,
        vpn: VirtualPageNumber,
        memory: &mut PhysicalMemory,
        allocator: &mut FrameAllocator,
    ) -> (r: MemoryResult<EntrySlot>)
        requires
            old(self).wf(old(memory), old(allocator)),
        ensures
            final(self).wf(final(memory), final(allocator)),
            r is Ok <==> missing_tables(old(memory), old(self).spec_root(), vpn)
                <= old(allocator).spec_available(),
            final(self).grown_from(
                old(self),
                old(memory),
                final(memory),
                old(allocator),
                final(allocator),
                old(self).walk_cost(old(memory), old(allocator), vpn),
            ),
            tables_walked(
                old(memory),
                final(memory),
                old(self).spec_root(),
                vpn,
                old(self).walk_cost(old(memory), old(allocator), vpn),
            ),
            forall|v: VirtualPageNumber| #[trigger]
                final(self).leaf(final(memory), v) == old(self).leaf(old(memory), v),
            match r {
                Ok(slot) => {
                    &&& slot == old(self).walk_target(old(memory), old(allocator), vpn)
                    &&& slot_of(final(memory), old(self).spec_root(), vpn) == Some(slot)
                    &&& final(memory).contains_page(slot.table)
                    &&& slot.index < 512
                },
                Err(e) => e == MemoryError::FrameExhausted,
            },
    {
        let ghost root = self.spec_root();
        let ghost m0 = *memory;
        let ghost a0 = *allocator;
        let ghost s0 = *self;
        let ghost a = vpn.level(0);
        let ghost b = vpn.level(1);
        proof {
            allocator.lemma_wf();
            lemma_levels_in_range(vpn);
        }
        let levels = vpn.levels();
        let middle = match self.descend_from_root(levels[0], memory, allocator) {
            Ok(t) => t,
            Err(e) => {
                return Err(e);
            },
        };
        let ghost m1 = *memory;
        let ghost a1 = *allocator;
        let ghost s1 = *self;
        let ghost first: int = if table1(&m0, root, a) is None {
            1
        } else {
            0
        };
        proof {
            a1.lemma_wf();
            assert(table2(&m1, root, a, b) == table2(&m0, root, a, b));
            reveal_with_fuel(stack_after_allocs, 3);
        }
        let r = self.descend_from_middle(Ghost(a), middle, levels[1], memory, allocator);
        proof {
            let second: int = if r is Ok && table2(&m1, root, a, b) is None {
                1
            } else {
                0
            };
            lemma_allocs_compose(a0.stack(), first, second);
            assert(first + second == s0.walk_cost(&m0, &a0, vpn));
            assert(self.tables() =~= s0.tables() + Seq::new(
                (first + second) as nat,
                |k: int| nth_frame(&a0, k),
            )) by {
                if first == 1 && second == 1 {
                    assert(nth_frame(&a1, 0) == nth_frame(&a0, 1));
                }
            }
            assert forall|p: PhysicalPageNumber|
                m0.contains_page(p) && !self.tables().contains(p) implies #[trigger] memory.page(p)
                == m0.page(p) by {
                if s1.tables().contains(p) {
                    let i = choose|i: int| 0 <= i < s1.tables().len() && s1.tables()[i] == p;
                    assert(self.tables()[i] == p);
                }
                assert(m1.page(p) == m0.page(p));
                assert(memory.page(p) == m1.page(p));
            }
            assert forall|v: VirtualPageNumber| #[trigger]
                leaf_of(memory, root, v) == leaf_of(&m0, root, v) by {
                assert(leaf_of(&m1, root, v) == leaf_of(&m0, root, v));
            }
            assert forall|c: int|
                0 <= c < 512 && (c != a || first == 0) implies #[trigger] table1(memory, root, c)
                == table1(&m0, root, c) by {
                assert(table1(&m1, root, c) == table1(&m0, root, c));
            }
            assert forall|c: int, d: int|
                0 <= c < 512 && 0 <= d < 512 && (c != a || d != b || missing_tables(&m0, root, vpn)
                    < 1) implies #[trigger] table2(memory, root, c, d)
                        == table2(&m0, root, c, d) by {
                assert(table2(&m1, root, c, d) == table2(&m0, root, c, d));
            }
            assert(table1(memory, root, a) == table1(&m1, root, a));
        }
        match r {
            Ok(last) => {
                proof {
                    assert(tree_wf(memory, root, self.tables()));
                    assert(table2(memory, root, a, b) == Some(last));
                }
                Ok(EntrySlot { table: last, index: levels[2] })
            },
            Err(e) => Err(e),
        }
    }

    /// The word that makes this mapping the active one when it is written
    /// to the root-table register: the frame of the root table with the mode
    /// tag of the three-level scheme. Writing it, and flushing the
    /// translation cache after that, is for the caller.
    pub fn activate(&self) -> (satp: u64)
        ensures
            satp == satp_of(self.spec_root()),
    {
        self.root_ppn.0 | (SATP_MODE_SV39 << 60)
    }

    /// The entry of page `vpn` as it stands, read without making any table:
    /// the empty entry where a table on the way to it is missing.
    pub fn entry(&self, vpn: VirtualPageNumber, memory: &PhysicalMemory) -> (r: PageTableEntry)
        requires
            self.tree_in(memory),
        ensures
            r == self.leaf(memory, vpn),
    {
        proof {
            lemma_levels_in_range(vpn);
            assert(self.tables().contains(self.spec_root()));
        }
        let levels = vpn.levels();
        let first = memory.read_entry(self.root_ppn, levels[0]);
        if first.is_empty() {
            return PageTableEntry(0);
        }
        proof {
            assert(table1(memory, self.spec_root(), vpn.level(0)) is Some);
        }
        let second = memory.read_entry(first.page_number(), levels[1]);
        if second.is_empty() {
            return PageTableEntry(0);
        }
        proof {
            assert(table2(memory, self.spec_root(), vpn.level(0), vpn.level(1)) is Some);
        }
        memory.read_entry(second.page_number(), levels[2])
    }

    /// Maps page `vpn`: writes an entry with `ppn` and `flags` where the
    /// page has none yet. `VALID` is set exactly when there is a page
    /// number. The tables on the way to the entry that are missing are made
    /// first, as `find_entry` makes them.
    ///
    /// Fails with `FrameExhausted` exactly when more tables are missing than
    /// frames are free; the entry of no page has changed then.
    pub fn map_one(
        &mut self,
        vpn: VirtualPageNumber,
        ppn: Option<PhysicalPageNumber>,
        flags: Flags,
        memory: &mut PhysicalMemory,
        allocator: &mut FrameAllocator,
    ) -> (r: MemoryResult<()>)
        requires
            old(self).wf(old(memory), old(allocator)),
            ppn matches Some(p) ==> p.0 < PPN_LIMIT,
            old(self).leaf(old(memory), vpn).spec_is_empty(),
        ensures
            final(self).wf(final(memory), final(allocator)),
            r is Ok <==> missing_tables(old(memory), old(self).spec_root(), vpn)
                <= old(allocator).spec_available(),
            final(self).grown_from(
                old(self),
                old(memory),
                final(memory),
                old(allocator),
                final(allocator),
                old(self).walk_cost(old(memory), old(allocator), vpn),
            ),
            tables_walked(
                old(memory),
                final(memory),
                old(self).spec_root(),
                vpn,
                old(self).walk_cost(old(memory), old(allocator), vpn),
            ),
            forall|v: VirtualPageNumber| #[trigger]
                final(self).leaf(final(memory), v) == if r is Ok && v.index() == vpn.index() {
                    PageTableEntry::spec_new(ppn, flags)
                } else {
                    old(self).leaf(old(memory), v)
                },
            r matches Err(e) ==> e == MemoryError::FrameExhausted,
            r is Ok && ppn is Some ==> !final(self).leaf(final(memory), vpn).spec_is_empty(),
    {
        let ghost root = self.spec_root();
        let ghost m0 = *memory;
        let slot = match self.find_entry(vpn, memory, allocator) {
            Ok(slot) => slot,
            Err(e) => {
                return Err(e);
            },
        };
        let ghost m1 = *memory;
        let entry = PageTableEntry::new(ppn, flags);
        memory.write_entry(slot.table, slot.index, entry);
        proof {
            lemma_levels_in_range(vpn);
            let a = vpn.level(0);
            let b = vpn.level(1);
            let c = vpn.level(2);
            lemma_leaf_written(&m1, memory, root, self.tables(), a, b, c, entry.0);
            assert(self.tables().contains(slot.table));
            assert forall|p: PhysicalPageNumber|
                m0.contains_page(p) && !self.tables().contains(p) implies #[trigger] memory.page(p)
                == m0.page(p) by {
                assert(m1.page(p) == m0.page(p));
                assert(memory.page(p) == m1.page(p));
            }
            assert forall|v: VirtualPageNumber| #[trigger]
                leaf_of(memory, root, v) == if v.index() == vpn.index() {
                    entry
                } else {
                    leaf_of(&m0, root, v)
                } by {
                lemma_levels_of_index(v);
                lemma_levels_of_index(vpn);
                assert(self.leaf(&m1, v) == old(self).leaf(&m0, v));
            }
            let pairs = self.pairs();
            assert forall|i: int| 0 <= i < pairs.len() implies {
                &&& (#[trigger] pairs[i]).0.0 < VPN_LIMIT
                &&& leaf_of(memory, root, pairs[i].0).0 != 0
                &&& leaf_of(memory, root, pairs[i].0).spec_page_number() == pairs[i].1
            } by {
                if pairs[i].0.index() == vpn.index() {
                    lemma_leaf_by_index(&m0, root, pairs[i].0, vpn);
                }
                assert(self.leaf(&m1, pairs[i].0) == old(self).leaf(&m0, pairs[i].0));
                assert(leaf_of(memory, root, pairs[i].0) == leaf_of(&m0, root, pairs[i].0));
            }
            assert forall|c: int|
                0 <= c < 512 && (c != a || missing_tables(&m0, root, vpn) < 2)
                    implies #[trigger] table1(
                memory,
                root,
                c,
            ) == table1(&m0, root, c) by {
                assert(table1(&m1, root, c) == table1(&m0, root, c));
            }
            assert forall|c: int, d: int|
                0 <= c < 512 && 0 <= d < 512 && (c != a || d != b || missing_tables(&m0, root, vpn)
                    < 1) implies #[trigger] table2(memory, root, c, d)
                        == table2(&m0, root, c, d) by {
                assert(table2(&m1, root, c, d) == table2(&m0, root, c, d));
            }
            assert(table1(memory, root, a) == table1(&m1, root, a));
            assert(table2(memory, root, a, b) == table2(&m1, root, a, b));
        }
        Ok(())
    }

    /// Whether no page of `range` has an entry in this mapping.
    pub open spec fn unmapped(&self, memory: &PhysicalMemory, range: Range<VirtualPageNumber>) -> bool {
        forall|v: VirtualPageNumber|
            range.spec_contains(v) ==> (#[trigger] self.leaf(memory, v)).spec_is_empty()
    }

    /// Whether every page of `range` has an entry in this mapping.
    pub open spec fn mapped(&self, memory: &PhysicalMemory, range: Range<VirtualPageNumber>) -> bool {
        forall|v: VirtualPageNumber|
            range.spec_contains(v) ==> !(#[trigger] self.leaf(memory, v)).spec_is_empty()
    }

    /// Whether this mapping has the tables of `before`, in the same order,
    /// and `count` more after them.
    pub open spec fn extends(&self, before: &Mapping, count: int) -> bool {
        &&& self.spec_root() == before.spec_root()
        &&& count >= 0
        &&& self.tables().len() == before.tables().len() + count
        &&& forall|k: int|
            0 <= k < before.tables().len() ==> #[trigger] self.tables()[k] == before.tables()[k]
    }

    /// Whether every table of this mapping that `before` did not have was a
    /// free frame of `allocator_before`, and no frame is free in
    /// `allocator` that was not free in `allocator_before`.
    pub open spec fn tables_from_free(
        &self,
        before: &Mapping,
        allocator_before: &FrameAllocator,
        allocator: &FrameAllocator,
    ) -> bool {
        &&& forall|p: PhysicalPageNumber|
            self.tables().contains(p) ==> before.tables().contains(p) || allocator_before.is_free(p)
        &&& forall|p: PhysicalPageNumber| #[trigger]
            allocator.is_free(p) ==> allocator_before.is_free(p)
    }

    /// Whether every frame that `allocator` has handed out since
    /// `allocator_before` is a table or the backing of a page that this
    /// mapping has and `before` did not have.
    pub open spec fn frames_accounted(
        &self,
        before: &Mapping,
        allocator_before: &FrameAllocator,
        allocator: &FrameAllocator,
    ) -> bool {
        allocator.spec_available() == allocator_before.spec_available() - (self.tables().len()
            - before.tables().len()) - (self.pairs().len() - before.pairs().len())
    }

    /// How many frames the mapping of the first `count` pages of `segment`
    /// takes from the allocator: one for each table that is missing on the
    /// way to them, and for a frame-backed segment one for each page.
    pub open spec fn frames_for(
        &self,
        memory: &PhysicalMemory,
        segment: &Segment,
        count: int,
    ) -> int {
        tables_needed(
            memory,
            self.spec_root(),
            segment.spec_page_range().start.0 as int,
            count,
        ) + match segment.map_type {
            MapType::Linear => 0,
            MapType::Framed => count,
        }
    }

    /// The entry that page `v` of `segment` gets: the frame of the same
    /// number for a linear segment, the frame recorded for the page for a
    /// frame-backed one, and the flags of the segment.
    pub open spec fn entry_for(
        &self,
        before: &Mapping,
        segment: &Segment,
        v: VirtualPageNumber,
    ) -> PageTableEntry {
        match segment.map_type {
            MapType::Linear => PageTableEntry::spec_new(
                Some(PhysicalPageNumber(v.index() as u64)),
                segment.flags,
            ),
            MapType::Framed => PageTableEntry::spec_new(
                Some(
                    self.pairs()[before.pairs().len() + v.index()
                        - segment.spec_page_range().start.0].1,
                ),
                segment.flags,
            ),
        }
    }

    /// Whether the first `count` pages of `segment` have got their entries
    /// since `before`, and the entry of no other page has changed.
    pub open spec fn mapped_upto(
        &self,
        before: &Mapping,
        memory_before: &PhysicalMemory,
        memory: &PhysicalMemory,
        segment: &Segment,
        count: int,
    ) -> bool {
        forall|v: VirtualPageNumber| #[trigger]
            self.leaf(memory, v) == if segment.spec_page_range().start.0 <= v.index()
                < segment.spec_page_range().start.0 + count {
                self.entry_for(before, segment, v)
            } else {
                before.leaf(memory_before, v)
            }
    }

    /// Whether the free frames last for the first `count` pages of
    /// `segment` and not for one more.
    pub open spec fn stops_at(
        &self,
        memory: &PhysicalMemory,
        allocator: &FrameAllocator,
        segment: &Segment,
        count: int,
    ) -> bool {
        &&& 0 <= count < segment.spec_page_range().spec_len()
        &&& self.frames_for(memory, segment, count) <= allocator.spec_available()
        &&& allocator.spec_available() < self.frames_for(memory, segment, count + 1)
    }

    /// Maps each page of the segment to the frame of the same number.
    fn map_linear(
        &mut self,
        segment: &Segment,
        memory: &mut PhysicalMemory,
        allocator: &mut FrameAllocator,
    ) -> (r: MemoryResult<()>)
        requires
            old(self).wf(old(memory), old(allocator)),
            segment.wf(),
            segment.map_type == MapType::Linear,
            old(self).unmapped(old(memory), segment.spec_page_range()),
        ensures
            final(self).wf(final(memory), final(allocator)),
            final(self).pairs() == old(self).pairs(),
            final(self).tables_from_free(old(self), old(allocator), final(allocator)),
            final(self).frames_accounted(old(self), old(allocator), final(allocator)),
            final(allocator).spec_start() == old(allocator).spec_start(),
            final(allocator).spec_capacity() == old(allocator).spec_capacity(),
            old(memory).same_extent(final(memory)),
            forall|p: PhysicalPageNumber|
                old(memory).contains_page(p) && !final(self).tables().contains(p)
                    ==> #[trigger] final(memory).page(p) == old(memory).page(p),
            forall|v: VirtualPageNumber|
                !segment.spec_page_range().spec_contains(VirtualPageNumber(v.index() as u64))
                    ==> #[trigger] final(self).leaf(final(memory), v) == old(self).leaf(
                    old(memory),
                    v,
                ),
            ({
                let range = segment.spec_page_range();
                let needed = tables_needed(
                    old(memory),
                    old(self).spec_root(),
                    range.start.0 as int,
                    range.spec_len(),
                );
                &&& r is Ok <==> needed <= old(allocator).spec_available()
                &&& r is Ok ==> {
                    &&& final(self).extends(old(self), needed)
                    &&& final(allocator).stack() == stack_after_allocs(
                        old(allocator).stack(),
                        needed,
                    )
                    &&& final(allocator).spec_available() == old(allocator).spec_available()
                        - needed
                    &&& forall|v: VirtualPageNumber|
                        range.spec_contains(VirtualPageNumber(v.index() as u64))
                            ==> #[trigger] final(self).leaf(final(memory), v)
                                == PageTableEntry::spec_new(
                            Some(PhysicalPageNumber(v.index() as u64)),
                            segment.flags,
                        )
                }
                &&& r matches Err(e) ==> {
                    &&& e == MemoryError::FrameExhausted
                    &&& final(allocator).spec_available() == 0
                    &&& final(self).extends(
                        old(self),
                        final(self).tables().len() - old(self).tables().len(),
                    )
                    &&& exists|k: int|
                        old(self).stops_at(old(memory), old(allocator), segment, k)
                            && final(self).mapped_upto(old(self), old(memory), final(memory), segment, k)
                }
            }),
            r is Ok ==> final(self).mapped_upto(
                old(self),
                old(memory),
                final(memory),
                segment,
                segment.spec_page_range().spec_len(),
            ) && tables_after_pages(
                old(memory),
                final(memory),
                old(self).spec_root(),
                segment.spec_page_range().start.0 as int,
                segment.spec_page_range().end.0 as int,
            ),
    {
        let ghost root = self.spec_root();
        let ghost m0 = *memory;
        let ghost a0 = *allocator;
        let ghost s0 = *self;
        let range = segment.page_range();
        let n = range.len();
        let ghost first = range.start.0 as int;
        let mut i: u64 = 0;
        proof {
            assert(stack_after_allocs(a0.stack(), 0) == a0.stack());
            a0.lemma_wf();
        }
        while i < n
            invariant
                s0 == *old(self),
                m0 == *old(memory),
                a0 == *old(allocator),
                i <= n,
                n == range.spec_len(),
                range == segment.spec_page_range(),
                segment.map_type == MapType::Linear,
                first == range.start.0,
                first + n == range.end.0,
                range.end.0 <= VPN_LIMIT,
                self.wf(memory, allocator),
                s0.wf(&m0, &a0),
                s0.unmapped(&m0, range),
                root == s0.spec_root(),
                self.pairs() == s0.pairs(),
                self.tables_from_free(&s0, &a0, allocator),
                self.extends(&s0, tables_needed(&m0, root, first, i as int)),
                allocator.spec_start() == a0.spec_start(),
                allocator.spec_capacity() == a0.spec_capacity(),
                tables_needed(&m0, root, first, i as int) <= a0.spec_available(),
                allocator.stack() == stack_after_allocs(
                    a0.stack(),
                    tables_needed(&m0, root, first, i as int),
                ),
                allocator.spec_available() == a0.spec_available() - tables_needed(
                    &m0,
                    root,
                    first,
                    i as int,
                ),
                tables_after_pages(&m0, memory, root, first, first + i),
                m0.same_extent(memory),
                forall|p: PhysicalPageNumber|
                    m0.contains_page(p) && !self.tables().contains(p) ==> #[trigger] memory.page(p)
                        == m0.page(p),
                forall|v: VirtualPageNumber| #[trigger]
                    self.leaf(memory, v) == if first <= v.index() < first + i {
                        PageTableEntry::spec_new(
                            Some(PhysicalPageNumber(v.index() as u64)),
                            segment.flags,
                        )
                    } else {
                        s0.leaf(&m0, v)
                    },
            decreases n - i,
        {
            let vpn = range.get(i);
            let ghost m1 = *memory;
            let ghost a1 = *allocator;
            let ghost s1 = *self;
            let ghost used = tables_needed(&m0, root, first, i as int);
            proof {
                lemma_levels_of_index(vpn);
                lemma_page_cost(&m0, &m1, root, first, vpn);
                assert(self.leaf(memory, vpn) == s0.leaf(&m0, vpn));
                lemma_tables_needed_grows(&m0, root, first, i as int, i as int);
                lemma_tables_needed_grows(&m0, root, first, i as int + 1, n as int);
            }
            let r = self.map_one(
                vpn,
                Some(PhysicalPageNumber(vpn.0)),
                segment.flags,
                memory,
                allocator,
            );
            proof {
                let need = missing_tables(&m1, root, vpn);
                let got = s1.walk_cost(&m1, &a1, vpn);
                assert(tables_needed(&m0, root, first, i as int + 1) == used + need);
                assert(self.extends(&s0, used + got)) by {
                    assert forall|k: int| 0 <= k < s0.tables().len()
                        implies #[trigger] self.tables()[k]
                        == s0.tables()[k] by {
                        assert(s1.tables()[k] == s0.tables()[k]);
                    }
                }
                assert(self.tables_from_free(&s0, &a0, allocator)) by {
                    assert forall|p: PhysicalPageNumber| self.tables().contains(p)
                        implies s0.tables().contains(
                        p,
                    ) || a0.is_free(p) by {
                        if !s1.tables().contains(p) {
                            assert(a1.is_free(p));
                        }
                    }
                    assert forall|p: PhysicalPageNumber| #[trigger] allocator.is_free(p)
                        implies a0.is_free(
                        p,
                    ) by {
                        assert(a1.is_free(p));
                    }
                }
                assert forall|p: PhysicalPageNumber|
                    m0.contains_page(p) && !self.tables().contains(p)
                        implies #[trigger] memory.page(
                    p,
                ) == m0.page(p) by {
                    if s1.tables().contains(p) {
                        let k = choose|k: int| 0 <= k < s1.tables().len() && s1.tables()[k] == p;
                        assert(self.tables()[k] == p);
                    }
                    assert(m1.page(p) == m0.page(p));
                }
                assert forall|v: VirtualPageNumber|
                    !range.spec_contains(
                        VirtualPageNumber(v.index() as u64),
                    ) implies #[trigger] self.leaf(memory, v) == s0.leaf(&m0, v) by {
                    lemma_levels_of_index(v);
                    assert(s1.leaf(&m1, v) == s0.leaf(&m0, v));
                }
                if r is Ok {
                    lemma_allocs_compose(a0.stack(), used, need);
                    lemma_page_mapped(&m0, &m1, memory, root, first, vpn);
                    assert forall|v: VirtualPageNumber| #[trigger]
                        self.leaf(memory, v) == if first <= v.index() < first + i + 1 {
                            PageTableEntry::spec_new(
                                Some(PhysicalPageNumber(v.index() as u64)),
                                segment.flags,
                            )
                        } else {
                            s0.leaf(&m0, v)
                        } by {
                        lemma_levels_of_index(v);
                        assert(s1.leaf(&m1, v) == if first <= v.index() < first + i {
                            PageTableEntry::spec_new(
                                Some(PhysicalPageNumber(v.index() as u64)),
                                segment.flags,
                            )
                        } else {
                            s0.leaf(&m0, v)
                        });
                    }
                }
            }
            match r {
                Ok(()) => {},
                Err(e) => {
                    proof {
                        assert(s0.stops_at(&m0, &a0, segment, i as int));
                        assert(self.mapped_upto(&s0, &m0, memory, segment, i as int)) by {
                            assert forall|v: VirtualPageNumber| #[trigger]
                                self.leaf(memory, v) == if first <= v.index() < first + i {
                                    self.entry_for(&s0, segment, v)
                                } else {
                                    s0.leaf(&m0, v)
                                } by {
                                assert(s1.leaf(&m1, v) == if first <= v.index() < first + i {
                                    PageTableEntry::spec_new(
                                        Some(PhysicalPageNumber(v.index() as u64)),
                                        segment.flags,
                                    )
                                } else {
                                    s0.leaf(&m0, v)
                                });
                            }
                        }
                    }
                    return Err(e);
                },
            }
            i += 1;
        }
        proof {
            assert forall|v: VirtualPageNumber|
                range.spec_contains(
                    VirtualPageNumber(v.index() as u64),
                ) implies #[trigger] self.leaf(memory, v) == PageTableEntry::spec_new(
                Some(PhysicalPageNumber(v.index() as u64)),
                segment.flags,
            ) by {
                lemma_levels_of_index(v);
            }
            assert forall|v: VirtualPageNumber|
                !range.spec_contains(
                    VirtualPageNumber(v.index() as u64),
                ) implies #[trigger] self.leaf(memory, v) == s0.leaf(&m0, v) by {
                lemma_levels_of_index(v);
            }
        }
        Ok(())
    }

    /// Whether this mapping records the pages that `before` records, in the
    /// same order, and `count` more after them.
    pub open spec fn records_more(&self, before: &Mapping, count: int) -> bool {
        &&& count >= 0
        &&& self.pairs().len() == before.pairs().len() + count
        &&& forall|k: int|
            0 <= k < before.pairs().len() ==> #[trigger] self.pairs()[k] == before.pairs()[k]
    }

    /// Whether the last `count` recorded pages are the pages from `first`
    /// on, each with the frame that the allocator handed out for it and
    /// with the content that `segment` and `data` give it.
    pub open spec fn framed_pages(
        &self,
        memory_before: &PhysicalMemory,
        memory: &PhysicalMemory,
        allocator_before: &FrameAllocator,
        segment: &Segment,
        data: Seq<u8>,
        first: int,
        count: int,
    ) -> bool {
        let base = self.pairs().len() - count;
        forall|j: int|
            base <= j < self.pairs().len() ==> {
                &&& (#[trigger] self.pairs()[j]).0 == VirtualPageNumber((first + j - base) as u64)
                &&& self.pairs()[j].1 == nth_frame(
                    allocator_before,
                    j - base + tables_needed(memory_before, self.spec_root(), first, j - base),
                )
                &&& memory.page(self.pairs()[j].1) == page_image(
                    segment,
                    data,
                    VirtualPageNumber((first + j - base) as u64),
                )
            }
    }

    /// Maps one page of a frame-backed segment: takes a frame, maps the page
    /// to it, fills the frame with the page's part of the initial data and
    /// records the pair. Where the tables for the page cannot be made, the
    /// frame goes back to the allocator.
    fn map_framed_page(
        &mut self,
        segment: &Segment,
        init_data: Option<&[u8]>,
        vpn: VirtualPageNumber,
        memory: &mut PhysicalMemory,
        allocator: &mut FrameAllocator,
    ) -> (r: MemoryResult<()>)
        requires
            old(self).wf(old(memory), old(allocator)),
            segment.wf(),
            segment.spec_page_range().spec_contains(vpn),
            old(self).leaf(old(memory), vpn).spec_is_empty(),
            data_of(init_data).len() == 0 || data_of(init_data).len() >= segment.range.spec_len(),
        ensures
            final(self).wf(final(memory), final(allocator)),
            final(allocator).spec_start() == old(allocator).spec_start(),
            final(allocator).spec_capacity() == old(allocator).spec_capacity(),
            final(self).tables_from_free(old(self), old(allocator), final(allocator)),
            final(self).frames_accounted(old(self), old(allocator), final(allocator)),
            old(memory).same_extent(final(memory)),
            forall|p: PhysicalPageNumber|
                old(memory).contains_page(p) && !final(self).tables().contains(p)
                    && !old(allocator).is_free(p)
                        ==> #[trigger] final(memory).page(p) == old(memory).page(p),
            final(self).extends(old(self), final(self).tables().len() - old(self).tables().len()),
            ({
                let need = missing_tables(old(memory), old(self).spec_root(), vpn);
                let fresh = nth_frame(old(allocator), 0);
                &&& r is Ok <==> 1 + need <= old(allocator).spec_available()
                &&& r is Ok ==> {
                    &&& final(self).tables().len() == old(self).tables().len() + need
                    &&& final(self).pairs() == old(self).pairs().push((vpn, fresh))
                    &&& final(allocator).stack() == stack_after_allocs(
                        old(allocator).stack(),
                        1 + need,
                    )
                    &&& final(allocator).spec_available() == old(allocator).spec_available() - 1
                        - need
                    &&& old(allocator).is_free(fresh)
                    &&& final(memory).page(fresh) == page_image(segment, data_of(init_data), vpn)
                    &&& tables_walked(old(memory), final(memory), old(self).spec_root(), vpn, need)
                    &&& forall|v: VirtualPageNumber| #[trigger]
                        final(self).leaf(final(memory), v) == if v.index() == vpn.index() {
                            PageTableEntry::spec_new(Some(fresh), segment.flags)
                        } else {
                            old(self).leaf(old(memory), v)
                        }
                }
                &&& r matches Err(e) ==> {
                    &&& e == MemoryError::FrameExhausted
                    &&& final(allocator).spec_available() <= 1
                    &&& final(self).pairs() == old(self).pairs()
                    &&& forall|v: VirtualPageNumber| #[trigger]
                        final(self).leaf(final(memory), v) == old(self).leaf(old(memory), v)
                }
            }),
    {
        let ghost root = self.spec_root();
        let ghost m1 = *memory;
        let ghost a1 = *allocator;
        let ghost s1 = *self;
        proof {
            a1.lemma_wf();
            assert(s1.extends(&s1, 0));
        }
        let page = page_data(segment, init_data, vpn);
        let frame = match allocator.allocate() {
            Ok(frame) => frame,
            Err(e) => {
                return Err(e);
            },
        };
        let ghost fresh = frame.spec_page_number();
        let ghost a2 = *allocator;
        proof {
            lemma_owned_grows(&a1, &a2, s1.tables(), s1.pairs(), fresh);
            assert(stack_after_allocs(a1.stack(), 0) == a1.stack());
            assert(fresh == nth_frame(&a1, 0));
            a2.lemma_wf();
        }
        let r = self.map_one(vpn, Some(frame.page_number()), segment.flags, memory, allocator);
        let ghost m3 = *memory;
        let ghost a3 = *allocator;
        let ghost s3 = *self;
        let ghost need = missing_tables(&m1, root, vpn);
        proof {
            assert(stack_after_allocs(a1.stack(), 1) == stack_after_alloc(a1.stack())) by {
                reveal_with_fuel(stack_after_allocs, 2);
            }
            assert(!s3.tables().contains(fresh)) by {
                if s3.tables().contains(fresh) {
                    assert(s1.tables().contains(fresh) || a2.is_free(fresh));
                }
            }
            assert(a3.is_allocated(fresh)) by {
                if a3.is_free(fresh) {
                    assert(a2.is_free(fresh));
                }
            }
            assert forall|p: PhysicalPageNumber| #[trigger] a3.is_free(p) implies a1.is_free(p) by {
                assert(a2.is_free(p));
            }
            assert(s3.extends(&s1, s3.tables().len() - s1.tables().len()));
        }
        match r {
            Ok(()) => {},
            Err(e) => {
                allocator.deallocate(frame);
                proof {
                    assert(owned_wf(allocator, self.tables(), self.pairs())) by {
                        assert forall|k: int|
                            0 <= k < self.tables().len() implies allocator.is_allocated(
                            #[trigger] self.tables()[k],
                        ) by {
                            assert(self.tables().contains(self.tables()[k]));
                            assert(a3.is_allocated(self.tables()[k]));
                            assert(!a3.is_free(self.tables()[k]));
                            assert(!allocator.is_free(self.tables()[k]));
                        }
                        assert forall|k: int|
                            0 <= k < self.pairs().len() implies allocator.is_allocated(
                            (#[trigger] self.pairs()[k]).1,
                        ) by {
                            assert(a3.is_allocated(self.pairs()[k].1));
                            assert(!a3.is_free(self.pairs()[k].1));
                            assert(!allocator.is_free(self.pairs()[k].1));
                        }
                    }
                    assert forall|p: PhysicalPageNumber| #[trigger]
                        allocator.is_free(p) implies a1.is_free(p) by {
                        if p != fresh {
                            assert(a3.is_free(p));
                        }
                    }
                }
                return Err(e);
            },
        }
        memory.write_page(frame.page_number(), vstd::array::array_as_slice(&page));
        self.mapped_pairs.push_back((vpn, frame));
        proof {
            let pairs = self.pairs();
            assert(pairs =~= s3.pairs().push((vpn, fresh)));
            lemma_tables_untouched(&m3, memory, root, s3.tables());
            lemma_owned_pair_added(&a3, s3.tables(), s3.pairs(), vpn, fresh);
            lemma_allocs_compose(a1.stack(), 1, need);
            lemma_new_round_trip(fresh, segment.flags);
            lemma_levels_of_index(vpn);
            assert(s3.leaf(&m3, vpn) == PageTableEntry::spec_new(Some(fresh), segment.flags));
            assert forall|k: int| 0 <= k < pairs.len() implies {
                &&& (#[trigger] pairs[k]).0.0 < VPN_LIMIT
                &&& leaf_of(memory, root, pairs[k].0).0 != 0
                &&& leaf_of(memory, root, pairs[k].0).spec_page_number() == pairs[k].1
            } by {
                assert(leaf_of(memory, root, pairs[k].0) == leaf_of(&m3, root, pairs[k].0));
                if k < s3.pairs().len() {
                    assert(pairs[k] == s3.pairs()[k]);
                }
            }
            assert forall|p: PhysicalPageNumber|
                m1.contains_page(p) && !self.tables().contains(p) && !a1.is_free(
                    p,
                ) implies #[trigger] memory.page(p) == m1.page(p) by {
                assert(m3.page(p) == m1.page(p));
            }
            assert forall|v: VirtualPageNumber| #[trigger]
                self.leaf(memory, v) == if v.index() == vpn.index() {
                    PageTableEntry::spec_new(Some(fresh), segment.flags)
                } else {
                    s1.leaf(&m1, v)
                } by {
                assert(leaf_of(memory, root, v) == leaf_of(&m3, root, v));
                assert(s3.leaf(&m3, v) == if v.index() == vpn.index() {
                    PageTableEntry::spec_new(Some(fresh), segment.flags)
                } else {
                    s1.leaf(&m1, v)
                });
            }
            assert(tables_walked(&m1, memory, root, vpn, need)) by {
                assert forall|c: int|
                    0 <= c < 512 && (c != vpn.level(0) || need < 2) implies #[trigger] table1(
                    memory,
                    root,
                    c,
                ) == table1(&m1, root, c) by {
                    assert(table1(memory, root, c) == table1(&m3, root, c));
                }
                assert forall|c: int, d: int|
                    0 <= c < 512 && 0 <= d < 512 && (c != vpn.level(0) || d != vpn.level(1) || need
                        < 1) implies #[trigger] table2(memory, root, c, d) == table2(
                    &m1,
                    root,
                    c,
                    d,
                ) by {
                    assert(table2(memory, root, c, d) == table2(&m3, root, c, d));
                }
                lemma_levels_in_range(vpn);
                assert(table1(memory, root, vpn.level(0)) == table1(&m3, root, vpn.level(0)));
                assert(table2(memory, root, vpn.level(0), vpn.level(1)) == table2(
                    &m3,
                    root,
                    vpn.level(0),
                    vpn.level(1),
                ));
            }
        }
        Ok(())
    }

    /// Maps each page of the segment to a fresh frame that holds the page's
    /// part of the initial data.
    fn map_framed(
        &mut self,
        segment: &Segment,
        init_data: Option<&[u8]>,
        memory: &mut PhysicalMemory,
        allocator: &mut FrameAllocator,
    ) -> (r: MemoryResult<()>)
        requires
            old(self).wf(old(memory), old(allocator)),
            segment.wf(),
            segment.map_type == MapType::Framed,
            old(self).unmapped(old(memory), segment.spec_page_range()),
            data_of(init_data).len() == 0 || data_of(init_data).len() >= segment.range.spec_len(),
        ensures
            final(self).wf(final(memory), final(allocator)),
            final(self).tables_from_free(old(self), old(allocator), final(allocator)),
            final(self).frames_accounted(old(self), old(allocator), final(allocator)),
            final(allocator).spec_start() == old(allocator).spec_start(),
            final(allocator).spec_capacity() == old(allocator).spec_capacity(),
            old(memory).same_extent(final(memory)),
            forall|p: PhysicalPageNumber|
                old(memory).contains_page(p) && !final(self).tables().contains(p)
                    && !old(allocator).is_free(p)
                        ==> #[trigger] final(memory).page(p) == old(memory).page(p),
            forall|v: VirtualPageNumber|
                !segment.spec_page_range().spec_contains(VirtualPageNumber(v.index() as u64))
                    ==> #[trigger] final(self).leaf(final(memory), v) == old(self).leaf(
                    old(memory),
                    v,
                ),
            final(self).extends(old(self), final(self).tables().len() - old(self).tables().len()),
            final(self).records_more(old(self), final(self).pairs().len()
                - old(self).pairs().len()),
            ({
                let range = segment.spec_page_range();
                let first = range.start.0 as int;
                let count = range.spec_len();
                let tables = tables_needed(old(memory), old(self).spec_root(), first, count);
                &&& r is Ok <==> count + tables <= old(allocator).spec_available()
                &&& r is Ok ==> {
                    &&& final(self).tables().len() == old(self).tables().len() + tables
                    &&& final(self).pairs().len() == old(self).pairs().len() + count
                    &&& final(allocator).stack() == stack_after_allocs(
                        old(allocator).stack(),
                        count + tables,
                    )
                    &&& final(allocator).spec_available() == old(allocator).spec_available() - (
                    count + tables)
                    &&& final(self).framed_pages(
                        old(memory),
                        final(memory),
                        old(allocator),
                        segment,
                        data_of(init_data),
                        first,
                        count,
                    )
                    &&& forall|v: VirtualPageNumber|
                        range.spec_contains(VirtualPageNumber(v.index() as u64))
                            ==> #[trigger] final(self).leaf(final(memory), v)
                                == PageTableEntry::spec_new(
                            Some(final(self).pairs()[old(self).pairs().len()
                                + v.index() - first].1),
                            segment.flags,
                        )
                }
                &&& r matches Err(e) ==> {
                    &&& e == MemoryError::FrameExhausted
                    &&& final(allocator).spec_available() <= 1
                    &&& exists|k: int|
                        {
                            &&& old(self).stops_at(old(memory), old(allocator), segment, k)
                            &&& final(self).mapped_upto(
                                old(self),
                                old(memory),
                                final(memory),
                                segment,
                                k,
                            )
                            &&& final(self).pairs().len() == old(self).pairs().len() + k
                            &&& final(self).framed_pages(
                                old(memory),
                                final(memory),
                                old(allocator),
                                segment,
                                data_of(init_data),
                                first,
                                k,
                            )
                        }
                }
            }),
            r is Ok ==> final(self).mapped_upto(
                old(self),
                old(memory),
                final(memory),
                segment,
                segment.spec_page_range().spec_len(),
            ) && tables_after_pages(
                old(memory),
                final(memory),
                old(self).spec_root(),
                segment.spec_page_range().start.0 as int,
                segment.spec_page_range().end.0 as int,
            ),
    {
        let ghost root = self.spec_root();
        let ghost m0 = *memory;
        let ghost a0 = *allocator;
        let ghost s0 = *self;
        let ghost data = data_of(init_data);
        let ghost base = s0.pairs().len() as int;
        let range = segment.page_range();
        let n = range.len();
        let ghost first = range.start.0 as int;
        let mut i: u64 = 0;
        proof {
            assert(stack_after_allocs(a0.stack(), 0) == a0.stack());
            a0.lemma_wf();
        }
        while i < n
            invariant
                s0 == *old(self),
                m0 == *old(memory),
                a0 == *old(allocator),
                data == data_of(init_data),
                data.len() == 0 || data.len() >= segment.range.spec_len(),
                base == s0.pairs().len(),
                i <= n,
                n == range.spec_len(),
                range == segment.spec_page_range(),
                segment.wf(),
                segment.map_type == MapType::Framed,
                first == range.start.0,
                first + n == range.end.0,
                range.end.0 <= VPN_LIMIT,
                self.wf(memory, allocator),
                s0.wf(&m0, &a0),
                s0.unmapped(&m0, range),
                root == s0.spec_root(),
                self.extends(&s0, tables_needed(&m0, root, first, i as int)),
                self.records_more(&s0, i as int),
                allocator.spec_start() == a0.spec_start(),
                allocator.spec_capacity() == a0.spec_capacity(),
                i + tables_needed(&m0, root, first, i as int) <= a0.spec_available(),
                allocator.stack() == stack_after_allocs(
                    a0.stack(),
                    i + tables_needed(&m0, root, first, i as int),
                ),
                allocator.spec_available() == a0.spec_available() - (i + tables_needed(
                    &m0,
                    root,
                    first,
                    i as int,
                )),
                self.tables_from_free(&s0, &a0, allocator),
                tables_after_pages(&m0, memory, root, first, first + i),
                m0.same_extent(memory),
                forall|p: PhysicalPageNumber|
                    m0.contains_page(p) && !self.tables().contains(p) && !a0.is_free(p)
                        ==> #[trigger] memory.page(p) == m0.page(p),
                self.framed_pages(&m0, memory, &a0, segment, data, first, i as int),
                forall|v: VirtualPageNumber| #[trigger]
                    self.leaf(memory, v) == if first <= v.index() < first + i {
                        PageTableEntry::spec_new(
                            Some(self.pairs()[base + v.index() - first].1),
                            segment.flags,
                        )
                    } else {
                        s0.leaf(&m0, v)
                    },
            decreases n - i,
        {
            let vpn = range.get(i);
            let ghost m1 = *memory;
            let ghost a1 = *allocator;
            let ghost s1 = *self;
            let ghost used = i + tables_needed(&m0, root, first, i as int);
            let ghost need = missing_tables(&m1, root, vpn);
            proof {
                lemma_levels_of_index(vpn);
                lemma_page_cost(&m0, &m1, root, first, vpn);
                assert(self.leaf(memory, vpn) == s0.leaf(&m0, vpn));
                lemma_tables_needed_grows(&m0, root, first, i as int, i as int);
                lemma_tables_needed_grows(&m0, root, first, i as int + 1, n as int);
                assert(tables_needed(&m0, root, first, i as int + 1) == tables_needed(
                    &m0,
                    root,
                    first,
                    i as int,
                ) + need);
                a1.lemma_wf();
            }
            let r = self.map_framed_page(segment, init_data, vpn, memory, allocator);
            proof {
                Self::lemma_step_frames(&s0, &s1, self, &m0, &m1, memory, &a0, &a1, allocator);
                assert forall|v: VirtualPageNumber|
                    !range.spec_contains(
                        VirtualPageNumber(v.index() as u64),
                    ) implies #[trigger] self.leaf(memory, v) == s0.leaf(&m0, v) by {
                    lemma_levels_of_index(v);
                    assert(s1.leaf(&m1, v) == s0.leaf(&m0, v));
                }
            }
            match r {
                Ok(()) => {},
                Err(e) => {
                    proof {
                        assert(s0.stops_at(&m0, &a0, segment, i as int));
                        assert(self.mapped_upto(&s0, &m0, memory, segment, i as int)) by {
                            assert forall|v: VirtualPageNumber| #[trigger]
                                self.leaf(memory, v) == if first <= v.index() < first + i {
                                    self.entry_for(&s0, segment, v)
                                } else {
                                    s0.leaf(&m0, v)
                                } by {
                                assert(s1.leaf(&m1, v) == if first <= v.index() < first + i {
                                    PageTableEntry::spec_new(
                                        Some(s1.pairs()[base + v.index() - first].1),
                                        segment.flags,
                                    )
                                } else {
                                    s0.leaf(&m0, v)
                                });
                            }
                        }
                        assert(self.framed_pages(&m0, memory, &a0, segment, data, first, i as int)) by {
                            s1.lemma_wf(&m1, &a1);
                            self.lemma_wf(memory, allocator);
                            assert forall|j: int| base <= j < self.pairs().len() implies {
                                &&& (#[trigger] self.pairs()[j]).0 == VirtualPageNumber(
                                    (first + j - base) as u64,
                                )
                                &&& self.pairs()[j].1 == nth_frame(
                                    &a0,
                                    j - base + tables_needed(&m0, root, first, j - base),
                                )
                                &&& memory.page(self.pairs()[j].1) == page_image(
                                    segment,
                                    data,
                                    VirtualPageNumber((first + j - base) as u64),
                                )
                            } by {
                                let f = s1.pairs()[j].1;
                                assert(a1.is_allocated(f));
                                if self.tables().contains(f) {
                                    let t = choose|t: int|
                                        0 <= t < self.tables().len() && self.tables()[t] == f;
                                    assert(self.tables()[t] != self.pairs()[j].1);
                                }
                                assert(memory.page(f) == m1.page(f));
                            }
                        }
                    }
                    return Err(e);
                },
            }
            proof {
                let fresh = nth_frame(&a1, 0);
                assert(stack_after_allocs(a1.stack(), 0) == a1.stack());
                assert(fresh == nth_frame(&a0, used));
                lemma_allocs_compose(a0.stack(), used, 1 + need);
                lemma_page_mapped(&m0, &m1, memory, root, first, vpn);
                s1.lemma_wf(&m1, &a1);
                self.lemma_wf(memory, allocator);
                assert forall|k: int| 0 <= k < s1.pairs().len() implies m1.contains_page(
                    (#[trigger] s1.pairs()[k]).1,
                ) && !a1.is_free(s1.pairs()[k].1) && !self.tables().contains(s1.pairs()[k].1) by {
                    let f = s1.pairs()[k].1;
                    assert(a1.is_allocated(f));
                    assert(self.pairs()[k] == s1.pairs()[k]);
                    if self.tables().contains(f) {
                        let t = choose|t: int| 0 <= t < self.tables().len()
                            && self.tables()[t] == f;
                        assert(self.tables()[t] != self.pairs()[k].1);
                    }
                }
                Self::lemma_step_pages(
                    &s0,
                    &s1,
                    self,
                    &m0,
                    &m1,
                    memory,
                    &a0,
                    &a1,
                    segment,
                    data,
                    first,
                    i as int,
                    fresh,
                );
                Self::lemma_step_leaves(
                    &s0,
                    &s1,
                    self,
                    &m0,
                    &m1,
                    memory,
                    segment.flags,
                    first,
                    i as int,
                    fresh,
                );
            }
            i += 1;
        }
        proof {
            assert forall|v: VirtualPageNumber|
                range.spec_contains(
                    VirtualPageNumber(v.index() as u64),
                ) implies #[trigger] self.leaf(memory, v) == PageTableEntry::spec_new(
                Some(self.pairs()[base + v.index() - first].1),
                segment.flags,
            ) by {
                lemma_levels_of_index(v);
            }
            assert forall|v: VirtualPageNumber|
                !range.spec_contains(
                    VirtualPageNumber(v.index() as u64),
                ) implies #[trigger] self.leaf(memory, v) == s0.leaf(&m0, v) by {
                lemma_levels_of_index(v);
            }
        }
        Ok(())
    }

    /// How many frames the mapping of `segment` takes from the allocator:
    /// one for each table that is missing on the way to its pages, and for
    /// a frame-backed segment one for each page.
    pub open spec fn frames_needed(&self, memory: &PhysicalMemory, segment: &Segment) -> int {
        self.frames_for(memory, segment, segment.spec_page_range().spec_len())
    }

    /// Whether `init_data` can fill `segment`: for a frame-backed segment it
    /// is empty or covers the whole segment; for a linear one the bytes
    /// from the segment's start on that it is copied to are part of
    /// `memory` and of no frame of the allocator's pool.
    pub open spec fn data_fits(
        memory: &PhysicalMemory,
        allocator: &FrameAllocator,
        segment: &Segment,
        init_data: Option<&[u8]>,
    ) -> bool {
        match segment.map_type {
            MapType::Linear => init_data is Some ==> memory.contains_outside_pool(
                allocator,
                PhysicalAddress(segment.range.start.0),
                data_of(init_data).len() as int,
            ),
            MapType::Framed => data_of(init_data).len() == 0 || data_of(init_data).len()
                >= segment.range.spec_len(),
        }
    }

    /// What `map` does to a mapping, to memory and to the allocator, where
    /// `ok` says whether it succeeded.
    pub open spec fn map_effect(
        &self,
        before: &Mapping,
        memory_before: &PhysicalMemory,
        memory: &PhysicalMemory,
        allocator_before: &FrameAllocator,
        allocator: &FrameAllocator,
        segment: &Segment,
        init_data: Option<&[u8]>,
        ok: bool,
    ) -> bool {
        let range = segment.spec_page_range();
        let first = range.start.0 as int;
        let count = range.spec_len();
        &&& allocator.spec_start() == allocator_before.spec_start()
        &&& allocator.spec_capacity() == allocator_before.spec_capacity()
        &&& memory_before.same_extent(memory)
        &&& self.tables_from_free(before, allocator_before, allocator)
        &&& self.frames_accounted(before, allocator_before, allocator)
        &&& self.extends(before, self.tables().len() - before.tables().len())
        &&& self.records_more(before, self.pairs().len() - before.pairs().len())
        &&& forall|v: VirtualPageNumber|
            !range.spec_contains(VirtualPageNumber(v.index() as u64)) ==> #[trigger] self.leaf(
                memory,
                v,
            ) == before.leaf(memory_before, v)
        &&& ok ==> {
            &&& self.mapped_upto(before, memory_before, memory, segment, count)
            &&& tables_after_pages(memory_before, memory, before.spec_root(), first, first + count)
            &&& allocator.stack() == stack_after_allocs(
                allocator_before.stack(),
                before.frames_needed(memory_before, segment),
            )
            &&& allocator.spec_available() == allocator_before.spec_available()
                - before.frames_needed(memory_before, segment)
            &&& self.tables().len() == before.tables().len() + tables_needed(
                memory_before,
                before.spec_root(),
                first,
                count,
            )
        }
        &&& !ok ==> exists|k: int|
            {
                &&& before.stops_at(memory_before, allocator_before, segment, k)
                &&& self.mapped_upto(before, memory_before, memory, segment, k)
                &&& segment.map_type == MapType::Framed ==> self.pairs().len()
                    == before.pairs().len() + k && self.framed_pages(
                    memory_before,
                    memory,
                    allocator_before,
                    segment,
                    data_of(init_data),
                    first,
                    k,
                )
            }
        &&& match segment.map_type {
            MapType::Linear => {
                &&& self.pairs() == before.pairs()
                &&& !ok ==> allocator.spec_available() == 0
                &&& forall|p: PhysicalPageNumber|
                    memory_before.contains_page(p) && !self.tables().contains(p)
                        ==> #[trigger] memory.page(p) == if ok && init_data is Some {
                        memory_before.page_after_write(
                            p,
                            PhysicalAddress(segment.range.start.0),
                            data_of(init_data),
                        )
                    } else {
                        memory_before.page(p)
                    }
            },
            MapType::Framed => {
                &&& !ok ==> allocator.spec_available() <= 1
                &&& ok ==> self.pairs().len() == before.pairs().len() + count
                    && self.framed_pages(
                    memory_before,
                    memory,
                    allocator_before,
                    segment,
                    data_of(init_data),
                    first,
                    count,
                )
                &&& forall|p: PhysicalPageNumber|
                    memory_before.contains_page(p) && !self.tables().contains(p)
                        && !allocator_before.is_free(p) ==> #[trigger] memory.page(p)
                        == memory_before.page(p)
            },
        }
    }

    /// Maps the pages of `segment`, which have no entry yet, in ascending
    /// order.
    ///
    /// A linear segment maps each page to the frame of the same number; the
    /// initial data, where there is some, is then copied into memory from
    /// the segment's start address on. A frame-backed segment gives each
    /// page a fresh frame, filled with zeroes and with the page's part of
    /// the initial data, and records the page with its frame.
    ///
    /// Fails with `FrameExhausted` exactly when the free frames do not
    /// cover `frames_needed`. The pages mapped until then stay mapped, and
    /// no initial data is copied for a linear segment.
    pub fn map(
        &mut self,
        segment: &Segment,
        init_data: Option<&[u8]>,
        memory: &mut PhysicalMemory,
        allocator: &mut FrameAllocator,
    ) -> (r: MemoryResult<()>)
        requires
            old(self).wf(old(memory), old(allocator)),
            segment.wf(),
            old(self).unmapped(old(memory), segment.spec_page_range()),
            Self::data_fits(old(memory), old(allocator), segment, init_data),
        ensures
            final(self).wf(final(memory), final(allocator)),
            r is Ok <==> old(self).frames_needed(old(memory), segment)
                <= old(allocator).spec_available(),
            r matches Err(e) ==> e == MemoryError::FrameExhausted,
            final(self).map_effect(
                old(self),
                old(memory),
                final(memory),
                old(allocator),
                final(allocator),
                segment,
                init_data,
                r is Ok,
            ),
    {
        let ghost m0 = *memory;
        let ghost s0 = *self;
        match segment.map_type {
            MapType::Linear => {
                let r = self.map_linear(segment, memory, allocator);
                proof {
                    assert(self.records_more(&s0, 0));
                }
                if r.is_err() {
                    return r;
                }
                if let Some(data) = init_data {
                    let ghost m1 = *memory;
                    memory.write_bytes(PhysicalAddress(segment.range.start.0), data);
                    proof {
                        self.lemma_data_copied(
                            &s0,
                            &m0,
                            &m1,
                            memory,
                            allocator,
                            PhysicalAddress(segment.range.start.0),
                            data@,
                        );
                        lemma_pages_untouched(
                            &m0,
                            &m1,
                            memory,
                            self.spec_root(),
                            segment.spec_page_range().start.0 as int,
                            segment.spec_page_range().end.0 as int,
                        );
                        assert forall|v: VirtualPageNumber| #[trigger]
                            self.leaf(memory, v) == if segment.spec_page_range().start.0
                                <= v.index() < segment.spec_page_range().start.0
                                + segment.spec_page_range().spec_len() {
                                self.entry_for(&s0, segment, v)
                            } else {
                                s0.leaf(&m0, v)
                            } by {
                            assert(self.leaf(memory, v) == self.leaf(&m1, v));
                        }
                    }
                }
                Ok(())
            },
            MapType::Framed => self.map_framed(segment, init_data, memory, allocator),
        }
    }

    /// Bytes copied to a place outside the allocator's pool leave the
    /// mapping as it is.
    proof fn lemma_data_copied(
        &self,
        s0: &Mapping,
        m0: &PhysicalMemory,
        m1: &PhysicalMemory,
        m2: &PhysicalMemory,
        allocator: &FrameAllocator,
        address: PhysicalAddress,
        data: Seq<u8>,
    )
        requires
            self.wf(m1, allocator),
            m0.wf(),
            m0.same_extent(m1),
            m1.same_extent(m2),
            m2.wf(),
            m0.contains_outside_pool(allocator, address, data.len() as int),
            m2@ == overwrite(m1@, m1.offset_of(address), data),
            forall|p: PhysicalPageNumber|
                m0.contains_page(p) && !self.tables().contains(p) ==> #[trigger] m1.page(p)
                    == m0.page(p),
        ensures
            self.wf(m2, allocator),
            forall|v: VirtualPageNumber| #[trigger] self.leaf(m2, v) == self.leaf(m1, v),
            forall|a: int|
                0 <= a < 512 ==> #[trigger] table1(m2, self.spec_root(), a) == table1(
                    m1,
                    self.spec_root(),
                    a,
                ),
            forall|a: int, b: int|
                0 <= a < 512 && 0 <= b < 512 ==> #[trigger] table2(m2, self.spec_root(), a, b)
                    == table2(m1, self.spec_root(), a, b),
            forall|p: PhysicalPageNumber|
                m0.contains_page(p) && !self.tables().contains(p) ==> #[trigger] m2.page(p)
                    == m0.page_after_write(p, address, data),
    {
        let root = self.spec_root();
        let tables = self.tables();
        let offset = m1.offset_of(address);
        assert forall|t: PhysicalPageNumber| tables.contains(t) implies #[trigger] m2.page(t)
            == m1.page(t) by {
            let i = choose|i: int| 0 <= i < tables.len() && tables[i] == t;
            assert(allocator.is_allocated(tables[i]));
            assert(m2.page(t) =~= m1.page(t));
        }
        lemma_tables_untouched(m1, m2, root, tables);
        assert forall|i: int| 0 <= i < self.pairs().len() implies {
            &&& (#[trigger] self.pairs()[i]).0.0 < VPN_LIMIT
            &&& leaf_of(m2, root, self.pairs()[i].0).0 != 0
            &&& leaf_of(m2, root, self.pairs()[i].0).spec_page_number() == self.pairs()[i].1
        } by {
            assert(leaf_of(m2, root, self.pairs()[i].0) == leaf_of(m1, root, self.pairs()[i].0));
        }
        assert forall|p: PhysicalPageNumber|
            m0.contains_page(p) && !self.tables().contains(p) implies #[trigger] m2.page(p)
            == m0.page_after_write(p, address, data) by {
            let start = (p.0 - m0.spec_base().0) * 4096;
            let expected = m0.page_after_write(p, address, data);
            assert(m1.page(p) == m0.page(p));
            assert forall|k: int| 0 <= k < 4096 implies m2.page(p)[k] == expected[k] by {
                assert(m1.page(p)[k] == m1@[start + k]);
                assert(m0.page(p)[k] == m0@[start + k]);
            }
            assert(m2.page(p) =~= expected);
        }
    }

    /// Gives the frames of the recorded pages of `range` back to the
    /// allocator and drops their records; the other records keep their
    /// order.
    fn release_pairs(
        &mut self,
        range: Range<VirtualPageNumber>,
        Ghost(memory): Ghost<&PhysicalMemory>,
        allocator: &mut FrameAllocator,
    )
        requires
            old(self).wf(memory, old(allocator)),
        ensures
            final(self).spec_root() == old(self).spec_root(),
            final(self).tables() == old(self).tables(),
            final(self).pairs() == old(self).pairs().filter(kept(range)),
            final(allocator).spec_start() == old(allocator).spec_start(),
            final(allocator).spec_capacity() == old(allocator).spec_capacity(),
            final(allocator).stack() == old(allocator).stack() + old(self).pairs().filter(
                dropped(range),
            ).map_values(freed_interval(old(allocator).spec_start())),
            final(allocator).spec_available()
                == old(allocator).spec_available()
                    + old(self).pairs().len() - final(self).pairs().len(),
            final(allocator).wf(),
            owned_wf(final(allocator), final(self).tables(), final(self).pairs()),
            forall|k: int|
                0 <= k < final(self).pairs().len() ==> old(self).pairs().contains(
                    #[trigger] final(self).pairs()[k],
                ) && !range.spec_contains(final(self).pairs()[k].0),
    {
        let ghost s0 = *self;
        let ghost a0 = *allocator;
        let ghost all = self.pairs();
        let ghost tables = self.tables();
        let ghost start = allocator.spec_start();
        let ghost mut origin: Seq<int> = Seq::empty();
        let n = self.mapped_pairs.len();
        let mut i: usize = 0;
        proof {
            assert(all.take(0) =~= Seq::empty());
            reveal(Seq::filter);
            assert(self.pairs() =~= all.skip(0) + all.take(0).filter(kept(range)));
            assert(allocator.stack() =~= a0.stack() + all.take(0).filter(
                dropped(range),
            ).map_values(freed_interval(start)));
        }
        while i < n
            invariant
                i <= n,
                n == all.len(),
                start == a0.spec_start(),
                owned_wf(&a0, tables, all),
                allocator.wf(),
                allocator.spec_start() == a0.spec_start(),
                allocator.spec_capacity() == a0.spec_capacity(),
                self.root_ppn == s0.root_ppn,
                self.tables() == tables,
                self.pairs() == all.skip(i as int) + all.take(i as int).filter(kept(range)),
                allocator.stack() == a0.stack() + all.take(i as int).filter(
                    dropped(range),
                ).map_values(freed_interval(start)),
                allocator.spec_available() == a0.spec_available() + all.take(i as int).filter(
                    dropped(range),
                ).len(),
                all.take(i as int).filter(kept(range)).len() + all.take(i as int).filter(
                    dropped(range),
                ).len() == i,
                origin.len() == all.take(i as int).filter(kept(range)).len(),
                forall|x: int|
                    0 <= x < origin.len() ==> 0 <= #[trigger] origin[x] < i && all.take(
                        i as int,
                    ).filter(kept(range))[x] == all[origin[x]] && !range.spec_contains(
                        all[origin[x]].0,
                    ),
                forall|x: int, y: int|
                    0 <= x < y < origin.len() ==> #[trigger] origin[x] < #[trigger] origin[y],
                forall|k: int| 0 <= k < tables.len()
                    ==> allocator.is_allocated(#[trigger] tables[k]),
                forall|j: int| i <= j < n ==> allocator.is_allocated((#[trigger] all[j]).1),
                forall|x: int|
                    0 <= x < origin.len() ==> allocator.is_allocated(all[#[trigger] origin[x]].1),
            decreases n - i,
        {
            let ghost seen = all.take(i as int);
            let ghost a1 = *allocator;
            proof {
                assert(all.take(i as int + 1) =~= seen.push(all[i as int]));
                lemma_filter_push(seen, all[i as int], kept(range));
                lemma_filter_push(seen, all[i as int], dropped(range));
                assert(all.skip(i as int).len() == n - i);
                assert(self.pairs().len() == self.mapped_pairs@.len());
                assert(self.pairs()[0] == all.skip(i as int)[0]);
            }
            let ghost before = self.pairs();
            let pair = self.mapped_pairs.pop_front();
            let (vpn, frame) = pair.unwrap();
            proof {
                assert(self.pairs() =~= before.subrange(1, before.len() as int));
                assert(self.pairs() =~= all.skip(i as int + 1) + seen.filter(kept(range)));
                assert((vpn, frame.spec_page_number()) == all[i as int]);
            }
            if range.contains(vpn) {
                allocator.deallocate(frame);
                proof {
                    assert(seen.push(all[i as int]).filter(dropped(range)).map_values(
                        freed_interval(start),
                    ) =~= seen.filter(dropped(range)).map_values(freed_interval(start)).push(
                        freed_interval(start)(all[i as int]),
                    ));
                    assert(allocator.stack() =~= a0.stack() + all.take(i as int + 1).filter(
                        dropped(range),
                    ).map_values(freed_interval(start)));
                    assert forall|k: int| 0 <= k < tables.len() implies allocator.is_allocated(
                        #[trigger] tables[k],
                    ) by {
                        assert(tables[k] != all[i as int].1);
                        assert(a1.is_allocated(tables[k]));
                        assert(!a1.is_free(tables[k]));
                        assert(!allocator.is_free(tables[k]));
                    }
                    assert forall|j: int| i + 1 <= j < n implies allocator.is_allocated(
                        (#[trigger] all[j]).1,
                    ) by {
                        assert(all[i as int].1 != all[j].1);
                        assert(a1.is_allocated(all[j].1));
                        assert(!a1.is_free(all[j].1));
                        assert(!allocator.is_free(all[j].1));
                    }
                    assert forall|x: int| 0 <= x < origin.len() implies allocator.is_allocated(
                        all[#[trigger] origin[x]].1,
                    ) by {
                        assert(all[origin[x]].1 != all[i as int].1);
                        assert(a1.is_allocated(all[origin[x]].1));
                        assert(!a1.is_free(all[origin[x]].1));
                        assert(!allocator.is_free(all[origin[x]].1));
                    }
                }
            } else {
                let ghost mid = self.pairs();
                let ghost number = frame.spec_page_number();
                self.mapped_pairs.push_back((vpn, frame));
                proof {
                    origin = origin.push(i as int);
                    assert(self.pairs() =~= mid.push((vpn, number)));
                    assert(self.pairs() =~= all.skip(i as int + 1) + seen.filter(kept(range)).push(
                        all[i as int],
                    ));
                }
            }
            i += 1;
        }
        proof {
            assert(all.take(n as int) =~= all);
            assert(all.skip(n as int) =~= Seq::empty());
            let pairs = self.pairs();
            assert(pairs =~= all.filter(kept(range)));
            assert forall|k: int| 0 <= k < pairs.len() implies all.contains(#[trigger] pairs[k])
                && !range.spec_contains(pairs[k].0) by {
                assert(pairs[k] == all[origin[k]]);
            }
            assert forall|k: int| 0 <= k < pairs.len() implies allocator.is_allocated(
                (#[trigger] pairs[k]).1,
            ) by {
                assert(pairs[k] == all[origin[k]]);
            }
            assert forall|j: int, k: int| 0 <= j < k < pairs.len() implies (#[trigger] pairs[j]).1
                != (#[trigger] pairs[k]).1 by {
                assert(pairs[j] == all[origin[j]] && pairs[k] == all[origin[k]]);
                assert(origin[j] < origin[k]);
            }
            assert forall|j: int, k: int|
                0 <= j < tables.len() && 0 <= k < pairs.len() implies (#[trigger] tables[j]) != (
            #[trigger] pairs[k]).1 by {
                assert(pairs[k] == all[origin[k]]);
            }
        }
    }

    /// Unmaps the pages of `segment`, all of which have an entry: clears the
    /// entry of each, drops the records of those that are backed by a frame
    /// of their own, and gives those frames back to the allocator in the
    /// order of their records. The page tables stay, also where they are
    /// left without any entry.
    pub fn unmap(
        &mut self,
        segment: &Segment,
        memory: &mut PhysicalMemory,
        allocator: &mut FrameAllocator,
    )
        requires
            old(self).wf(old(memory), old(allocator)),
            segment.wf(),
            old(self).mapped(old(memory), segment.spec_page_range()),
        ensures
            final(self).wf(final(memory), final(allocator)),
            final(self).spec_root() == old(self).spec_root(),
            final(self).tables() == old(self).tables(),
            final(self).pairs() == old(self).pairs().filter(kept(segment.spec_page_range())),
            final(allocator).spec_start() == old(allocator).spec_start(),
            final(allocator).spec_capacity() == old(allocator).spec_capacity(),
            final(allocator).stack() == old(allocator).stack() + old(self).pairs().filter(
                dropped(segment.spec_page_range()),
            ).map_values(freed_interval(old(allocator).spec_start())),
            final(allocator).spec_available()
                == old(allocator).spec_available()
                    + old(self).pairs().len() - final(self).pairs().len(),
            forall|v: VirtualPageNumber| #[trigger]
                final(self).leaf(final(memory), v) == if segment.spec_page_range().spec_contains(
                    VirtualPageNumber(v.index() as u64),
                ) {
                    PageTableEntry(0)
                } else {
                    old(self).leaf(old(memory), v)
                },
            old(memory).same_extent(final(memory)),
            forall|p: PhysicalPageNumber|
                old(memory).contains_page(p) && !final(self).tables().contains(p)
                    ==> #[trigger] final(memory).page(p) == old(memory).page(p),
    {
        let ghost root = self.spec_root();
        let ghost m0 = *memory;
        let ghost s0 = *self;
        let range = segment.page_range();
        self.release_pairs(range, Ghost(&*memory), allocator);
        let ghost a1 = *allocator;
        let ghost s1 = *self;
        proof {
            let pairs = self.pairs();
            assert forall|i: int| 0 <= i < pairs.len() implies {
                &&& (#[trigger] pairs[i]).0.0 < VPN_LIMIT
                &&& leaf_of(memory, root, pairs[i].0).0 != 0
                &&& leaf_of(memory, root, pairs[i].0).spec_page_number() == pairs[i].1
            } by {
                let k = choose|k: int| 0 <= k < s0.pairs().len() && s0.pairs()[k] == pairs[i];
            }
        }
        let n = range.len();
        let ghost first = range.start.0 as int;
        let mut i: u64 = 0;
        while i < n
            invariant
                s0 == *old(self),
                m0 == *old(memory),
                s1.spec_root() == root,
                root == s0.spec_root(),
                i <= n,
                n == range.spec_len(),
                range == segment.spec_page_range(),
                first == range.start.0,
                first + n == range.end.0,
                range.end.0 <= VPN_LIMIT,
                self.wf(memory, allocator),
                s0.mapped(&m0, range),
                self.spec_root() == root,
                self.tables() == s1.tables(),
                self.pairs() == s1.pairs(),
                allocator.same_as(&a1),
                forall|k: int|
                    0 <= k < self.pairs().len() ==> !range.spec_contains(
                        (#[trigger] self.pairs()[k]).0,
                    ),
                m0.same_extent(memory),
                forall|p: PhysicalPageNumber|
                    m0.contains_page(p) && !self.tables().contains(p) ==> #[trigger] memory.page(p)
                        == m0.page(p),
                forall|v: VirtualPageNumber| #[trigger]
                    self.leaf(memory, v) == if first <= v.index() < first + i {
                        PageTableEntry(0)
                    } else {
                        s0.leaf(&m0, v)
                    },
            decreases n - i,
        {
            let vpn = range.get(i);
            let ghost m1 = *memory;
            let ghost a2 = *allocator;
            let ghost s2 = *self;
            proof {
                lemma_levels_of_index(vpn);
                lemma_levels_in_range(vpn);
                assert(self.leaf(memory, vpn) == s0.leaf(&m0, vpn));
                assert(missing_tables(&m1, root, vpn) == 0);
                a2.lemma_wf();
                assert(stack_after_allocs(a2.stack(), 0) == a2.stack());
            }
            let found = self.find_entry(vpn, memory, allocator);
            let slot = found.unwrap();
            let ghost m2 = *memory;
            proof {
                assert(self.tables() =~= s2.tables());
            }
            let mut entry = memory.read_entry(slot.table, slot.index);
            entry.clear();
            memory.write_entry(slot.table, slot.index, entry);
            proof {
                let a = vpn.level(0);
                let b = vpn.level(1);
                let c = vpn.level(2);
                lemma_leaf_written(&m2, memory, root, self.tables(), a, b, c, 0);
                assert(self.tables().contains(slot.table));
                assert forall|p: PhysicalPageNumber|
                    m0.contains_page(p) && !self.tables().contains(
                        p,
                    ) implies #[trigger] memory.page(p) == m0.page(p) by {
                    assert(m1.page(p) == m0.page(p));
                    assert(m2.page(p) == m1.page(p));
                    assert(memory.page(p) == m2.page(p));
                }
                assert forall|v: VirtualPageNumber| #[trigger]
                    self.leaf(memory, v) == if first <= v.index() < first + i + 1 {
                        PageTableEntry(0)
                    } else {
                        s0.leaf(&m0, v)
                    } by {
                    lemma_levels_of_index(v);
                    assert(self.leaf(&m2, v) == s2.leaf(&m1, v));
                    assert(s2.leaf(&m1, v) == if first <= v.index() < first + i {
                        PageTableEntry(0)
                    } else {
                        s0.leaf(&m0, v)
                    });
                }
                let pairs = self.pairs();
                assert forall|k: int| 0 <= k < pairs.len() implies {
                    &&& (#[trigger] pairs[k]).0.0 < VPN_LIMIT
                    &&& leaf_of(memory, root, pairs[k].0).0 != 0
                    &&& leaf_of(memory, root, pairs[k].0).spec_page_number() == pairs[k].1
                } by {
                    lemma_levels_of_index(pairs[k].0);
                    assert(!range.spec_contains(pairs[k].0));
                    assert(self.leaf(&m2, pairs[k].0) == s2.leaf(&m1, pairs[k].0));
                    assert(leaf_of(memory, root, pairs[k].0) == leaf_of(&m2, root, pairs[k].0));
                }
            }
            i += 1;
        }
        proof {
            assert forall|v: VirtualPageNumber| #[trigger]
                self.leaf(memory, v) == if range.spec_contains(
                    VirtualPageNumber(v.index() as u64),
                ) {
                    PageTableEntry(0)
                } else {
                    s0.leaf(&m0, v)
                } by {
                lemma_levels_of_index(v);
            }
        }
    }

    /// Ends the mapping: gives every frame that it owns back to the
    /// allocator, the page tables first, in the order in which they were
    /// made, then the frames of the recorded pages, in the order of their
    /// records. What the tables held is of no concern any more.
    pub fn release(self, allocator: &mut FrameAllocator)
        requires
            self.owned_by(old(allocator)),
        ensures
            final(allocator).wf(),
            final(allocator).spec_start() == old(allocator).spec_start(),
            final(allocator).spec_capacity() == old(allocator).spec_capacity(),
            final(allocator).stack() == old(allocator).stack() + self.tables().map_values(
                frame_interval(old(allocator).spec_start()),
            ) + self.pairs().map_values(freed_interval(old(allocator).spec_start())),
            final(allocator).spec_available() == old(allocator).spec_available()
                + self.tables().len() + self.pairs().len(),
    {
        let ghost a0 = *allocator;
        let ghost tables = self.tables();
        let ghost pairs = self.pairs();
        let ghost start = allocator.spec_start();
        let ghost interval = frame_interval(start);
        let Mapping { page_tables, root_ppn, mapped_pairs } = self;
        let mut page_tables = page_tables;
        let mut mapped_pairs = mapped_pairs;
        let count = page_tables.len();
        let mut i: usize = 0;
        proof {
            assert(allocator.stack() =~= a0.stack() + tables.take(0).map_values(interval));
        }
        while i < count
            invariant
                i <= count,
                count == tables.len(),
                start == a0.spec_start(),
                interval == frame_interval(start),
                owned_wf(&a0, tables, pairs),
                allocator.wf(),
                allocator.spec_start() == a0.spec_start(),
                allocator.spec_capacity() == a0.spec_capacity(),
                page_tables@.map_values(table_frame()) == tables.skip(
                    i as int,
                ),
                mapped_pairs@.map_values(pair_frame()) == pairs,
                allocator.stack() == a0.stack() + tables.take(i as int).map_values(interval),
                allocator.spec_available() == a0.spec_available() + i,
                forall|k: int| i <= k < tables.len()
                    ==> allocator.is_allocated(#[trigger] tables[k]),
                forall|k: int| 0 <= k < pairs.len()
                    ==> allocator.is_allocated((#[trigger] pairs[k]).1),
            decreases count - i,
        {
            let ghost a1 = *allocator;
            let ghost rest = page_tables@.map_values(table_frame());
            proof {
                assert(rest.len() == page_tables@.len());
                assert(rest[0] == tables[i as int]);
            }
            let table = page_tables.remove(0);
            allocator.deallocate(table.0);
            proof {
                assert(page_tables@.map_values(table_frame()) =~= rest.remove(0));
                assert(rest.remove(0) =~= tables.skip(i as int + 1));
                assert(tables.take(i as int + 1) =~= tables.take(i as int).push(tables[i as int]));
                assert(allocator.stack() =~= a0.stack() + tables.take(i as int + 1).map_values(
                    interval,
                ));
                assert forall|k: int| i + 1 <= k < tables.len() implies allocator.is_allocated(
                    #[trigger] tables[k],
                ) by {
                    assert(tables[i as int] != tables[k]);
                    assert(a1.is_allocated(tables[k]));
                    assert(!a1.is_free(tables[k]));
                    assert(!allocator.is_free(tables[k]));
                }
                assert forall|k: int| 0 <= k < pairs.len() implies allocator.is_allocated(
                    (#[trigger] pairs[k]).1,
                ) by {
                    assert(tables[i as int] != pairs[k].1);
                    assert(a1.is_allocated(pairs[k].1));
                    assert(!a1.is_free(pairs[k].1));
                    assert(!allocator.is_free(pairs[k].1));
                }
            }
            i += 1;
        }
        let ghost middle = allocator.stack();
        let records = mapped_pairs.len();
        let mut j: usize = 0;
        proof {
            assert(tables.take(count as int) =~= tables);
            assert(allocator.stack() =~= middle + pairs.take(0).map_values(freed_interval(start)));
        }
        while j < records
            invariant
                j <= records,
                records == pairs.len(),
                start == a0.spec_start(),
                owned_wf(&a0, tables, pairs),
                allocator.wf(),
                allocator.spec_start() == a0.spec_start(),
                allocator.spec_capacity() == a0.spec_capacity(),
                mapped_pairs@.map_values(pair_frame()) == pairs.skip(j as int),
                allocator.stack()
                    == middle + pairs.take(j as int).map_values(freed_interval(start)),
                allocator.spec_available() == a0.spec_available() + tables.len() + j,
                forall|k: int| j <= k < pairs.len()
                    ==> allocator.is_allocated((#[trigger] pairs[k]).1),
            decreases records - j,
        {
            let ghost a1 = *allocator;
            let ghost rest = mapped_pairs@.map_values(pair_frame());
            proof {
                assert(rest.len() == mapped_pairs@.len());
                assert(rest[0] == pairs[j as int]);
            }
            let pair = mapped_pairs.pop_front();
            let (vpn, frame) = pair.unwrap();
            allocator.deallocate(frame);
            proof {
                assert(mapped_pairs@.map_values(pair_frame()) =~= rest.subrange(
                    1,
                    rest.len() as int,
                ));
                assert(rest.subrange(1, rest.len() as int) =~= pairs.skip(j as int + 1));
                assert(pairs.take(j as int + 1) =~= pairs.take(j as int).push(pairs[j as int]));
                assert(allocator.stack() =~= middle + pairs.take(j as int + 1).map_values(
                    freed_interval(start),
                ));
                assert forall|k: int| j + 1 <= k < pairs.len() implies allocator.is_allocated(
                    (#[trigger] pairs[k]).1,
                ) by {
                    assert(pairs[j as int].1 != pairs[k].1);
                    assert(a1.is_allocated(pairs[k].1));
                    assert(!a1.is_free(pairs[k].1));
                    assert(!allocator.is_free(pairs[k].1));
                }
            }
            j += 1;
        }
        proof {
            assert(pairs.take(records as int) =~= pairs);
        }
    }

    /// A step of a loop changes no frame that was in use before the loop and
    /// is no table, frees nothing, and keeps the tables and recorded pages
    /// that were there before the loop.
    proof fn lemma_step_frames(
        s0: &Mapping,
        s1: &Mapping,
        s2: &Mapping,
        m0: &PhysicalMemory,
        m1: &PhysicalMemory,
        m2: &PhysicalMemory,
        a0: &FrameAllocator,
        a1: &FrameAllocator,
        a2: &FrameAllocator,
    )
        requires
            s1.extends(s0, s1.tables().len() - s0.tables().len()),
            s2.extends(s1, s2.tables().len() - s1.tables().len()),
            s1.records_more(s0, s1.pairs().len() - s0.pairs().len()),
            s2.records_more(s1, s2.pairs().len() - s1.pairs().len()),
            s1.tables_from_free(s0, a0, a1),
            s2.tables_from_free(s1, a1, a2),
            m0.same_extent(m1),
            m1.same_extent(m2),
            forall|p: PhysicalPageNumber|
                m0.contains_page(p) && !s1.tables().contains(p) && !a0.is_free(p)
                    ==> #[trigger] m1.page(p) == m0.page(p),
            forall|p: PhysicalPageNumber|
                m1.contains_page(p) && !s2.tables().contains(p) && !a1.is_free(p)
                    ==> #[trigger] m2.page(p) == m1.page(p),
        ensures
            s2.tables_from_free(s0, a0, a2),
            m0.same_extent(m2),
            forall|p: PhysicalPageNumber|
                m0.contains_page(p) && !s2.tables().contains(p) && !a0.is_free(p)
                    ==> #[trigger] m2.page(p) == m0.page(p),
            s2.extends(s0, s2.tables().len() - s0.tables().len()),
            s2.records_more(s0, s2.pairs().len() - s0.pairs().len()),
    {
        assert forall|p: PhysicalPageNumber| #[trigger] a2.is_free(p) implies a0.is_free(p) by {
            assert(a1.is_free(p));
        }
        assert forall|p: PhysicalPageNumber| s2.tables().contains(p) implies s0.tables().contains(
            p,
        ) || a0.is_free(p) by {
            if !s1.tables().contains(p) {
                assert(a1.is_free(p));
            }
        }
        assert forall|p: PhysicalPageNumber|
            m0.contains_page(p) && !s2.tables().contains(p) && !a0.is_free(
                p,
            ) implies #[trigger] m2.page(p) == m0.page(p) by {
            if s1.tables().contains(p) {
                let k = choose|k: int| 0 <= k < s1.tables().len() && s1.tables()[k] == p;
                assert(s2.tables()[k] == p);
            }
            if a1.is_free(p) {
                assert(a0.is_free(p));
            }
            assert(m1.page(p) == m0.page(p));
            assert(m2.page(p) == m1.page(p));
        }
        assert forall|k: int| 0 <= k < s0.tables().len() implies #[trigger] s2.tables()[k]
            == s0.tables()[k] by {
            assert(s1.tables()[k] == s0.tables()[k]);
        }
        assert forall|k: int| 0 <= k < s0.pairs().len() implies #[trigger] s2.pairs()[k]
            == s0.pairs()[k] by {
            assert(s1.pairs()[k] == s0.pairs()[k]);
        }
    }

    /// One more page of a frame-backed segment is mapped: the pages recorded
    /// for the segment are the pages mapped so far, each with its frame and
    /// its content.
    proof fn lemma_step_pages(
        s0: &Mapping,
        s1: &Mapping,
        s2: &Mapping,
        m0: &PhysicalMemory,
        m1: &PhysicalMemory,
        m2: &PhysicalMemory,
        a0: &FrameAllocator,
        a1: &FrameAllocator,
        segment: &Segment,
        data: Seq<u8>,
        first: int,
        i: int,
        fresh: PhysicalPageNumber,
    )
        requires
            0 <= i,
            0 <= first,
            first + i < VPN_LIMIT,
            s0.spec_root() == s1.spec_root(),
            s1.spec_root() == s2.spec_root(),
            s1.pairs().len() == s0.pairs().len() + i,
            forall|k: int|
                0 <= k < s1.pairs().len() ==> m1.contains_page((#[trigger] s1.pairs()[k]).1)
                    && !a1.is_free(s1.pairs()[k].1) && !s2.tables().contains(s1.pairs()[k].1),
            forall|p: PhysicalPageNumber|
                m1.contains_page(p) && !s2.tables().contains(p) && !a1.is_free(p)
                    ==> #[trigger] m2.page(p) == m1.page(p),
            s1.framed_pages(m0, m1, a0, segment, data, first, i),
            s2.pairs() == s1.pairs().push((VirtualPageNumber((first + i) as u64), fresh)),
            fresh == nth_frame(a0, i + tables_needed(m0, s0.spec_root(), first, i)),
            m2.page(fresh) == page_image(segment, data, VirtualPageNumber((first + i) as u64)),
        ensures
            s2.framed_pages(m0, m2, a0, segment, data, first, i + 1),
    {
        let root = s0.spec_root();
        let pairs = s2.pairs();
        let b = pairs.len() - (i + 1);
        assert(b == s1.pairs().len() - i);
        assert forall|j: int| b <= j < pairs.len() implies {
            &&& (#[trigger] pairs[j]).0 == VirtualPageNumber((first + j - b) as u64)
            &&& pairs[j].1 == nth_frame(a0, j - b + tables_needed(m0, root, first, j - b))
            &&& m2.page(pairs[j].1) == page_image(
                segment,
                data,
                VirtualPageNumber((first + j - b) as u64),
            )
        } by {
            if j < pairs.len() - 1 {
                assert(pairs[j] == s1.pairs()[j]);
                let f = s1.pairs()[j].1;
                assert(m2.page(f) == m1.page(f));
            }
        }
    }

    /// One more page of a frame-backed segment is mapped: the pages mapped
    /// so far have the entries of their recorded frames, and all others the
    /// entries they had before.
    proof fn lemma_step_leaves(
        s0: &Mapping,
        s1: &Mapping,
        s2: &Mapping,
        m0: &PhysicalMemory,
        m1: &PhysicalMemory,
        m2: &PhysicalMemory,
        flags: Flags,
        first: int,
        i: int,
        fresh: PhysicalPageNumber,
    )
        requires
            0 <= i,
            0 <= first,
            first + i < VPN_LIMIT,
            s1.pairs().len() == s0.pairs().len() + i,
            s2.pairs() == s1.pairs().push((VirtualPageNumber((first + i) as u64), fresh)),
            forall|v: VirtualPageNumber| #[trigger]
                s1.leaf(m1, v) == if first <= v.index() < first + i {
                    PageTableEntry::spec_new(
                        Some(s1.pairs()[s0.pairs().len() + v.index() - first].1),
                        flags,
                    )
                } else {
                    s0.leaf(m0, v)
                },
            forall|v: VirtualPageNumber| #[trigger]
                s2.leaf(m2, v) == if v.index() == first + i {
                    PageTableEntry::spec_new(Some(fresh), flags)
                } else {
                    s1.leaf(m1, v)
                },
        ensures
            forall|v: VirtualPageNumber| #[trigger]
                s2.leaf(m2, v) == if first <= v.index() < first + i + 1 {
                    PageTableEntry::spec_new(
                        Some(s2.pairs()[s0.pairs().len() + v.index() - first].1),
                        flags,
                    )
                } else {
                    s0.leaf(m0, v)
                },
    {
        let base = s0.pairs().len() as int;
        let pairs = s2.pairs();
        assert forall|v: VirtualPageNumber| #[trigger]
            s2.leaf(m2, v) == if first <= v.index() < first + i + 1 {
                PageTableEntry::spec_new(Some(pairs[base + v.index() - first].1), flags)
            } else {
                s0.leaf(m0, v)
            } by {
            assert(s1.leaf(m1, v) == if first <= v.index() < first + i {
                PageTableEntry::spec_new(Some(s1.pairs()[base + v.index() - first].1), flags)
            } else {
                s0.leaf(m0, v)
            });
            if first <= v.index() < first + i {
                assert(pairs[base + v.index() - first] == s1.pairs()[base + v.index() - first]);
            }
        }
    }
}

/// Once a page is mapped to a frame, a walk to the page needs no new table
/// and ends at an entry that holds that frame and the given flags with
/// `VALID` added; the entry is not empty, so the page cannot be mapped a
/// second time before it is unmapped. The same holds of every page with the
/// same index.
pub proof fn lemma_mapped_entry_is_found(
    memory: &PhysicalMemory,
    root: PhysicalPageNumber,
    vpn: VirtualPageNumber,
    other: VirtualPageNumber,
    ppn: PhysicalPageNumber,
    flags: Flags,
)
    requires
        ppn.0 < PPN_LIMIT,
        leaf_of(memory, root, vpn) == PageTableEntry::spec_new(Some(ppn), flags),
        other.index() == vpn.index(),
    ensures
        missing_tables(memory, root, other) == 0,
        slot_of(memory, root, other) matches Some(slot) && PageTableEntry(
            memory.entry(slot.table, slot.index as int),
        ).spec_page_number() == ppn && PageTableEntry(
            memory.entry(slot.table, slot.index as int),
        ).spec_flags() == flags.spec_union(Flags { bits: Flags::VALID }) && !PageTableEntry(
            memory.entry(slot.table, slot.index as int),
        ).spec_is_empty(),
        !leaf_of(memory, root, other).spec_is_empty(),
{
    lemma_new_round_trip(ppn, flags);
    lemma_leaf_by_index(memory, root, vpn, other);
    lemma_levels_in_range(other);
}

/// Unmapping a frame-backed segment right after it was mapped takes back
/// exactly what the mapping recorded: the records are those from before the
/// mapping, and the allocator gets one frame for each page of the segment.
pub proof fn lemma_unmap_undoes_map(
    before: &Mapping,
    mapped: &Mapping,
    unmapped: &Mapping,
    memory_before: &PhysicalMemory,
    range: Range<VirtualPageNumber>,
    available_mapped: int,
    available_unmapped: int,
)
    requires
        before.tree_in(memory_before),
        before.unmapped(memory_before, range),
        range.start.0 <= range.end.0 <= VPN_LIMIT,
        mapped.records_more(before, range.spec_len()),
        forall|j: int|
            before.pairs().len() <= j < mapped.pairs().len() ==> (#[trigger] mapped.pairs()[j]).0
                == VirtualPageNumber((range.start.0 + j - before.pairs().len()) as u64),
        unmapped.pairs() == mapped.pairs().filter(kept(range)),
        available_unmapped == available_mapped + mapped.pairs().len() - unmapped.pairs().len(),
    ensures
        unmapped.pairs() == before.pairs(),
        available_unmapped == available_mapped + range.spec_len(),
{
    let old_pairs = before.pairs();
    let all = mapped.pairs();
    let base = old_pairs.len() as int;
    let added = all.skip(base);
    assert(all =~= old_pairs + added);
    Seq::filter_distributes_over_add(old_pairs, added, kept(range));
    lemma_filter_all_or_none(old_pairs, kept(range));
    lemma_filter_all_or_none(added, kept(range));
    assert forall|i: int| 0 <= i < old_pairs.len() implies kept(range)(#[trigger] old_pairs[i]) by {
        let v = old_pairs[i].0;
        assert(leaf_of(memory_before, before.spec_root(), v).0 != 0);
        if range.spec_contains(v) {
            assert(before.leaf(memory_before, v).spec_is_empty());
        }
    }
    assert forall|i: int| 0 <= i < added.len() implies !kept(range)(#[trigger] added[i]) by {
        assert(added[i] == all[base + i]);
    }
    assert(old_pairs + added.filter(kept(range)) =~= old_pairs);
}

impl Mapping {
    /// Whether frame `p` is one of the tables of this mapping or backs one
    /// of its recorded pages.
    pub open spec fn owns(&self, p: PhysicalPageNumber) -> bool {
        self.tables().contains(p) || exists|j: int|
            0 <= j < self.pairs().len() && (#[trigger] self.pairs()[j]).1 == p
    }

    /// Whether this mapping and `other` own no frame in common.
    pub open spec fn apart_from(&self, other: &Mapping) -> bool {
        forall|p: PhysicalPageNumber| !(#[trigger] self.owns(p) && other.owns(p))
    }
}

/// A mapping depends on nothing but its own frames: while they stay handed
/// out and keep their content, the mapping stays consistent and no entry of
/// it changes, whatever else happens to memory and to the allocator.
pub proof fn lemma_mapping_untouched(
    mapping: &Mapping,
    m1: &PhysicalMemory,
    m2: &PhysicalMemory,
    a1: &FrameAllocator,
    a2: &FrameAllocator,
)
    requires
        mapping.wf(m1, a1),
        m2.wf(),
        a2.wf(),
        m1.same_extent(m2),
        a2.spec_start() == a1.spec_start(),
        a2.spec_capacity() == a1.spec_capacity(),
        forall|p: PhysicalPageNumber| #[trigger]
            mapping.owns(p) ==> a2.is_allocated(p) && m2.page(p) == m1.page(p),
    ensures
        mapping.wf(m2, a2),
        forall|v: VirtualPageNumber| #[trigger] mapping.leaf(m2, v) == mapping.leaf(m1, v),
{
    let root = mapping.spec_root();
    let tables = mapping.tables();
    let pairs = mapping.pairs();
    assert forall|t: PhysicalPageNumber| tables.contains(t) implies #[trigger] m2.page(t)
        == m1.page(t) by {
        assert(mapping.owns(t));
    }
    lemma_tables_untouched(m1, m2, root, tables);
    assert forall|i: int| 0 <= i < pairs.len() implies {
        &&& (#[trigger] pairs[i]).0.0 < VPN_LIMIT
        &&& leaf_of(m2, root, pairs[i].0).0 != 0
        &&& leaf_of(m2, root, pairs[i].0).spec_page_number() == pairs[i].1
    } by {
        assert(leaf_of(m2, root, pairs[i].0) == leaf_of(m1, root, pairs[i].0));
    }
    assert forall|i: int| 0 <= i < tables.len() implies a2.is_allocated(#[trigger] tables[i]) by {
        assert(tables.contains(tables[i]));
        assert(mapping.owns(tables[i]));
    }
    assert forall|i: int| 0 <= i < pairs.len() implies a2.is_allocated((#[trigger] pairs[i]).1) by {
        assert(mapping.owns(pairs[i].1));
    }
}

/// Address spaces are kept apart: what `map` does to one mapping leaves
/// every mapping that owns none of its frames consistent and changes none
/// of its entries.
pub proof fn lemma_map_leaves_others(
    before: &Mapping,
    after: &Mapping,
    other: &Mapping,
    m1: &PhysicalMemory,
    m2: &PhysicalMemory,
    a1: &FrameAllocator,
    a2: &FrameAllocator,
    segment: &Segment,
    init_data: Option<&[u8]>,
    ok: bool,
)
    requires
        before.wf(m1, a1),
        other.wf(m1, a1),
        before.apart_from(other),
        Mapping::data_fits(m1, a1, segment, init_data),
        after.wf(m2, a2),
        after.map_effect(before, m1, m2, a1, a2, segment, init_data, ok),
    ensures
        other.wf(m2, a2),
        after.apart_from(other),
        forall|v: VirtualPageNumber| #[trigger] other.leaf(m2, v) == other.leaf(m1, v),
{
    other.lemma_wf(m1, a1);
    a1.lemma_wf();
    assert forall|p: PhysicalPageNumber| #[trigger] other.owns(p) implies a2.is_allocated(p)
        && m2.page(p) == m1.page(p) && !after.owns(p) by {
        assert(a1.is_allocated(p)) by {
            if other.tables().contains(p) {
                let i = choose|i: int| 0 <= i < other.tables().len() && other.tables()[i] == p;
                assert(a1.is_allocated(other.tables()[i]));
            } else {
                let j = choose|j: int|
                    0 <= j < other.pairs().len() && (#[trigger] other.pairs()[j]).1 == p;
                assert(a1.is_allocated(other.pairs()[j].1));
            }
        }
        assert(!a1.is_free(p));
        assert(!a2.is_free(p));
        assert(m1.contains_page(p));
        assert(!before.owns(p));
        assert(!after.tables().contains(p)) by {
            if after.tables().contains(p) {
                assert(before.tables().contains(p) || a1.is_free(p));
                assert(before.owns(p));
            }
        }
        assert(!after.owns(p)) by {
            if after.owns(p) {
                let j = choose|j: int|
                    0 <= j < after.pairs().len() && (#[trigger] after.pairs()[j]).1 == p;
                after.lemma_frame_was_free(before, m1, m2, a1, a2, segment, init_data, ok, j);
                if j < before.pairs().len() {
                    assert(after.pairs()[j] == before.pairs()[j]);
                    assert(before.owns(p));
                }
            }
        }
        match segment.map_type {
            MapType::Linear => {
                if ok && init_data is Some {
                    let address = PhysicalAddress(segment.range.start.0);
                    let data = data_of(init_data);
                    let expected = m1.page_after_write(p, address, data);
                    assert(a1.in_pool(p));
                    assert(expected =~= m1.page(p));
                }
            },
            MapType::Framed => {},
        }
    }
    lemma_mapping_untouched(other, m1, m2, a1, a2);
}

impl Mapping {
    /// The frame of a page that `map` has recorded was free before.
    proof fn lemma_frame_was_free(
        &self,
        before: &Mapping,
        m1: &PhysicalMemory,
        m2: &PhysicalMemory,
        a1: &FrameAllocator,
        a2: &FrameAllocator,
        segment: &Segment,
        init_data: Option<&[u8]>,
        ok: bool,
        j: int,
    )
        requires
            before.wf(m1, a1),
            self.wf(m2, a2),
            self.map_effect(before, m1, m2, a1, a2, segment, init_data, ok),
            before.pairs().len() <= j < self.pairs().len(),
        ensures
            !a1.is_allocated(self.pairs()[j].1),
    {
        a1.lemma_wf();
        let base = before.pairs().len() as int;
        let first = segment.spec_page_range().start.0 as int;
        assert(segment.map_type == MapType::Framed);
        let k = if ok {
            segment.spec_page_range().spec_len()
        } else {
            choose|k: int|
                {
                    &&& before.stops_at(m1, a1, segment, k)
                    &&& self.mapped_upto(before, m1, m2, segment, k)
                    &&& self.pairs().len() == before.pairs().len() + k && self.framed_pages(
                        m1,
                        m2,
                        a1,
                        segment,
                        data_of(init_data),
                        first,
                        k,
                    )
                }
        };
        assert(self.framed_pages(m1, m2, a1, segment, data_of(init_data), first, k));
        let n = j - base + tables_needed(m1, before.spec_root(), first, j - base);
        assert(self.pairs()[j].1 == nth_frame(a1, n));
        a2.lemma_wf();
        lemma_tables_needed_grows(m1, before.spec_root(), first, 0, j - base);
        lemma_tables_needed_grows(m1, before.spec_root(), first, j - base, j - base + 1);
        lemma_tables_needed_grows(m1, before.spec_root(), first, j - base + 1, k);
        assert(n < before.frames_for(m1, segment, k));
        assert(before.frames_for(m1, segment, k) <= a1.spec_available());
        crate::frame::lemma_nth_frame_is_free(a1.stack(), a1.spec_capacity(), n);
    }
}

} // verus!
