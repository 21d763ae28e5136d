//! A page table as a typed value, and the handle that ties a table in memory
//! to the frame it lives in.

use crate::address::PhysicalPageNumber;
use crate::frame::FrameTracker;
use crate::mapping::page_table_entry::PageTableEntry;
use crate::memory::PhysicalMemory;
use vstd::prelude::*;

verus! {

/// The 512 entries of one page table. A table in use lives in a physical
/// frame; a value of this type is a copy of it that can be read and changed
/// entry by entry and stored back.
pub struct PageTable {
    pub entries: [PageTableEntry; 512],
}

impl PageTable {
    /// Makes every entry empty.
    pub fn zero_init(&mut self)
        ensures
            forall|i: int| 0 <= i < 512 ==> (#[trigger] final(self).entries[i]).0 == 0,
    {
        let zero = PageTableEntry(0);
        self.entries = [zero; 512];
    }

    /// The table that the bytes of frame `ppn` spell.
    pub fn load(memory: &PhysicalMemory, ppn: PhysicalPageNumber) -> (r: PageTable)
        requires
            memory.wf(),
            memory.contains_page(ppn),
        ensures
            forall|i: int| 0 <= i < 512 ==> (#[trigger] r.entries[i]).0 == memory.entry(ppn, i),
    {
        let zero = PageTableEntry(0);
        let mut entries: [PageTableEntry; 512] = [zero; 512];
        let mut i: usize = 0;
        while i < 512
            invariant
                i <= 512,
                memory.wf(),
                memory.contains_page(ppn),
                forall|j: int| 0 <= j < i ==> (#[trigger] entries[j]).0 == memory.entry(ppn, j),
            decreases 512 - i,
        {
            entries[i] = memory.read_entry(ppn, i);
            i += 1;
        }
        PageTable { entries }
    }

    /// Writes the table into frame `ppn`.
    pub fn store(&self, memory: &mut PhysicalMemory, ppn: PhysicalPageNumber)
        requires
            old(memory).wf(),
            old(memory).contains_page(ppn),
        ensures
            final(memory).wf(),
            forall|i: int| 0 <= i < 512
                ==> #[trigger] final(memory).entry(ppn, i) == self.entries[i].0,
            old(memory).same_but_page(final(memory), ppn),
    {
        let mut i: usize = 0;
        while i < 512
            invariant
                i <= 512,
                memory.wf(),
                memory.contains_page(ppn),
                forall|j: int| 0 <= j < i ==> #[trigger] memory.entry(ppn, j) == self.entries[j].0,
                old(memory).same_but_page(memory, ppn),
            decreases 512 - i,
        {
            let ghost before = *memory;
            memory.write_entry(ppn, i, self.entries[i]);
            i += 1;
            assert forall|p: PhysicalPageNumber| old(memory).contains_page(p) && p != ppn implies (
            #[trigger] old(memory).page(p)) == memory.page(p) by {
                assert(before.page(p) == memory.page(p));
            }
        }
    }
}

/// The owner of a page table in memory: it holds the frame that the table
/// lives in, so the table exists as long as its tracker does.
pub struct PageTableTracker(pub FrameTracker);

impl PageTableTracker {
    /// Turns a frame into an empty page table: all 512 entries are cleared.
    pub fn new(frame: FrameTracker, memory: &mut PhysicalMemory) -> (r: Self)
        requires
            old(memory).wf(),
            old(memory).contains_page(frame.spec_page_number()),
        ensures
            final(memory).wf(),
            r.0 == frame,
            forall|i: int|
                0 <= i < 512 ==> #[trigger] final(memory).entry(frame.spec_page_number(), i) == 0,
            old(memory).same_but_page(final(memory), frame.spec_page_number()),
    {
        let ppn = frame.page_number();
        let mut table = PageTable::load(memory, ppn);
        table.zero_init();
        table.store(memory, ppn);
        PageTableTracker(frame)
    }

    /// The number of the frame that the table lives in.
    pub open spec fn spec_page_number(&self) -> PhysicalPageNumber {
        self.0.spec_page_number()
    }

    /// The number of the frame that the table lives in.
    #[verifier::when_used_as_spec(spec_page_number)]
    pub fn page_number(&self) -> (r: PhysicalPageNumber)
        ensures
            r == self.spec_page_number(),
    {
        self.0.page_number()
    }

    /// A copy of the table as it stands in memory.
    pub fn table(&self, memory: &PhysicalMemory) -> (r: PageTable)
        requires
            memory.wf(),
            memory.contains_page(self.spec_page_number()),
        ensures
            forall|i: int|
                0 <= i < 512 ==> (#[trigger] r.entries[i]).0 == memory.entry(
                    self.spec_page_number(),
                    i,
                ),
    {
        PageTable::load(memory, self.page_number())
    }
}

impl PageTableEntry {
    /// A copy of the table that this entry points to.
    pub fn get_next_table(&self, memory: &PhysicalMemory) -> (r: PageTable)
        requires
            memory.wf(),
            memory.contains_page(self.spec_page_number()),
        ensures
            forall|i: int|
                0 <= i < 512 ==> (#[trigger] r.entries[i]).0 == memory.entry(
                    self.spec_page_number(),
                    i,
                ),
    {
        PageTable::load(memory, self.page_number())
    }
}

} // verus!
