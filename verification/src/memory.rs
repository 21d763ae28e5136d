//! Physical memory as the kernel sees it through its linear mapping: a run of
//! page frames whose bytes are read and written by physical address. Page
//! tables are not objects of their own: a table is what the 4096 bytes of a
//! frame mean when they are read as 512 little-endian words.

use crate::address::{PhysicalAddress, PhysicalPageNumber};
use crate::config::PPN_LIMIT;
use crate::mapping::page_table_entry::PageTableEntry;
use vstd::bytes::{
    lemma_auto_spec_u64_to_from_le_bytes, spec_u64_from_le_bytes, spec_u64_to_le_bytes,
    u64_from_le_bytes, u64_to_le_bytes,
};
use vstd::prelude::*;
use vstd::slice::slice_subrange;

verus! {

/// The word that entry `index` of a table holds, where `page` is the content
/// of the table's frame.
pub closed spec fn entry_in(page: Seq<u8>, index: int) -> u64 {
    spec_u64_from_le_bytes(page.subrange(8 * index, 8 * index + 8))
}

/// `bytes` with the run that starts at `offset` replaced by `data`.
pub open spec fn overwrite(bytes: Seq<u8>, offset: int, data: Seq<u8>) -> Seq<u8> {
    bytes.subrange(0, offset) + data + bytes.subrange(offset + data.len(), bytes.len() as int)
}

/// An entry of an all-zero page is the zero word.
pub proof fn lemma_zero_page_entries(page: Seq<u8>, index: int)
    requires
        page.len() == 4096,
        0 <= index < 512,
        forall|k: int| 0 <= k < 4096 ==> page[k] == 0,
    ensures
        entry_in(page, index) == 0,
{
    lemma_auto_spec_u64_to_from_le_bytes();
    let s = page.subrange(8 * index, 8 * index + 8);
    let z = spec_u64_to_le_bytes(0);
    vstd::bytes::spec_u64_to_le_bytes_to_open(0);
    assert(0u64 & 0xff == 0 && (0u64 >> 8) & 0xff == 0 && (0u64 >> 16) & 0xff == 0 && (0u64 >> 24)
        & 0xff == 0 && (0u64 >> 32) & 0xff == 0 && (0u64 >> 40) & 0xff == 0 && (0u64 >> 48) & 0xff
        == 0 && (0u64 >> 56) & 0xff == 0) by (bit_vector);
    assert(s =~= z);
}

/// Writing one entry of a table changes that entry and no other.
pub proof fn lemma_overwrite_entry(page: Seq<u8>, index: int, word: u64, other: int)
    requires
        page.len() == 4096,
        0 <= index < 512,
        0 <= other < 512,
    ensures
        entry_in(overwrite(page, 8 * index, spec_u64_to_le_bytes(word)), index) == word,
        other != index ==> entry_in(overwrite(page, 8 * index, spec_u64_to_le_bytes(word)), other)
            == entry_in(page, other),
{
    lemma_auto_spec_u64_to_from_le_bytes();
    let data = spec_u64_to_le_bytes(word);
    let after = overwrite(page, 8 * index, data);
    assert(after.subrange(8 * index, 8 * index + 8) =~= data);
    if other != index {
        assert(after.subrange(8 * other, 8 * other + 8) =~= page.subrange(
            8 * other,
            8 * other + 8,
        ));
    }
}

/// Physical memory: the frames from `base()` on, `page_count()` of them.
pub struct PhysicalMemory {
    base: PhysicalPageNumber,
    bytes: Vec<u8>,
}

impl View for PhysicalMemory {
    type V = Seq<u8>;

    /// All bytes of the memory, the first frame's first.
    closed spec fn view(&self) -> Seq<u8> {
        self.bytes@
    }
}

impl PhysicalMemory {
    /// The number of the first frame.
    pub closed spec fn spec_base(&self) -> PhysicalPageNumber {
        self.base
    }

    /// The memory is made of whole frames whose numbers fit a page-table
    /// entry.
    pub open spec fn wf(&self) -> bool {
        &&& self@.len() % 4096 == 0
        &&& self.spec_base().0 + self@.len() / 4096 <= PPN_LIMIT
    }

    /// The number of frames.
    pub open spec fn spec_page_count(&self) -> int {
        self@.len() as int / 4096
    }

    /// Whether frame `ppn` is part of this memory.
    pub open spec fn contains_page(&self, ppn: PhysicalPageNumber) -> bool {
        self.spec_base().0 <= ppn.0 < self.spec_base().0 + self.spec_page_count()
    }

    /// Whether the `len` bytes from `address` on are part of this memory.
    pub open spec fn contains_range(&self, address: PhysicalAddress, len: int) -> bool {
        &&& 0 <= len
        &&& self.spec_base().0 * 4096 <= address.0
        &&& address.0 + len <= self.spec_base().0 * 4096 + self@.len()
    }

    /// Where the byte at `address` stands in the view.
    pub open spec fn offset_of(&self, address: PhysicalAddress) -> int {
        address.0 - self.spec_base().0 * 4096
    }

    /// The 4096 bytes of frame `ppn`.
    pub open spec fn page(&self, ppn: PhysicalPageNumber) -> Seq<u8> {
        self@.subrange(
            (ppn.0 - self.spec_base().0) * 4096,
            (ppn.0 - self.spec_base().0) * 4096 + 4096,
        )
    }

    /// The word in entry `index` of the table in frame `table`.
    pub open spec fn entry(&self, table: PhysicalPageNumber, index: int) -> u64 {
        entry_in(self.page(table), index)
    }

    /// Whether `other` is this memory with nothing changed but the content
    /// of frame `ppn`.
    pub open spec fn same_but_page(&self, other: &PhysicalMemory, ppn: PhysicalPageNumber) -> bool {
        &&& self.spec_base() == other.spec_base()
        &&& self@.len() == other@.len()
        &&& forall|p: PhysicalPageNumber|
            self.contains_page(p) && p != ppn ==> #[trigger] self.page(p) == other.page(p)
    }

    /// Whether `other` covers the same frames and holds the same bytes.
    pub open spec fn same_as(&self, other: &PhysicalMemory) -> bool {
        self.spec_base() == other.spec_base() && self@ == other@
    }

    /// Whether `other` covers the same frames as this memory.
    pub open spec fn same_extent(&self, other: &PhysicalMemory) -> bool {
        self.spec_base() == other.spec_base() && self@.len() == other@.len()
    }

    /// Whether `other` is this memory with entry `index` of the table in
    /// frame `table` set to `word` and nothing else changed.
    pub open spec fn entry_written(
        &self,
        other: &PhysicalMemory,
        table: PhysicalPageNumber,
        index: int,
        word: u64,
    ) -> bool {
        &&& self.same_but_page(other, table)
        &&& other.entry(table, index) == word
        &&& forall|j: int|
            0 <= j < 512 && j != index ==> #[trigger] other.entry(table, j) == self.entry(table, j)
    }

    /// What frame `ppn` holds after `data` was copied into this memory from
    /// `address` on.
    pub open spec fn page_after_write(
        &self,
        ppn: PhysicalPageNumber,
        address: PhysicalAddress,
        data: Seq<u8>,
    ) -> Seq<u8> {
        overwrite(self@, self.offset_of(address), data).subrange(
            (ppn.0 - self.spec_base().0) * 4096,
            (ppn.0 - self.spec_base().0) * 4096 + 4096,
        )
    }

    /// Whether the `len` bytes from `address` on are part of this memory
    /// and of no frame of the pool of `allocator`.
    pub open spec fn contains_outside_pool(
        &self,
        allocator: &crate::frame::FrameAllocator,
        address: PhysicalAddress,
        len: int,
    ) -> bool {
        &&& self.contains_range(address, len)
        &&& (len == 0 || address.0 + len <= allocator.spec_start().0 * 4096 || (
        allocator.spec_start().0 + allocator.spec_capacity()) * 4096 <= address.0)
    }

    /// Whether every frame of the pool of `allocator` is part of this
    /// memory.
    pub open spec fn backs(&self, allocator: &crate::frame::FrameAllocator) -> bool {
        &&& self.spec_base().0 <= allocator.spec_start().0
        &&& allocator.spec_start().0 + allocator.spec_capacity() <= self.spec_base().0
            + self.spec_page_count()
    }

    /// A memory of `pages` frames from `base` on, every byte zero.
    pub fn new(base: PhysicalPageNumber, pages: usize) -> (r: Self)
        requires
            base.0 + pages <= PPN_LIMIT,
            pages * 4096 <= usize::MAX,
        ensures
            r.wf(),
            r.spec_base() == base,
            r.spec_page_count() == pages,
            forall|k: int| 0 <= k < r@.len() ==> r@[k] == 0,
    {
        let bytes: Vec<u8> = vec![0u8; pages * 4096];
        PhysicalMemory { base, bytes }
    }

    /// The number of the first frame.
    #[verifier::when_used_as_spec(spec_base)]
    pub fn base(&self) -> (r: PhysicalPageNumber)
        ensures
            r == self.spec_base(),
    {
        self.base
    }

    /// The number of frames.
    pub fn page_count(&self) -> (r: usize)
        requires
            self.wf(),
        ensures
            r == self.spec_page_count(),
    {
        self.bytes.len() / 4096
    }

    /// Whether frame `ppn` is part of this memory.
    pub fn has_page(&self, ppn: PhysicalPageNumber) -> (r: bool)
        requires
            self.wf(),
        ensures
            r <==> self.contains_page(ppn),
    {
        ppn.0 >= self.base.0 && ppn.0 - self.base.0 < (self.bytes.len() / 4096) as u64
    }

    /// Whether the `len` bytes from `address` on are part of this memory.
    pub fn has_range(&self, address: PhysicalAddress, len: usize) -> (r: bool)
        requires
            self.wf(),
        ensures
            r <==> self.contains_range(address, len as int),
    {
        let start: u64 = self.base.0 * 4096;
        address.0 >= start && address.0 - start <= self.bytes.len() as u64 && len as u64
            <= self.bytes.len() as u64 - (address.0 - start)
    }

    /// The byte at `address`.
    pub fn read_byte(&self, address: PhysicalAddress) -> (r: u8)
        requires
            self.wf(),
            self.contains_range(address, 1),
        ensures
            r == self@[self.offset_of(address)],
    {
        let total: usize = self.bytes.len();
        self.bytes[(address.0 - self.base.0 * 4096) as usize]
    }

    /// Copies `data` into memory from `address` on.
    pub fn write_bytes(&mut self, address: PhysicalAddress, data: &[u8])
        requires
            old(self).wf(),
            old(self).contains_range(address, data@.len() as int),
        ensures
            final(self).wf(),
            final(self).spec_base() == old(self).spec_base(),
            final(self)@ == overwrite(old(self)@, old(self).offset_of(address), data@),
            final(self)@.len() == old(self)@.len(),
    {
        let total: usize = self.bytes.len();
        let offset: usize = (address.0 - self.base.0 * 4096) as usize;
        let n: usize = data.len();
        let mut k: usize = 0;
        while k < n
            invariant
                k <= n,
                n == data@.len(),
                offset + n <= self.bytes@.len(),
                self.bytes@.len() == total,
                self.bytes@.len() == old(self).bytes@.len(),
                self.base == old(self).base,
                self.bytes@
                    == overwrite(old(self).bytes@, offset as int, data@.subrange(0, k as int)),
            decreases n - k,
        {
            self.bytes.set(offset + k, data[k]);
            k += 1;
            assert(self.bytes@ =~= overwrite(
                old(self).bytes@,
                offset as int,
                data@.subrange(0, k as int),
            ));
        }
        assert(data@.subrange(0, n as int) =~= data@);
    }

    /// A copy of the content of frame `ppn`.
    pub fn read_page(&self, ppn: PhysicalPageNumber) -> (r: Vec<u8>)
        requires
            self.wf(),
            self.contains_page(ppn),
        ensures
            r@ == self.page(ppn),
            r@.len() == 4096,
    {
        let total: usize = self.bytes.len();
        let offset: usize = ((ppn.0 - self.base.0) * 4096) as usize;
        let s = slice_subrange(self.bytes.as_slice(), offset, offset + 4096);
        vstd::slice::slice_to_vec(s)
    }

    /// Replaces the content of frame `ppn` by `data`.
    pub fn write_page(&mut self, ppn: PhysicalPageNumber, data: &[u8])
        requires
            old(self).wf(),
            old(self).contains_page(ppn),
            data@.len() == 4096,
        ensures
            final(self).wf(),
            final(self).page(ppn) == data@,
            old(self).same_but_page(final(self), ppn),
    {
        let address = ppn.address();
        self.write_bytes(address, data);
        proof {
            let offset = (ppn.0 - self.spec_base().0) * 4096;
            assert(self.page(ppn) =~= data@);
            assert forall|p: PhysicalPageNumber| old(self).contains_page(p) && p != ppn implies (
            #[trigger] old(self).page(p)) == self.page(p) by {
                assert(old(self).page(p) =~= self.page(p));
            }
        }
    }

    /// The entry at `index` of the table in frame `table`.
    pub fn read_entry(&self, table: PhysicalPageNumber, index: usize) -> (r: PageTableEntry)
        requires
            self.wf(),
            self.contains_page(table),
            index < 512,
        ensures
            r.0 == self.entry(table, index as int),
    {
        let total: usize = self.bytes.len();
        let offset: usize = ((table.0 - self.base.0) * 4096) as usize + index * 8;
        let s = slice_subrange(self.bytes.as_slice(), offset, offset + 8);
        assert(s@ =~= self.page(table).subrange(8 * index, 8 * index + 8));
        PageTableEntry(u64_from_le_bytes(s))
    }

    /// Stores `entry` at `index` of the table in frame `table`.
    pub fn write_entry(&mut self, table: PhysicalPageNumber, index: usize, entry: PageTableEntry)
        requires
            old(self).wf(),
            old(self).contains_page(table),
            index < 512,
        ensures
            final(self).wf(),
            old(self).entry_written(final(self), table, index as int, entry.0),
    {
        let address = table.address() + (index as u64) * 8;
        let data = u64_to_le_bytes(entry.0);
        self.write_bytes(address, data.as_slice());
        proof {
            let page = old(self).page(table);
            assert(self.page(table) =~= overwrite(page, 8 * index, data@));
            lemma_overwrite_entry(page, index as int, entry.0, index as int);
            assert forall|j: int| 0 <= j < 512 && j != index implies #[trigger] self.entry(table, j)
                == old(self).entry(table, j) by {
                lemma_overwrite_entry(page, index as int, entry.0, j);
            }
            assert forall|p: PhysicalPageNumber| old(self).contains_page(p) && p != table implies (
            #[trigger] old(self).page(p)) == self.page(p) by {
                assert(old(self).page(p) =~= self.page(p));
            }
        }
    }

    /// Sets every byte of frame `ppn` to zero. Read as a table, the frame
    /// then holds 512 empty entries.
    pub fn zero_page(&mut self, ppn: PhysicalPageNumber)
        requires
            old(self).wf(),
            old(self).contains_page(ppn),
        ensures
            final(self).wf(),
            forall|k: int| 0 <= k < 4096 ==> final(self).page(ppn)[k] == 0,
            forall|j: int| 0 <= j < 512 ==> #[trigger] final(self).entry(ppn, j) == 0,
            old(self).same_but_page(final(self), ppn),
    {
        let total: usize = self.bytes.len();
        let offset: usize = ((ppn.0 - self.base.0) * 4096) as usize;
        let mut k: usize = 0;
        while k < 4096
            invariant
                k <= 4096,
                offset + 4096 <= self.bytes@.len(),
                offset == (ppn.0 - self.base.0) * 4096,
                self.bytes@.len() == old(self).bytes@.len(),
                self.base == old(self).base,
                forall|j: int| offset <= j < offset + k ==> self.bytes@[j] == 0,
                forall|j: int|
                    0 <= j < self.bytes@.len() && !(offset <= j < offset + 4096)
                        ==> self.bytes@[j] == old(self).bytes@[j],
            decreases 4096 - k,
        {
            self.bytes.set(offset + k, 0u8);
            k += 1;
        }
        proof {
            assert forall|j: int| 0 <= j < 512 implies #[trigger] self.entry(ppn, j) == 0 by {
                lemma_zero_page_entries(self.page(ppn), j);
            }
            assert forall|p: PhysicalPageNumber| old(self).contains_page(p) && p != ppn implies (
            #[trigger] old(self).page(p)) == self.page(p) by {
                assert(old(self).page(p) =~= self.page(p));
            }
        }
    }
}

} // verus!
