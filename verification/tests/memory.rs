use mos::address::{PhysicalAddress, PhysicalPageNumber};
use mos::frame::FrameAllocator;
use mos::mapping::page_table::{PageTable, PageTableTracker};
use mos::mapping::page_table_entry::{Flags, PageTableEntry};
use mos::memory::PhysicalMemory;

#[test]
fn fresh_memory_is_zero() {
    let memory = PhysicalMemory::new(PhysicalPageNumber(0x80000), 2);
    assert_eq!(memory.base(), PhysicalPageNumber(0x80000));
    assert_eq!(memory.page_count(), 2);
    assert!(memory.has_page(PhysicalPageNumber(0x80001)));
    assert!(!memory.has_page(PhysicalPageNumber(0x80002)));
    assert!(!memory.has_page(PhysicalPageNumber(0x7ffff)));
    assert_eq!(memory.read_byte(PhysicalAddress(0x8000_1fff)), 0);
    assert!(memory.read_page(PhysicalPageNumber(0x80000)).iter().all(|b| *b == 0));
}

#[test]
fn has_range_checks_both_ends() {
    let memory = PhysicalMemory::new(PhysicalPageNumber(0x10), 2);
    assert!(memory.has_range(PhysicalAddress(0x10000), 0x2000));
    assert!(memory.has_range(PhysicalAddress(0x12000), 0));
    assert!(!memory.has_range(PhysicalAddress(0x10001), 0x2000));
    assert!(!memory.has_range(PhysicalAddress(0xffff), 1));
}

#[test]
fn entries_are_little_endian_words() {
    let mut memory = PhysicalMemory::new(PhysicalPageNumber(0x10), 1);
    memory.write_entry(PhysicalPageNumber(0x10), 3, PageTableEntry(0x0102_0304_0506_0708));
    assert_eq!(memory.read_byte(PhysicalAddress(0x10000 + 24)), 0x08);
    assert_eq!(memory.read_byte(PhysicalAddress(0x10000 + 31)), 0x01);
    assert_eq!(memory.read_entry(PhysicalPageNumber(0x10), 3), PageTableEntry(0x0102_0304_0506_0708));
    assert_eq!(memory.read_entry(PhysicalPageNumber(0x10), 2), PageTableEntry(0));
    assert_eq!(memory.read_entry(PhysicalPageNumber(0x10), 4), PageTableEntry(0));
}

#[test]
fn bytes_written_across_a_page_boundary_land_in_both_pages() {
    let mut memory = PhysicalMemory::new(PhysicalPageNumber(0x10), 2);
    memory.write_bytes(PhysicalAddress(0x10ffe), &[1, 2, 3, 4]);
    let first = memory.read_page(PhysicalPageNumber(0x10));
    let second = memory.read_page(PhysicalPageNumber(0x11));
    assert_eq!(&first[0xffe..], &[1, 2]);
    assert_eq!(&second[..3], &[3, 4, 0]);
    assert_eq!(first[0xffd], 0);
}

#[test]
fn write_page_and_zero_page_touch_one_frame() {
    let mut memory = PhysicalMemory::new(PhysicalPageNumber(0x10), 2);
    let ones = [0xffu8; 4096];
    memory.write_page(PhysicalPageNumber(0x10), &ones);
    memory.write_page(PhysicalPageNumber(0x11), &ones);
    memory.zero_page(PhysicalPageNumber(0x11));
    assert!(memory.read_page(PhysicalPageNumber(0x10)).iter().all(|b| *b == 0xff));
    assert!(memory.read_page(PhysicalPageNumber(0x11)).iter().all(|b| *b == 0));
    assert_eq!(memory.read_entry(PhysicalPageNumber(0x10), 511), PageTableEntry(u64::MAX));
}

#[test]
fn a_new_page_table_has_only_empty_entries() {
    let mut memory = PhysicalMemory::new(PhysicalPageNumber(0x10), 2);
    let mut allocator = FrameAllocator::new(PhysicalPageNumber(0x10), PhysicalPageNumber(0x12));
    let ones = [0xffu8; 4096];
    memory.write_page(PhysicalPageNumber(0x10), &ones);
    memory.write_page(PhysicalPageNumber(0x11), &ones);
    let frame = allocator.allocate().unwrap();
    let tracker = PageTableTracker::new(frame, &mut memory);
    assert_eq!(tracker.page_number(), PhysicalPageNumber(0x10));
    let table = tracker.table(&memory);
    assert!(table.entries.iter().all(|e| e.is_empty()));
    assert!(memory.read_page(PhysicalPageNumber(0x11)).iter().all(|b| *b == 0xff));
}

#[test]
fn a_table_is_stored_and_loaded_entry_by_entry() {
    let mut memory = PhysicalMemory::new(PhysicalPageNumber(0x10), 1);
    let mut table = PageTable::load(&memory, PhysicalPageNumber(0x10));
    table.entries[17] = PageTableEntry::new(Some(PhysicalPageNumber(0x33)), Flags::from_bits(2));
    table.store(&mut memory, PhysicalPageNumber(0x10));
    let again = PageTable::load(&memory, PhysicalPageNumber(0x10));
    assert_eq!(again.entries[17].page_number(), PhysicalPageNumber(0x33));
    assert!(again.entries[16].is_empty());
    let next = PageTableEntry::new(Some(PhysicalPageNumber(0x10)), Flags::from_bits(1))
        .get_next_table(&memory);
    assert_eq!(next.entries[17], again.entries[17]);
    table.zero_init();
    assert!(table.entries.iter().all(|e| e.is_empty()));
}
