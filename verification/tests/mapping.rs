use mos::address::{PhysicalAddress, PhysicalPageNumber, VirtualAddress, VirtualPageNumber};
use mos::error::MemoryError;
use mos::frame::FrameAllocator;
use mos::mapping::mapping::{page_data, Mapping};
use mos::mapping::page_table_entry::{Flags, PageTableEntry};
use mos::mapping::segment::{MapType, Segment};
use mos::memory::PhysicalMemory;
use mos::range::Range;

const BASE: u64 = 0x80000;

fn machine(pages: usize, pool_start: u64) -> (PhysicalMemory, FrameAllocator) {
    let memory = PhysicalMemory::new(PhysicalPageNumber(BASE), pages);
    let allocator = FrameAllocator::new(
        PhysicalPageNumber(pool_start),
        PhysicalPageNumber(BASE + pages as u64),
    );
    (memory, allocator)
}

fn segment(map_type: MapType, start: u64, end: u64, bits: u8) -> Segment {
    Segment {
        map_type,
        range: Range { start: VirtualAddress(start), end: VirtualAddress(end) },
        flags: Flags::from_bits(bits),
    }
}

#[test]
fn a_new_mapping_takes_one_frame_for_an_empty_root() {
    let (mut memory, mut allocator) = machine(8, BASE + 2);
    let mapping = Mapping::new(&mut memory, &mut allocator).unwrap();
    assert_eq!(allocator.available(), 5);
    assert_eq!(mapping.activate(), (BASE + 2) | (8 << 60));
    assert!(mapping.entry(VirtualPageNumber(0), &memory).is_empty());
    assert!(mapping.entry(VirtualPageNumber(0x7ff_ffff), &memory).is_empty());
}

#[test]
fn a_new_mapping_fails_without_a_free_frame() {
    let (mut memory, mut allocator) = machine(4, BASE + 4);
    assert_eq!(Mapping::new(&mut memory, &mut allocator).err(), Some(MemoryError::FrameExhausted));
}

#[test]
fn find_entry_makes_the_two_missing_tables() {
    let (mut memory, mut allocator) = machine(8, BASE);
    let mut mapping = Mapping::new(&mut memory, &mut allocator).unwrap();
    let vpn = VirtualPageNumber((1 << 18) | (2 << 9) | 3);
    let slot = mapping.find_entry(vpn, &mut memory, &mut allocator).unwrap();
    assert_eq!(slot.table, PhysicalPageNumber(BASE + 2));
    assert_eq!(slot.index, 3);
    assert_eq!(allocator.available(), 5);
    // the root points to the second-level table, which points to the third
    let first = memory.read_entry(PhysicalPageNumber(BASE), 1);
    assert_eq!(first, PageTableEntry::new(Some(PhysicalPageNumber(BASE + 1)), Flags::from_bits(1)));
    assert!(first.has_next_level());
    let second = memory.read_entry(PhysicalPageNumber(BASE + 1), 2);
    assert_eq!(second.page_number(), PhysicalPageNumber(BASE + 2));
    assert!(memory.read_entry(slot.table, slot.index).is_empty());
    // a second walk finds the same place and takes no frame
    let again = mapping.find_entry(vpn, &mut memory, &mut allocator).unwrap();
    assert_eq!(again, slot);
    assert_eq!(allocator.available(), 5);
    // a neighbour in the same third-level table shares both tables
    let neighbour = mapping
        .find_entry(VirtualPageNumber((1 << 18) | (2 << 9) | 4), &mut memory, &mut allocator)
        .unwrap();
    assert_eq!(neighbour.table, slot.table);
    assert_eq!(neighbour.index, 4);
    assert_eq!(allocator.available(), 5);
}

#[test]
fn find_entry_fails_when_tables_are_missing_and_no_frame_is_free() {
    let (mut memory, mut allocator) = machine(2, BASE);
    let mut mapping = Mapping::new(&mut memory, &mut allocator).unwrap();
    let r = mapping.find_entry(VirtualPageNumber(5), &mut memory, &mut allocator);
    assert_eq!(r.err(), Some(MemoryError::FrameExhausted));
    // the one table that could be made stays
    assert_eq!(allocator.available(), 0);
    assert!(!memory.read_entry(PhysicalPageNumber(BASE), 0).is_empty());
    assert!(mapping.entry(VirtualPageNumber(5), &memory).is_empty());
}

#[test]
fn a_mapped_page_is_found_with_its_frame_and_flags() {
    let (mut memory, mut allocator) = machine(8, BASE);
    let mut mapping = Mapping::new(&mut memory, &mut allocator).unwrap();
    let vpn = VirtualPageNumber(0x12345);
    let flags = Flags::from_bits(Flags::READABLE | Flags::USER);
    mapping
        .map_one(vpn, Some(PhysicalPageNumber(0xabcde)), flags, &mut memory, &mut allocator)
        .unwrap();
    let slot = mapping.find_entry(vpn, &mut memory, &mut allocator).unwrap();
    let entry = memory.read_entry(slot.table, slot.index);
    assert_eq!(entry.page_number(), PhysicalPageNumber(0xabcde));
    assert_eq!(entry.flags(), Flags::from_bits(Flags::READABLE | Flags::USER | Flags::VALID));
    assert!(!entry.is_empty());
    assert_eq!(mapping.entry(vpn, &memory), entry);
    assert!(mapping.entry(VirtualPageNumber(0x12346), &memory).is_empty());
}

#[test]
fn a_mapped_page_is_seen_as_taken_before_a_second_mapping() {
    let (mut memory, mut allocator) = machine(8, BASE);
    let mut mapping = Mapping::new(&mut memory, &mut allocator).unwrap();
    let vpn = VirtualPageNumber(77);
    assert!(mapping.entry(vpn, &memory).is_empty());
    mapping
        .map_one(vpn, Some(PhysicalPageNumber(1)), Flags::from_bits(2), &mut memory, &mut allocator)
        .unwrap();
    // what map_one asks of its caller no longer holds of this page
    assert!(!mapping.entry(vpn, &memory).is_empty());
    // nor of a page number that differs above bit 27 only
    assert!(!mapping.entry(VirtualPageNumber(77 | (1 << 27)), &memory).is_empty());
}

#[test]
fn map_one_without_page_number_writes_an_invalid_entry() {
    let (mut memory, mut allocator) = machine(8, BASE);
    let mut mapping = Mapping::new(&mut memory, &mut allocator).unwrap();
    let vpn = VirtualPageNumber(9);
    mapping
        .map_one(
            vpn,
            None,
            Flags::from_bits(Flags::VALID | Flags::WRITABLE),
            &mut memory,
            &mut allocator,
        )
        .unwrap();
    assert_eq!(mapping.entry(vpn, &memory), PageTableEntry(4));
}

#[test]
fn map_one_fails_when_the_tables_cannot_be_made() {
    let (mut memory, mut allocator) = machine(1, BASE);
    let mut mapping = Mapping::new(&mut memory, &mut allocator).unwrap();
    let r = mapping.map_one(
        VirtualPageNumber(9),
        Some(PhysicalPageNumber(1)),
        Flags::from_bits(2),
        &mut memory,
        &mut allocator,
    );
    assert_eq!(r, Err(MemoryError::FrameExhausted));
    assert!(mapping.entry(VirtualPageNumber(9), &memory).is_empty());
}

#[test]
fn a_linear_segment_maps_each_page_to_the_frame_of_its_number() {
    let (mut memory, mut allocator) = machine(8, BASE);
    let mut mapping = Mapping::new(&mut memory, &mut allocator).unwrap();
    let text = segment(MapType::Linear, 0x8020_0000, 0x8020_3000, Flags::READABLE | Flags::EXECUTABLE);
    mapping.map(&text, None, &mut memory, &mut allocator).unwrap();
    for page in 0x80200..0x80203u64 {
        let entry = mapping.entry(VirtualPageNumber(page), &memory);
        assert_eq!(entry.page_number(), PhysicalPageNumber(page));
        assert_eq!(entry.flags().bits(), Flags::READABLE | Flags::EXECUTABLE | Flags::VALID);
    }
    assert!(mapping.entry(VirtualPageNumber(0x80203), &memory).is_empty());
    assert!(mapping.entry(VirtualPageNumber(0x801ff), &memory).is_empty());
    // two tables were made, and no frame was taken for the pages
    assert_eq!(allocator.available(), 8 - 3);
}

#[test]
fn a_linear_segment_copies_its_data_to_its_start_address() {
    // the pool is the upper half of memory, the data goes to the lower half
    let (mut memory, mut allocator) = machine(8, BASE + 4);
    let mut mapping = Mapping::new(&mut memory, &mut allocator).unwrap();
    let start = (BASE << 12) + 0x10;
    let data = [7u8, 8, 9];
    let linear = segment(MapType::Linear, start, start + 3, Flags::READABLE);
    assert!(memory.has_range(PhysicalAddress(start), data.len()));
    mapping.map(&linear, Some(&data), &mut memory, &mut allocator).unwrap();
    let page = memory.read_page(PhysicalPageNumber(BASE));
    assert_eq!(&page[0x0f..0x14], &[0, 7, 8, 9, 0]);
    assert_eq!(mapping.entry(VirtualPageNumber(BASE), &memory).page_number(), PhysicalPageNumber(BASE));
}

#[test]
fn a_linear_segment_that_spans_two_third_level_tables_takes_three_tables() {
    let (mut memory, mut allocator) = machine(8, BASE);
    let mut mapping = Mapping::new(&mut memory, &mut allocator).unwrap();
    let before = allocator.available();
    let wide = segment(MapType::Linear, 510 << 12, 514 << 12, Flags::READABLE);
    mapping.map(&wide, None, &mut memory, &mut allocator).unwrap();
    assert_eq!(before - allocator.available(), 3);
    assert_eq!(mapping.entry(VirtualPageNumber(513), &memory).page_number(), PhysicalPageNumber(513));
}

#[test]
fn a_framed_segment_gives_each_page_a_fresh_frame() {
    let (mut memory, mut allocator) = machine(16, BASE);
    let mut mapping = Mapping::new(&mut memory, &mut allocator).unwrap();
    let framed = segment(MapType::Framed, 0x10_0000, 0x10_3000, Flags::READABLE | Flags::WRITABLE);
    mapping.map(&framed, None, &mut memory, &mut allocator).unwrap();
    // the first page takes its frame before its two tables, the others one frame each
    let frames = [BASE + 1, BASE + 4, BASE + 5];
    for (i, frame) in frames.iter().enumerate() {
        let entry = mapping.entry(VirtualPageNumber(0x100 + i as u64), &memory);
        assert_eq!(entry.page_number(), PhysicalPageNumber(*frame));
        assert_eq!(entry.flags().bits(), 0b111);
        assert!(memory.read_page(PhysicalPageNumber(*frame)).iter().all(|b| *b == 0));
    }
    assert_eq!(allocator.available(), 16 - 1 - 2 - 3);
}

#[test]
fn a_framed_segment_places_unaligned_data_in_its_page() {
    let (mut memory, mut allocator) = machine(16, BASE);
    let mut mapping = Mapping::new(&mut memory, &mut allocator).unwrap();
    let data: Vec<u8> = (0..0xffbu32).map(|i| (i % 251) as u8 + 1).collect();
    let framed = segment(MapType::Framed, 0x1003, 0x1ffe, Flags::READABLE);
    mapping.map(&framed, Some(&data), &mut memory, &mut allocator).unwrap();
    let frame = mapping.entry(VirtualPageNumber(1), &memory).page_number();
    let page = memory.read_page(frame);
    assert_eq!(&page[..3], &[0, 0, 0]);
    assert_eq!(&page[3..0xffe], &data[..]);
    assert_eq!(&page[0xffe..], &[0, 0]);
    assert!(mapping.entry(VirtualPageNumber(0), &memory).is_empty());
    assert!(mapping.entry(VirtualPageNumber(2), &memory).is_empty());
}

#[test]
fn a_framed_segment_splits_data_that_straddles_a_page_boundary() {
    let (mut memory, mut allocator) = machine(16, BASE);
    let mut mapping = Mapping::new(&mut memory, &mut allocator).unwrap();
    let data: Vec<u8> = (0..0x20u8).map(|i| i + 1).collect();
    let framed = segment(MapType::Framed, 0x1ff0, 0x2010, Flags::READABLE);
    mapping.map(&framed, Some(&data), &mut memory, &mut allocator).unwrap();
    let first = memory.read_page(mapping.entry(VirtualPageNumber(1), &memory).page_number());
    let second = memory.read_page(mapping.entry(VirtualPageNumber(2), &memory).page_number());
    assert!(first[..0xff0].iter().all(|b| *b == 0));
    assert_eq!(&first[0xff0..], &data[..0x10]);
    assert_eq!(&second[..0x10], &data[0x10..]);
    assert!(second[0x10..].iter().all(|b| *b == 0));
}

#[test]
fn page_data_cuts_the_data_to_the_page_and_to_the_segment() {
    let data: Vec<u8> = (0..0x1800u32).map(|i| (i % 200) as u8 + 1).collect();
    let framed = segment(MapType::Framed, 0x1800, 0x2800, Flags::READABLE);
    let first = page_data(&framed, Some(&data), VirtualPageNumber(1));
    let second = page_data(&framed, Some(&data), VirtualPageNumber(2));
    assert!(first[..0x800].iter().all(|b| *b == 0));
    assert_eq!(&first[0x800..], &data[..0x800]);
    // the data is longer than the segment: what lies past its end is left out
    assert_eq!(&second[..0x800], &data[0x800..0x1000]);
    assert!(second[0x800..].iter().all(|b| *b == 0));
    let empty: [u8; 0] = [];
    assert!(page_data(&framed, Some(&empty), VirtualPageNumber(1)).iter().all(|b| *b == 0));
    assert!(page_data(&framed, None, VirtualPageNumber(2)).iter().all(|b| *b == 0));
}

#[test]
fn map_fails_when_the_frames_do_not_last() {
    let (mut memory, mut allocator) = machine(5, BASE);
    let mut mapping = Mapping::new(&mut memory, &mut allocator).unwrap();
    // three pages need three frames and two tables: five, where four are free
    let framed = segment(MapType::Framed, 0x3000, 0x6000, Flags::READABLE);
    let r = mapping.map(&framed, None, &mut memory, &mut allocator);
    assert_eq!(r, Err(MemoryError::FrameExhausted));
    assert!(!mapping.entry(VirtualPageNumber(3), &memory).is_empty());
    assert!(!mapping.entry(VirtualPageNumber(4), &memory).is_empty());
    assert!(mapping.entry(VirtualPageNumber(5), &memory).is_empty());
    assert_eq!(allocator.available(), 0);
}

#[test]
fn map_succeeds_when_the_frames_just_last() {
    let (mut memory, mut allocator) = machine(6, BASE);
    let mut mapping = Mapping::new(&mut memory, &mut allocator).unwrap();
    let framed = segment(MapType::Framed, 0x3000, 0x6000, Flags::READABLE);
    assert_eq!(mapping.map(&framed, None, &mut memory, &mut allocator), Ok(()));
    assert_eq!(allocator.available(), 0);
}

#[test]
fn a_frame_taken_for_a_page_goes_back_when_its_tables_cannot_be_made() {
    let (mut memory, mut allocator) = machine(3, BASE);
    let mut mapping = Mapping::new(&mut memory, &mut allocator).unwrap();
    // one page needs one frame and two tables, where two frames are free
    let framed = segment(MapType::Framed, 0x3000, 0x4000, Flags::READABLE);
    let r = mapping.map(&framed, None, &mut memory, &mut allocator);
    assert_eq!(r, Err(MemoryError::FrameExhausted));
    assert_eq!(allocator.available(), 1);
    assert!(mapping.entry(VirtualPageNumber(3), &memory).is_empty());
}

#[test]
fn unmap_clears_the_entries_and_gives_the_frames_back() {
    let (mut memory, mut allocator) = machine(16, BASE);
    let mut mapping = Mapping::new(&mut memory, &mut allocator).unwrap();
    let keep = segment(MapType::Framed, 0x8000, 0x9000, Flags::READABLE);
    mapping.map(&keep, None, &mut memory, &mut allocator).unwrap();
    let kept_frame = mapping.entry(VirtualPageNumber(8), &memory).page_number();
    let before = allocator.available();
    let framed = segment(MapType::Framed, 0x1003, 0x4001, Flags::READABLE | Flags::WRITABLE);
    mapping.map(&framed, None, &mut memory, &mut allocator).unwrap();
    assert_eq!(before - allocator.available(), 4);
    mapping.unmap(&framed, &mut memory, &mut allocator);
    for page in 1..5u64 {
        assert!(mapping.entry(VirtualPageNumber(page), &memory).is_empty());
    }
    assert_eq!(allocator.available(), before);
    assert_eq!(mapping.entry(VirtualPageNumber(8), &memory).page_number(), kept_frame);
    // the segment can be mapped again, and no table has to be made for it
    mapping.map(&framed, None, &mut memory, &mut allocator).unwrap();
    assert_eq!(before - allocator.available(), 4);
}

#[test]
fn unmap_of_a_linear_segment_frees_no_frame() {
    let (mut memory, mut allocator) = machine(8, BASE);
    let mut mapping = Mapping::new(&mut memory, &mut allocator).unwrap();
    let linear = segment(MapType::Linear, 0x5000, 0x7000, Flags::READABLE);
    mapping.map(&linear, None, &mut memory, &mut allocator).unwrap();
    let after_map = allocator.available();
    mapping.unmap(&linear, &mut memory, &mut allocator);
    assert_eq!(allocator.available(), after_map);
    assert!(mapping.entry(VirtualPageNumber(5), &memory).is_empty());
    assert!(mapping.entry(VirtualPageNumber(6), &memory).is_empty());
}

#[test]
fn lookup_translates_an_address_in_a_framed_page() {
    let (mut memory, mut allocator) = machine(16, BASE);
    let mut mapping = Mapping::new(&mut memory, &mut allocator).unwrap();
    let framed = segment(MapType::Framed, 0x40_0000, 0x40_2000, Flags::READABLE);
    mapping.map(&framed, None, &mut memory, &mut allocator).unwrap();
    let satp = mapping.activate();
    let frame = mapping.entry(VirtualPageNumber(0x401), &memory).page_number();
    let pa = Mapping::lookup(&memory, satp, VirtualAddress(0x40_1abc)).unwrap();
    assert_eq!(pa, PhysicalAddress((frame.0 << 12) | 0xabc));
    assert_eq!(PhysicalPageNumber::floor(pa), frame);
    assert_eq!(pa.page_offset(), 0xabc);
}

#[test]
fn lookup_misses_where_nothing_is_mapped() {
    let (mut memory, mut allocator) = machine(16, BASE);
    let mut mapping = Mapping::new(&mut memory, &mut allocator).unwrap();
    let framed = segment(MapType::Framed, 0x40_0000, 0x40_1000, Flags::READABLE);
    mapping.map(&framed, None, &mut memory, &mut allocator).unwrap();
    let satp = mapping.activate();
    // no second-level table, no third-level table, and an empty entry in a table that is there
    assert_eq!(Mapping::lookup(&memory, satp, VirtualAddress(0x4000_0000)), None);
    assert_eq!(Mapping::lookup(&memory, satp, VirtualAddress(0x80_0000)), None);
    assert_eq!(Mapping::lookup(&memory, satp, VirtualAddress(0x40_1000)), None);
    // a register word that names no frame of this memory
    assert_eq!(Mapping::lookup(&memory, 0, VirtualAddress(0x40_0000)), None);
}

#[test]
fn lookup_follows_a_leaf_above_the_last_level() {
    let (mut memory, mut allocator) = machine(16, BASE);
    let mapping = Mapping::new(&mut memory, &mut allocator).unwrap();
    let root = PhysicalPageNumber(BASE);
    // a leaf in the root table maps a page of 2^30 bytes
    memory.write_entry(
        root,
        2,
        PageTableEntry::new(Some(PhysicalPageNumber(0x4_0000)), Flags::from_bits(Flags::READABLE)),
    );
    let satp = mapping.activate();
    assert_eq!(
        Mapping::lookup(&memory, satp, VirtualAddress((2 << 30) | 0x1234_5678)),
        Some(PhysicalAddress((0x4_0000 << 12) | 0x1234_5678))
    );
    // a leaf in a second-level table maps a page of 2^21 bytes
    memory.write_entry(
        root,
        3,
        PageTableEntry::new(Some(PhysicalPageNumber(BASE + 8)), Flags::from_bits(Flags::VALID)),
    );
    memory.write_entry(
        PhysicalPageNumber(BASE + 8),
        5,
        PageTableEntry::new(Some(PhysicalPageNumber(0x200)), Flags::from_bits(Flags::EXECUTABLE)),
    );
    assert_eq!(
        Mapping::lookup(&memory, satp, VirtualAddress((3 << 30) | (5 << 21) | 0x1f_0123)),
        Some(PhysicalAddress((0x200 << 12) | 0x1f_0123))
    );
}

#[test]
fn release_gives_every_frame_of_a_mapping_back() {
    let (mut memory, mut allocator) = machine(16, BASE);
    let mut mapping = Mapping::new(&mut memory, &mut allocator).unwrap();
    let framed = segment(MapType::Framed, 0x1000, 0x4000, Flags::READABLE);
    mapping.map(&framed, None, &mut memory, &mut allocator).unwrap();
    let last_frame = mapping.entry(VirtualPageNumber(3), &memory).page_number();
    assert_eq!(allocator.available(), 16 - 6);
    mapping.release(&mut allocator);
    assert_eq!(allocator.available(), 16);
    // the frame of the last record went back last and comes out first
    assert_eq!(allocator.allocate().unwrap().page_number(), last_frame);
}

#[test]
fn two_mappings_on_one_machine_do_not_disturb_each_other() {
    let (mut memory, mut allocator) = machine(32, BASE);
    let mut first = Mapping::new(&mut memory, &mut allocator).unwrap();
    let mut second = Mapping::new(&mut memory, &mut allocator).unwrap();
    let framed = segment(MapType::Framed, 0x1000, 0x3000, Flags::READABLE);
    first.map(&framed, None, &mut memory, &mut allocator).unwrap();
    let entries = [
        first.entry(VirtualPageNumber(1), &memory),
        first.entry(VirtualPageNumber(2), &memory),
    ];
    // the same pages in the other address space get other frames
    let data = [0xaau8; 0x2000];
    second.map(&framed, Some(&data), &mut memory, &mut allocator).unwrap();
    assert_eq!(first.entry(VirtualPageNumber(1), &memory), entries[0]);
    assert_eq!(first.entry(VirtualPageNumber(2), &memory), entries[1]);
    assert_ne!(second.entry(VirtualPageNumber(1), &memory).page_number(), entries[0].page_number());
    assert!(memory.read_page(entries[0].page_number()).iter().all(|b| *b == 0));
    second.unmap(&framed, &mut memory, &mut allocator);
    second.release(&mut allocator);
    assert_eq!(first.entry(VirtualPageNumber(1), &memory), entries[0]);
    assert_eq!(
        Mapping::lookup(&memory, first.activate(), VirtualAddress(0x2010)),
        Some(PhysicalAddress((entries[1].page_number().0 << 12) | 0x10))
    );
}

#[test]
fn lookup_takes_an_entry_of_the_last_level_as_a_leaf_whatever_its_flags() {
    let (mut memory, mut allocator) = machine(16, BASE);
    let mut mapping = Mapping::new(&mut memory, &mut allocator).unwrap();
    mapping
        .map_one(
            VirtualPageNumber(0x42),
            Some(PhysicalPageNumber(0x777)),
            Flags::from_bits(Flags::USER),
            &mut memory,
            &mut allocator,
        )
        .unwrap();
    assert!(mapping.entry(VirtualPageNumber(0x42), &memory).has_next_level());
    assert_eq!(
        Mapping::lookup(&memory, mapping.activate(), VirtualAddress(0x42_123)),
        Some(PhysicalAddress(0x777_123))
    );
}
