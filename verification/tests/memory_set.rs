use mos::address::{PhysicalPageNumber, VirtualAddress, VirtualPageNumber};
use mos::error::MemoryError;
use mos::frame::FrameAllocator;
use mos::mapping::memory_set::{KernelLayout, MemorySet};
use mos::mapping::page_table_entry::Flags;
use mos::mapping::segment::{MapType, Segment};
use mos::memory::PhysicalMemory;
use mos::process::ProcessInner;
use mos::range::Range;

const BASE: u64 = 0x80000;

fn machine(pages: usize) -> (PhysicalMemory, FrameAllocator) {
    let memory = PhysicalMemory::new(PhysicalPageNumber(BASE), pages);
    let allocator =
        FrameAllocator::new(PhysicalPageNumber(BASE), PhysicalPageNumber(BASE + pages as u64));
    (memory, allocator)
}

fn segment(map_type: MapType, start: u64, end: u64, bits: u8) -> Segment {
    Segment {
        map_type,
        range: Range { start: VirtualAddress(start), end: VirtualAddress(end) },
        flags: Flags::from_bits(bits),
    }
}

#[test]
fn segments_are_recorded_in_the_order_of_their_application() {
    let (mut memory, mut allocator) = machine(16);
    let mut set = MemorySet::new(&mut memory, &mut allocator).unwrap();
    let first = segment(MapType::Framed, 0x1000, 0x3000, Flags::READABLE);
    let second = segment(MapType::Linear, 0x3000, 0x4000, Flags::WRITABLE);
    assert_eq!(set.add_segment(first, None, &mut memory, &mut allocator), Ok(()));
    assert_eq!(set.add_segment(second, None, &mut memory, &mut allocator), Ok(()));
    assert_eq!(set.segments, vec![first, second]);
    assert!(set.overlap_with(Range { start: VirtualPageNumber(2), end: VirtualPageNumber(9) }));
    assert!(set.overlap_with(Range { start: VirtualPageNumber(3), end: VirtualPageNumber(4) }));
    assert!(!set.overlap_with(Range { start: VirtualPageNumber(4), end: VirtualPageNumber(9) }));
    assert!(!set.overlap_with(Range { start: VirtualPageNumber(0), end: VirtualPageNumber(1) }));
    assert_eq!(set.activate(), BASE | (8 << 60));
}

#[test]
fn an_overlapping_segment_is_rejected_and_changes_nothing() {
    let (mut memory, mut allocator) = machine(16);
    let mut set = MemorySet::new(&mut memory, &mut allocator).unwrap();
    let first = segment(MapType::Framed, 0x1000, 0x3000, Flags::READABLE);
    set.add_segment(first, None, &mut memory, &mut allocator).unwrap();
    let available = allocator.available();
    let frame = set.mapping.entry(VirtualPageNumber(2), &memory);
    let pages: Vec<Vec<u8>> =
        (0..16).map(|i| memory.read_page(PhysicalPageNumber(BASE + i))).collect();
    // shares page 2 with the first segment, by a single byte
    let second = segment(MapType::Framed, 0x2fff, 0x5000, Flags::WRITABLE);
    let r = set.add_segment(second, None, &mut memory, &mut allocator);
    assert_eq!(r, Err(MemoryError::SegmentOverlap));
    assert_eq!(set.segments, vec![first]);
    assert_eq!(allocator.available(), available);
    assert_eq!(set.mapping.entry(VirtualPageNumber(2), &memory), frame);
    assert!(set.mapping.entry(VirtualPageNumber(3), &memory).is_empty());
    for i in 0..16 {
        assert_eq!(memory.read_page(PhysicalPageNumber(BASE + i)), pages[i as usize]);
    }
}

#[test]
fn a_segment_that_runs_out_of_frames_is_not_recorded() {
    let (mut memory, mut allocator) = machine(4);
    let mut set = MemorySet::new(&mut memory, &mut allocator).unwrap();
    let big = segment(MapType::Framed, 0x1000, 0x9000, Flags::READABLE);
    let r = set.add_segment(big, None, &mut memory, &mut allocator);
    assert_eq!(r, Err(MemoryError::FrameExhausted));
    assert!(set.segments.is_empty());
}

#[test]
fn the_kernel_set_maps_its_five_parts_linearly() {
    let (mut memory, mut allocator) = machine(16);
    let layout = KernelLayout {
        text_start: VirtualAddress(0x8020_0000),
        rodata_start: VirtualAddress(0x8020_2000),
        data_start: VirtualAddress(0x8020_3000),
        bss_start: VirtualAddress(0x8020_4000),
        kernel_end: VirtualAddress(0x8020_6000),
        memory_end: VirtualAddress(0x8021_0000),
    };
    assert!(layout.is_well_formed());
    let set = MemorySet::new_kernel(&layout, &mut memory, &mut allocator).unwrap();
    assert_eq!(set.segments, layout.segments());
    assert_eq!(set.segments.len(), 5);
    let expected = [
        (0x80200u64, Flags::READABLE | Flags::EXECUTABLE),
        (0x80201, Flags::READABLE | Flags::EXECUTABLE),
        (0x80202, Flags::READABLE),
        (0x80203, Flags::READABLE | Flags::WRITABLE),
        (0x80205, Flags::READABLE | Flags::WRITABLE),
        (0x8020f, Flags::READABLE | Flags::WRITABLE),
    ];
    for (page, bits) in expected {
        let entry = set.mapping.entry(VirtualPageNumber(page), &memory);
        assert_eq!(entry.page_number(), PhysicalPageNumber(page));
        assert_eq!(entry.flags().bits(), bits | Flags::VALID);
    }
    assert!(set.mapping.entry(VirtualPageNumber(0x80210), &memory).is_empty());
    // the root and one table of each lower level
    assert_eq!(allocator.available(), 13);
}

#[test]
fn kernel_parts_that_share_a_page_are_rejected() {
    let (mut memory, mut allocator) = machine(16);
    let layout = KernelLayout {
        text_start: VirtualAddress(0x8020_0000),
        rodata_start: VirtualAddress(0x8020_1800),
        data_start: VirtualAddress(0x8020_3000),
        bss_start: VirtualAddress(0x8020_4000),
        kernel_end: VirtualAddress(0x8020_6000),
        memory_end: VirtualAddress(0x8021_0000),
    };
    let r = MemorySet::new_kernel(&layout, &mut memory, &mut allocator);
    assert_eq!(r.err(), Some(MemoryError::SegmentOverlap));
}

#[test]
fn kernel_parts_that_share_a_page_leave_the_pool_untouched() {
    let (mut memory, mut allocator) = machine(16);
    let layout = KernelLayout {
        text_start: VirtualAddress(0x8020_0000),
        rodata_start: VirtualAddress(0x8020_2000),
        data_start: VirtualAddress(0x8020_3000),
        bss_start: VirtualAddress(0x8020_4000),
        kernel_end: VirtualAddress(0x8020_5001),
        memory_end: VirtualAddress(0x8021_0000),
    };
    let r = MemorySet::new_kernel(&layout, &mut memory, &mut allocator);
    assert_eq!(r.err(), Some(MemoryError::SegmentOverlap));
    assert_eq!(allocator.available(), 16);
}

#[test]
fn the_kernel_set_needs_a_frame_for_each_table() {
    let layout = KernelLayout {
        text_start: VirtualAddress(0x8020_0000),
        rodata_start: VirtualAddress(0x8020_2000),
        data_start: VirtualAddress(0x8020_3000),
        bss_start: VirtualAddress(0x8020_4000),
        kernel_end: VirtualAddress(0x8020_6000),
        // the rest of memory runs into the span of a second third-level table
        memory_end: VirtualAddress(0x8040_1000),
    };
    // the root, one second-level table and two third-level tables
    let (mut memory, mut allocator) = machine(3);
    let r = MemorySet::new_kernel(&layout, &mut memory, &mut allocator);
    assert_eq!(r.err(), Some(MemoryError::FrameExhausted));
    let (mut memory, mut allocator) = machine(4);
    let set = MemorySet::new_kernel(&layout, &mut memory, &mut allocator).unwrap();
    assert_eq!(allocator.available(), 0);
    assert!(!set.mapping.entry(VirtualPageNumber(0x80400), &memory).is_empty());
}

#[test]
fn segments_out_of_order_are_found_to_share_a_page() {
    let a = segment(MapType::Linear, 0x5000, 0x7000, 0);
    let b = segment(MapType::Linear, 0x1000, 0x2000, 0);
    let c = segment(MapType::Linear, 0x1fff, 0x3000, 0);
    assert!(!MemorySet::share_a_page(&vec![a, b]));
    assert!(MemorySet::share_a_page(&vec![a, b, c]));
    assert!(!MemorySet::share_a_page(&vec![]));
}

#[test]
fn a_layout_out_of_order_is_not_well_formed() {
    let layout = KernelLayout {
        text_start: VirtualAddress(0x8020_0000),
        rodata_start: VirtualAddress(0x8020_2000),
        data_start: VirtualAddress(0x8020_1000),
        bss_start: VirtualAddress(0x8020_4000),
        kernel_end: VirtualAddress(0x8020_6000),
        memory_end: VirtualAddress(0x8021_0000),
    };
    assert!(!layout.is_well_formed());
    let far = segment(MapType::Linear, 0x7f_ffff_f000, 0x80_0000_0001, 0);
    assert!(!far.is_well_formed());
    assert!(segment(MapType::Linear, 0x7f_ffff_f000, 0x80_0000_0000, 0).is_well_formed());
}

#[test]
fn a_process_gets_the_lowest_free_range_above_the_base() {
    let (mut memory, mut allocator) = machine(32);
    let set = MemorySet::new(&mut memory, &mut allocator).unwrap();
    let mut inner = ProcessInner { memory_set: set };
    let flags = Flags::from_bits(Flags::READABLE | Flags::WRITABLE);
    let first = inner.alloc_page_range(true, 0x1801, flags, &mut memory, &mut allocator).unwrap();
    assert_eq!(first, Range { start: VirtualAddress(0x100_0000), end: VirtualAddress(0x100_1801) });
    // the same size again: the first candidate is taken, the second is free
    let second = inner.alloc_page_range(true, 0x1801, flags, &mut memory, &mut allocator).unwrap();
    assert_eq!(second, Range { start: VirtualAddress(0x100_2000), end: VirtualAddress(0x100_3801) });
    // a larger size: candidates are whole multiples of the rounded size above the base
    let third = inner.alloc_page_range(false, 0x3000, flags, &mut memory, &mut allocator).unwrap();
    assert_eq!(third, Range { start: VirtualAddress(0x100_6000), end: VirtualAddress(0x100_9000) });
    let segments = &inner.memory_set.segments;
    assert_eq!(segments.len(), 3);
    assert_eq!(segments[0].range.end, VirtualAddress(0x100_2000));
    assert_eq!(segments[0].map_type, MapType::Framed);
    assert_eq!(segments[0].flags.bits(), Flags::READABLE | Flags::WRITABLE | Flags::USER);
    assert_eq!(segments[2].flags.bits(), Flags::READABLE | Flags::WRITABLE);
    let entry = inner.memory_set.mapping.entry(VirtualPageNumber(0x1001), &memory);
    assert_eq!(entry.flags().bits(), 0b1_0111);
}

#[test]
fn a_process_range_fails_when_the_frames_do_not_last() {
    let (mut memory, mut allocator) = machine(4);
    let set = MemorySet::new(&mut memory, &mut allocator).unwrap();
    let mut inner = ProcessInner { memory_set: set };
    let r = inner.alloc_page_range(false, 0x4000, Flags::from_bits(2), &mut memory, &mut allocator);
    assert_eq!(r, Err(MemoryError::FrameExhausted));
    assert!(inner.memory_set.segments.is_empty());
}

#[test]
fn a_process_range_larger_than_the_address_space_is_refused() {
    let (mut memory, mut allocator) = machine(4);
    let set = MemorySet::new(&mut memory, &mut allocator).unwrap();
    let mut inner = ProcessInner { memory_set: set };
    let available = allocator.available();
    let r = inner.alloc_page_range(
        false,
        0x80_0000_0000 - 0x100_0000 + 1,
        Flags::from_bits(2),
        &mut memory,
        &mut allocator,
    );
    assert_eq!(r, Err(MemoryError::AddressSpaceExhausted));
    assert_eq!(allocator.available(), available);
    assert!(inner.memory_set.segments.is_empty());
}
