use mos::address::{PhysicalAddress, PhysicalPageNumber};
use mos::error::MemoryError;
use mos::frame::FrameAllocator;

#[test]
fn frames_come_in_ascending_order_from_a_fresh_pool() {
    let mut allocator = FrameAllocator::new(PhysicalPageNumber(0x80300), PhysicalPageNumber(0x80304));
    assert_eq!(allocator.available(), 4);
    assert_eq!(allocator.capacity(), 4);
    assert_eq!(allocator.start(), PhysicalPageNumber(0x80300));
    let first = allocator.allocate().unwrap();
    let second = allocator.allocate().unwrap();
    assert_eq!(first.page_number(), PhysicalPageNumber(0x80300));
    assert_eq!(second.page_number(), PhysicalPageNumber(0x80301));
    assert_eq!(first.address(), PhysicalAddress(0x8030_0000));
    assert_eq!(allocator.available(), 2);
}

#[test]
fn an_exhausted_pool_fails_with_frame_exhausted() {
    let mut allocator = FrameAllocator::new(PhysicalPageNumber(10), PhysicalPageNumber(12));
    let _a = allocator.allocate().unwrap();
    let _b = allocator.allocate().unwrap();
    assert_eq!(allocator.allocate().err(), Some(MemoryError::FrameExhausted));
    assert_eq!(allocator.available(), 0);
}

#[test]
fn an_empty_pool_has_no_frame() {
    let mut allocator = FrameAllocator::new(PhysicalPageNumber(10), PhysicalPageNumber(10));
    assert_eq!(allocator.available(), 0);
    assert!(allocator.allocate().is_err());
}

#[test]
fn a_freed_frame_is_the_next_one_handed_out() {
    let mut allocator = FrameAllocator::new(PhysicalPageNumber(0x100), PhysicalPageNumber(0x104));
    let mut frames = Vec::new();
    while let Ok(frame) = allocator.allocate() {
        frames.push(frame);
    }
    assert_eq!(frames.len(), 4);
    assert_eq!(allocator.available(), 0);
    let freed = frames.remove(1);
    let number = freed.page_number();
    allocator.deallocate(freed);
    assert_eq!(allocator.available(), 1);
    let again = allocator.allocate().unwrap();
    assert_eq!(again.page_number(), number);
    assert_eq!(allocator.available(), 0);
    assert!(allocator.allocate().is_err());
}

#[test]
fn two_frames_allocated_and_freed_come_back_on_the_next_round() {
    let mut allocator = FrameAllocator::new(PhysicalPageNumber(0x500), PhysicalPageNumber(0x600));
    let first = allocator.allocate().unwrap();
    let second = allocator.allocate().unwrap();
    let numbers = (first.page_number(), second.page_number());
    allocator.deallocate(second);
    allocator.deallocate(first);
    let first = allocator.allocate().unwrap();
    let second = allocator.allocate().unwrap();
    assert_eq!((first.page_number(), second.page_number()), numbers);
}

#[test]
fn error_messages_name_the_cause() {
    assert_eq!(MemoryError::FrameExhausted.message(), "no available frame to allocate");
    assert_eq!(MemoryError::SegmentOverlap.message(), "segment overlaps an applied segment");
    assert_eq!(MemoryError::AddressSpaceExhausted.message(), "no free virtual range left");
}
