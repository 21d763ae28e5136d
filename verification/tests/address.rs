use mos::address::{PhysicalAddress, PhysicalPageNumber, VirtualAddress, VirtualPageNumber};
use mos::range::Range;

#[test]
fn floor_and_ceil_of_an_unaligned_address() {
    assert_eq!(PhysicalPageNumber::floor(PhysicalAddress(0x8020_0abc)), PhysicalPageNumber(0x80200));
    assert_eq!(PhysicalPageNumber::ceil(PhysicalAddress(0x8020_0abc)), PhysicalPageNumber(0x80201));
    assert_eq!(VirtualPageNumber::floor(VirtualAddress(0x1003)), VirtualPageNumber(1));
    assert_eq!(VirtualPageNumber::ceil(VirtualAddress(0x1ffe)), VirtualPageNumber(2));
}

#[test]
fn floor_and_ceil_agree_on_a_page_boundary() {
    assert_eq!(VirtualPageNumber::floor(VirtualAddress(0x3000)), VirtualPageNumber(3));
    assert_eq!(VirtualPageNumber::ceil(VirtualAddress(0x3000)), VirtualPageNumber(3));
    assert_eq!(PhysicalPageNumber::ceil(PhysicalAddress(0)), PhysicalPageNumber(0));
}

#[test]
fn ceil_of_the_highest_address_does_not_wrap() {
    assert_eq!(
        VirtualPageNumber::ceil(VirtualAddress(u64::MAX)),
        VirtualPageNumber(0x10_0000_0000_0000)
    );
}

#[test]
fn page_number_to_address_shifts_by_twelve() {
    assert_eq!(PhysicalPageNumber(0x80200).address(), PhysicalAddress(0x8020_0000));
    assert_eq!(VirtualPageNumber(0x1234).address(), VirtualAddress(0x123_4000));
}

#[test]
fn page_offset_is_the_low_twelve_bits() {
    assert_eq!(VirtualAddress(0x1234_5678).page_offset(), 0x678);
    assert_eq!(PhysicalAddress(0x8000_0fff).page_offset(), 0xfff);
}

#[test]
fn levels_are_three_nine_bit_indices() {
    // 0b000000101_000000011_000000111
    let vpn = VirtualPageNumber((5 << 18) | (3 << 9) | 7);
    assert_eq!(vpn.levels(), [5, 3, 7]);
    assert_eq!(VirtualPageNumber(0x7ff_ffff).levels(), [511, 511, 511]);
    assert_eq!(VirtualPageNumber(0).levels(), [0, 0, 0]);
}

#[test]
fn levels_ignore_bits_above_the_twenty_seventh() {
    let low = VirtualPageNumber((1 << 18) | (2 << 9) | 3);
    let high = VirtualPageNumber((0xabc << 27) | (1 << 18) | (2 << 9) | 3);
    assert_eq!(low.levels(), high.levels());
}

#[test]
fn page_range_of_an_unaligned_address_range() {
    let range = Range { start: VirtualAddress(0x1003), end: VirtualAddress(0x1ffe) };
    let pages = range.page_range();
    assert_eq!(pages.start, VirtualPageNumber(1));
    assert_eq!(pages.end, VirtualPageNumber(2));
    assert_eq!(pages.len(), 1);
    assert_eq!(range.len(), 0xffb);
}

#[test]
fn ranges_overlap_only_where_they_share_a_page() {
    let a = Range { start: VirtualPageNumber(4), end: VirtualPageNumber(8) };
    let b = Range { start: VirtualPageNumber(8), end: VirtualPageNumber(9) };
    let c = Range { start: VirtualPageNumber(7), end: VirtualPageNumber(9) };
    let empty = Range { start: VirtualPageNumber(5), end: VirtualPageNumber(5) };
    assert!(!a.overlap_with(&b));
    assert!(a.overlap_with(&c));
    assert!(c.overlap_with(&a));
    assert!(!a.overlap_with(&empty));
    assert!(a.contains(VirtualPageNumber(7)));
    assert!(!a.contains(VirtualPageNumber(8)));
    assert_eq!(a.get(2), VirtualPageNumber(6));
}

#[test]
fn addresses_add_offsets_and_subtract_to_distances() {
    assert_eq!(VirtualAddress(0x1000) + 0x234, VirtualAddress(0x1234));
    assert_eq!(VirtualAddress(0x1234) - VirtualAddress(0x1000), 0x234);
    assert_eq!(PhysicalAddress(0x8000_0000) + 8, PhysicalAddress(0x8000_0008));
    assert_eq!(PhysicalAddress(0x8000_0008) - PhysicalAddress(0x8000_0008), 0);
}
