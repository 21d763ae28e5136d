use mos::address::{PhysicalAddress, PhysicalPageNumber};
use mos::mapping::page_table_entry::{Flags, PageTableEntry};

#[test]
fn new_packs_the_page_number_above_bit_ten() {
    let flags = Flags::from_bits(Flags::READABLE | Flags::WRITABLE);
    let entry = PageTableEntry::new(Some(PhysicalPageNumber(0x80200)), flags);
    assert_eq!(entry.0, (0x80200 << 10) | 0b111);
}

#[test]
fn new_round_trips_page_number_and_flags() {
    let numbers = [0u64, 1, 0x80200, 0xfff_ffff_ffff];
    for number in numbers {
        for bits in 0..=255u8 {
            let entry = PageTableEntry::new(Some(PhysicalPageNumber(number)), Flags::from_bits(bits));
            assert_eq!(entry.page_number(), PhysicalPageNumber(number));
            assert_eq!(entry.flags(), Flags::from_bits(bits | Flags::VALID));
            assert!(!entry.is_empty());
        }
    }
}

#[test]
fn new_without_page_number_clears_valid() {
    let entry = PageTableEntry::new(None, Flags::from_bits(Flags::VALID | Flags::USER));
    assert_eq!(entry.0, 0b1_0000);
    assert_eq!(entry.flags(), Flags::from_bits(Flags::USER));
    assert_eq!(entry.page_number(), PhysicalPageNumber(0));
    let nothing = PageTableEntry::new(None, Flags::from_bits(Flags::VALID));
    assert!(nothing.is_empty());
}

#[test]
fn the_widest_page_number_stays_below_bit_fifty_four() {
    let entry = PageTableEntry::new(Some(PhysicalPageNumber(0xfff_ffff_ffff)), Flags::empty());
    assert_eq!(entry.0, 0x003f_ffff_ffff_fc01);
}

#[test]
fn update_page_number_keeps_flags_and_spare_bits() {
    let mut entry = PageTableEntry(0xffc0_0000_0000_0300 | (0x123 << 10) | 0b1100_1110);
    entry.update_page_number(Some(PhysicalPageNumber(0x456)));
    assert_eq!(entry.0, 0xffc0_0000_0000_0300 | (0x456 << 10) | 0b1100_1111);
    entry.update_page_number(None);
    assert_eq!(entry.0, 0xffc0_0000_0000_0300 | 0b1100_1110);
    assert_eq!(entry.page_number(), PhysicalPageNumber(0));
}

#[test]
fn clear_zeroes_the_whole_word() {
    let mut entry = PageTableEntry::new(Some(PhysicalPageNumber(7)), Flags::from_bits(Flags::DIRTY));
    entry.clear();
    assert_eq!(entry.0, 0);
    assert!(entry.is_empty());
}

#[test]
fn an_invalid_entry_with_flags_is_not_empty() {
    let entry = PageTableEntry::new(None, Flags::from_bits(Flags::READABLE));
    assert!(!entry.is_empty());
    assert!(!entry.flags().contains(Flags::from_bits(Flags::VALID)));
}

#[test]
fn has_next_level_holds_without_any_permission() {
    let pointer = PageTableEntry::new(Some(PhysicalPageNumber(9)), Flags::from_bits(Flags::VALID));
    assert!(pointer.has_next_level());
    for bit in [Flags::READABLE, Flags::WRITABLE, Flags::EXECUTABLE] {
        let leaf = PageTableEntry::new(Some(PhysicalPageNumber(9)), Flags::from_bits(bit));
        assert!(!leaf.has_next_level());
    }
    let user = PageTableEntry::new(
        Some(PhysicalPageNumber(9)),
        Flags::from_bits(Flags::USER | Flags::GLOBAL | Flags::ACCESSED | Flags::DIRTY),
    );
    assert!(user.has_next_level());
}

#[test]
fn address_is_the_start_of_the_named_frame() {
    let entry = PageTableEntry::new(Some(PhysicalPageNumber(0x80200)), Flags::empty());
    assert_eq!(entry.address(), PhysicalAddress(0x8020_0000));
}

#[test]
fn default_entry_is_empty() {
    assert!(PageTableEntry::default().is_empty());
    assert_eq!(Flags::default(), Flags::empty());
}

#[test]
fn flags_behave_as_a_set_of_bits() {
    let rw = Flags::from_bits(Flags::READABLE).union(Flags::from_bits(Flags::WRITABLE));
    assert_eq!(rw.bits(), 6);
    assert!(rw.contains(Flags::from_bits(Flags::READABLE)));
    assert!(!rw.contains(Flags::from_bits(Flags::EXECUTABLE)));
    assert_eq!(rw.difference(Flags::from_bits(Flags::READABLE)).bits(), 4);
    let mut flags = rw;
    flags.set(Flags::from_bits(Flags::VALID), true);
    assert_eq!(flags.bits(), 7);
    flags.set(Flags::from_bits(Flags::WRITABLE), false);
    assert_eq!(flags.bits(), 3);
    assert!(Flags::empty().is_empty());
}

#[test]
fn flag_constructors_give_one_flag_or_none() {
    assert_eq!(Flags::user(true).bits(), Flags::USER);
    assert_eq!(Flags::user(false).bits(), 0);
    assert_eq!(Flags::readable(true).bits(), Flags::READABLE);
    assert_eq!(Flags::readable(false).bits(), 0);
    assert_eq!(Flags::writable(true).bits(), Flags::WRITABLE);
    assert_eq!(Flags::writable(false).bits(), 0);
    assert_eq!(Flags::executable(true).bits(), Flags::EXECUTABLE);
    assert_eq!(Flags::executable(false).bits(), 0);
}

#[test]
fn flags_combine_with_operators() {
    let read = Flags::from_bits(Flags::READABLE);
    let write = Flags::from_bits(Flags::WRITABLE);
    assert_eq!((read | write).bits(), 6);
    assert_eq!(((read | write) - read).bits(), 4);
    assert_eq!((read - write).bits(), 2);
    assert_eq!((read | Flags::user(true)).bits(), 0b1_0010);
}
