//! The Sv39 page-table entry: one 64-bit word that holds eight flag bits in
//! bits 0 to 7 and a physical page number in bits 10 to 53.

use crate::address::{PhysicalAddress, PhysicalPageNumber};
use crate::bits::{field, fits, get_bits, set_bits, with_field};
use crate::config::PPN_LIMIT;
use vstd::prelude::*;

verus! {

/// The eight flag bits of a page-table entry. The associated constants name
/// the single bits; a set of flags is built from them with `from_bits`.
#[derive(Copy, Clone, Debug, PartialEq, Eq, Hash, Structural)]
pub struct Flags {
    pub bits: u8,
}

impl Flags {
    /// The entry is in use.
    pub const VALID: u8 = 1;

    /// The page may be read.
    pub const READABLE: u8 = 2;

    /// The page may be written.
    pub const WRITABLE: u8 = 4;

    /// Instructions may be fetched from the page.
    pub const EXECUTABLE: u8 = 8;

    /// The page is open to user mode.
    pub const USER: u8 = 16;

    /// The mapping exists in every address space.
    pub const GLOBAL: u8 = 32;

    /// The page has been accessed.
    pub const ACCESSED: u8 = 64;

    /// The page has been written.
    pub const DIRTY: u8 = 128;

    /// No flag at all.
    pub fn empty() -> (r: Flags)
        ensures
            r.bits == 0,
    {
        Flags { bits: 0 }
    }

    /// The flags whose bits are set in `bits`.
    pub fn from_bits(bits: u8) -> (r: Flags)
        ensures
            r.bits == bits,
    {
        Flags { bits }
    }

    /// The flags as a byte.
    pub fn bits(self) -> (r: u8)
        ensures
            r == self.bits,
    {
        self.bits
    }

    /// Whether no flag is set.
    pub fn is_empty(self) -> (r: bool)
        ensures
            r <==> self.bits == 0,
    {
        self.bits == 0
    }

    /// Whether every flag of `other` is set in `self`.
    pub open spec fn spec_contains(self, other: Flags) -> bool {
        self.bits & other.bits == other.bits
    }

    /// Whether every flag of `other` is set in `self`.
    #[verifier::when_used_as_spec(spec_contains)]
    pub fn contains(self, other: Flags) -> (r: bool)
        ensures
            r <==> self.spec_contains(other),
    {
        self.bits & other.bits == other.bits
    }

    /// The flags set in `self` or in `other`.
    pub open spec fn spec_union(self, other: Flags) -> Flags {
        Flags { bits: self.bits | other.bits }
    }

    /// The flags set in `self` or in `other`.
    #[verifier::when_used_as_spec(spec_union)]
    pub fn union(self, other: Flags) -> (r: Flags)
        ensures
            r == self.spec_union(other),
    {
        Flags { bits: self.bits | other.bits }
    }

    /// The flags set in `self` and not in `other`.
    pub open spec fn spec_difference(self, other: Flags) -> Flags {
        Flags { bits: self.bits & !other.bits }
    }

    /// The flags set in `self` and not in `other`.
    #[verifier::when_used_as_spec(spec_difference)]
    pub fn difference(self, other: Flags) -> (r: Flags)
        ensures
            r == self.spec_difference(other),
    {
        Flags { bits: self.bits & !other.bits }
    }

    /// Sets the flags of `other` in `self` where `value` holds, and clears
    /// them where it does not.
    pub fn set(&mut self, other: Flags, value: bool)
        ensures
            *final(self) == if value {
                old(self).spec_union(other)
            } else {
                old(self).spec_difference(other)
            },
    {
        if value {
            self.bits = self.bits | other.bits;
        } else {
            self.bits = self.bits & !other.bits;
        }
    }

    /// `USER` where `value` holds, no flag where it does not.
    pub fn user(value: bool) -> (r: Flags)
        ensures
            r.bits == if value { 16u8 } else { 0u8 },
    {
        if value {
            Flags { bits: Flags::USER }
        } else {
            Flags::empty()
        }
    }

    /// `READABLE` where `value` holds, no flag where it does not.
    pub fn readable(value: bool) -> (r: Flags)
        ensures
            r.bits == if value { 2u8 } else { 0u8 },
    {
        if value {
            Flags { bits: Flags::READABLE }
        } else {
            Flags::empty()
        }
    }

    /// `WRITABLE` where `value` holds, no flag where it does not.
    pub fn writable(value: bool) -> (r: Flags)
        ensures
            r.bits == if value { 4u8 } else { 0u8 },
    {
        if value {
            Flags { bits: Flags::WRITABLE }
        } else {
            Flags::empty()
        }
    }

    /// `EXECUTABLE` where `value` holds, no flag where it does not.
    pub fn executable(value: bool) -> (r: Flags)
        ensures
            r.bits == if value { 8u8 } else { 0u8 },
    {
        if value {
            Flags { bits: Flags::EXECUTABLE }
        } else {
            Flags::empty()
        }
    }
}

impl core::ops::BitOr for Flags {
    type Output = Flags;

    /// The flags set in `self` or in `rhs`.
    fn bitor(self, rhs: Flags) -> (r: Flags) {
        Flags { bits: self.bits | rhs.bits }
    }
}

impl vstd::std_specs::ops::BitOrSpecImpl for Flags {
    open spec fn obeys_bitor_spec() -> bool {
        true
    }

    open spec fn bitor_req(self, rhs: Flags) -> bool {
        true
    }

    open spec fn bitor_spec(self, rhs: Flags) -> Flags {
        self.spec_union(rhs)
    }
}

impl core::ops::Sub for Flags {
    type Output = Flags;

    /// The flags set in `self` and not in `rhs`.
    fn sub(self, rhs: Flags) -> (r: Flags) {
        Flags { bits: self.bits & !rhs.bits }
    }
}

impl vstd::std_specs::ops::SubSpecImpl for Flags {
    open spec fn obeys_sub_spec() -> bool {
        true
    }

    open spec fn sub_req(self, rhs: Flags) -> bool {
        true
    }

    open spec fn sub_spec(self, rhs: Flags) -> Flags {
        self.spec_difference(rhs)
    }
}

impl Default for Flags {
    /// No flag at all.
    fn default() -> (r: Flags)
        ensures
            r.bits == 0,
    {
        Flags { bits: 0 }
    }
}

/// One entry of a page table, as the hardware reads it.
#[derive(Copy, Clone, Debug, PartialEq, Eq, Hash, Structural)]
pub struct PageTableEntry(pub u64);

/// The bits of an entry that hold neither a flag nor the page number: the
/// two bits left to software and the ten above the page number.
pub open spec fn spare_bits(word: u64) -> u64 {
    word & 0xffc0_0000_0000_0300
}

/// Reading the two fields of an entry is masking its low byte and
/// masking the 44 bits above bit 10.
proof fn lemma_read_fields(word: u64)
    by (bit_vector)
    ensures
        field(word, 0, 8) == word & 0xff,
        field(word, 10, 54) == (word >> 10) & 0xfff_ffff_ffff,
        (word >> 10) & 0xfff_ffff_ffff < 0x1000_0000_0000,
        (word & 0xff) as u8 == word & 0xff,
{
}

/// Writing the flag byte and then the page number leaves the spare bits
/// and replaces the rest.
proof fn lemma_write_fields(word: u64, number: u64, flags: u8)
    by (bit_vector)
    requires
        number < 0x1000_0000_0000,
    ensures
        fits(flags as u64, 8),
        fits(number, 44),
        with_field(word, 0, 8, flags as u64) == (word & !0xffu64) | (flags as u64),
        with_field((word & !0xffu64) | (flags as u64), 10, 54, number) == (word
            & 0xffc0_0000_0000_0300) | (number << 10) | (flags as u64),
        (0u64 & 0xffc0_0000_0000_0300) | (number << 10) | (flags as u64) == (number << 10) | (
        flags as u64),
        number == 0 ==> (word & 0xffc0_0000_0000_0300) | (number << 10) | (flags as u64) == (word
            & 0xffc0_0000_0000_0300) | (flags as u64),
        number == 0 ==> (number << 10) | (flags as u64) == flags as u64,
{
}

/// A word put together from spare bits, a page number and a flag byte
/// gives each of the three back.
proof fn lemma_fields_round_trip(word: u64, number: u64, flags: u8)
    by (bit_vector)
    requires
        number < 0x1000_0000_0000,
    ensures
        ({
            let w = (word & 0xffc0_0000_0000_0300) | (number << 10) | (flags as u64);
            &&& (w >> 10) & 0xfff_ffff_ffff == number
            &&& (w & 0xff) as u8 == flags
            &&& w & 0xffc0_0000_0000_0300 == word & 0xffc0_0000_0000_0300
        }),
        ({
            let w = (number << 10) | (flags as u64);
            &&& (w >> 10) & 0xfff_ffff_ffff == number
            &&& (w & 0xff) as u8 == flags
            &&& flags & 1u8 == 1u8 ==> w != 0
        }),
        (flags | 1u8) & 1u8 == 1u8,
{
}

/// The three permission bits of the word are those of its flag byte.
proof fn lemma_leaf_bits(word: u64)
    by (bit_vector)
    ensures
        word & 0xe == 0 <==> !(((word & 0xff) as u8) & 2u8 == 2u8 || ((word & 0xff) as u8) & 4u8
            == 4u8 || ((word & 0xff) as u8) & 8u8 == 8u8),
{
}

impl PageTableEntry {
    /// The physical page number held in bits 10 to 53.
    pub open spec fn spec_page_number(&self) -> PhysicalPageNumber {
        PhysicalPageNumber((self.0 >> 10) & 0xfff_ffff_ffff)
    }

    /// The flag byte held in bits 0 to 7.
    pub open spec fn spec_flags(&self) -> Flags {
        Flags { bits: (self.0 & 0xff) as u8 }
    }

    /// The word that holds `page_number` and `flags`, with `VALID` set where
    /// there is a page number and cleared where there is none.
    pub open spec fn spec_new(page_number: Option<PhysicalPageNumber>, flags: Flags) -> Self {
        match page_number {
            Some(p) => PageTableEntry((p.0 << 10) | ((flags.bits | 1u8) as u64)),
            None => PageTableEntry((flags.bits & !1u8) as u64),
        }
    }

    /// `self` with its page number replaced and `VALID` set to whether there
    /// is one; the other flags and the spare bits stay.
    pub open spec fn spec_update_page_number(self, page_number: Option<PhysicalPageNumber>) -> Self {
        match page_number {
            Some(p) => PageTableEntry(
                spare_bits(self.0) | (p.0 << 10) | ((self.spec_flags().bits | 1u8) as u64),
            ),
            None => PageTableEntry(spare_bits(self.0) | ((self.spec_flags().bits & !1u8) as u64)),
        }
    }

    /// Packs a page number and flags into an entry. `VALID` is set exactly
    /// when a page number is given.
    pub fn new(page_number: Option<PhysicalPageNumber>, flags: Flags) -> (r: Self)
        requires
            page_number matches Some(p) ==> p.0 < PPN_LIMIT,
        ensures
            r == Self::spec_new(page_number, flags),
            page_number matches Some(p) ==> r.spec_page_number() == p && r.spec_flags()
                == flags.spec_union(Flags { bits: Flags::VALID }) && r.0 != 0,
            page_number is None ==> r.spec_page_number().0 == 0 && r.spec_flags()
                == flags.spec_difference(Flags { bits: Flags::VALID }),
    {
        let given = flags;
        let mut flags = flags;
        flags.set(Flags::from_bits(Flags::VALID), page_number.is_some());
        let number: u64 = match page_number {
            Some(p) => p.0,
            None => 0,
        };
        proof {
            lemma_write_fields(0, number, flags.bits);
            lemma_fields_round_trip(0, number, flags.bits);
            lemma_fields_round_trip(0, number, given.bits);
        }
        let word = set_bits(0, 0, 8, flags.bits as u64);
        PageTableEntry(set_bits(word, 10, 54, number))
    }

    /// Replaces the page number in place and sets `VALID` to whether there is
    /// one. The other flags and the spare bits keep their values.
    pub fn update_page_number(&mut self, page_number: Option<PhysicalPageNumber>)
        requires
            page_number matches Some(p) ==> p.0 < PPN_LIMIT,
        ensures
            *final(self) == old(self).spec_update_page_number(page_number),
            spare_bits(final(self).0) == spare_bits(old(self).0),
            page_number matches Some(p)
                ==> final(self).spec_page_number() == p
                    && final(self).spec_flags()
                        == old(self).spec_flags().spec_union(Flags { bits: Flags::VALID }),
            page_number is None
                ==> final(self).spec_page_number().0 == 0
                    && final(self).spec_flags()
                        == old(self).spec_flags().spec_difference(Flags { bits: Flags::VALID }),
    {
        let before = self.flags();
        let (flags, number): (Flags, u64) = match page_number {
            Some(p) => (before | Flags::from_bits(Flags::VALID), p.0),
            None => (before - Flags::from_bits(Flags::VALID), 0),
        };
        proof {
            lemma_write_fields(self.0, number, flags.bits);
            lemma_fields_round_trip(self.0, number, flags.bits);
        }
        let word = set_bits(self.0, 0, 8, flags.bits as u64);
        self.0 = set_bits(word, 10, 54, number);
    }

    /// Zeroes the whole word: the entry is empty afterwards, not only
    /// invalid.
    pub fn clear(&mut self)
        ensures
            final(self).0 == 0,
    {
        self.0 = 0;
    }

    /// The physical page number held in bits 10 to 53.
    #[verifier::when_used_as_spec(spec_page_number)]
    pub fn page_number(&self) -> (r: PhysicalPageNumber)
        ensures
            r == self.spec_page_number(),
            r.0 < PPN_LIMIT,
    {
        proof {
            lemma_read_fields(self.0);
        }
        PhysicalPageNumber(get_bits(self.0, 10, 54))
    }

    /// The address of the first byte of the page that the entry names.
    pub fn address(&self) -> (r: PhysicalAddress)
        ensures
            r.0 == self.spec_page_number().0 * 4096,
    {
        self.page_number().address()
    }

    /// The flag byte held in bits 0 to 7.
    #[verifier::when_used_as_spec(spec_flags)]
    pub fn flags(&self) -> (r: Flags)
        ensures
            r == self.spec_flags(),
    {
        proof {
            lemma_read_fields(self.0);
        }
        Flags::from_bits(get_bits(self.0, 0, 8) as u8)
    }

    /// Whether the word is zero.
    pub open spec fn spec_is_empty(&self) -> bool {
        self.0 == 0
    }

    /// Whether the word is zero: an entry that was never written or was
    /// cleared, as opposed to one that is merely invalid.
    #[verifier::when_used_as_spec(spec_is_empty)]
    pub fn is_empty(&self) -> (r: bool)
        ensures
            r <==> self.0 == 0,
    {
        self.0 == 0
    }

    /// Whether none of the three permission bits is set.
    pub open spec fn spec_has_next_level(&self) -> bool {
        self.0 & 0xe == 0
    }

    /// Whether none of `READABLE`, `WRITABLE` and `EXECUTABLE` is set: the
    /// entry then names a further table and not a page of data.
    #[verifier::when_used_as_spec(spec_has_next_level)]
    pub fn has_next_level(&self) -> (r: bool)
        ensures
            r <==> self.spec_has_next_level(),
    {
        let flags = self.flags();
        proof {
            lemma_leaf_bits(self.0);
        }
        !(flags.contains(Flags::from_bits(Flags::READABLE)) || flags.contains(
            Flags::from_bits(Flags::WRITABLE),
        ) || flags.contains(Flags::from_bits(Flags::EXECUTABLE)))
    }
}

impl Default for PageTableEntry {
    /// The empty entry.
    fn default() -> (r: PageTableEntry)
        ensures
            r.0 == 0,
    {
        PageTableEntry(0)
    }
}

/// An entry built from a page number of at most 44 bits and from flags gives
/// both back, the flags with `VALID` added, and is not empty.
pub proof fn lemma_new_round_trip(page_number: PhysicalPageNumber, flags: Flags)
    requires
        page_number.0 < PPN_LIMIT,
    ensures
        PageTableEntry::spec_new(Some(page_number), flags).spec_page_number() == page_number,
        PageTableEntry::spec_new(Some(page_number), flags).spec_flags() == flags.spec_union(
            Flags { bits: Flags::VALID },
        ),
        !PageTableEntry::spec_new(Some(page_number), flags).spec_is_empty(),
{
    lemma_fields_round_trip(0, page_number.0, flags.bits);
    lemma_fields_round_trip(0, page_number.0, flags.bits | 1u8);
}

} // verus!
