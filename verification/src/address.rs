//! Physical and virtual addresses, and the page numbers they fall into.

use crate::bits::{field, get_bits};
use vstd::prelude::*;

verus! {

/// A byte address in physical memory.
#[derive(Copy, Clone, Debug, PartialEq, Eq, PartialOrd, Ord, Hash, Structural)]
pub struct PhysicalAddress(pub u64);

/// A byte address in a virtual address space.
#[derive(Copy, Clone, Debug, PartialEq, Eq, PartialOrd, Ord, Hash, Structural)]
pub struct VirtualAddress(pub u64);

/// The number of a physical frame: its address divided by the page size.
#[derive(Copy, Clone, Debug, PartialEq, Eq, PartialOrd, Ord, Hash, Structural)]
pub struct PhysicalPageNumber(pub u64);

/// The number of a virtual page: its address divided by the page size.
#[derive(Copy, Clone, Debug, PartialEq, Eq, PartialOrd, Ord, Hash, Structural)]
pub struct VirtualPageNumber(pub u64);

/// `x / 4096`, rounded up.
pub open spec fn pages_up(x: int) -> int {
    (x + 4095) / 4096
}

/// Shifting by twelve bits is dividing and multiplying by the page size,
/// and masking with the low twelve bits is the remainder.
pub proof fn lemma_shift_is_division(x: u64)
    ensures
        x >> 12 == x / 4096,
        x & 0xfff == x % 4096,
        x < 0x10_0000_0000_0000 ==> x << 12 == x * 4096,
{
    assert(x >> 12 == x / 4096) by (bit_vector);
    assert(x & 0xfff == x % 4096) by (bit_vector);
    assert(x < 0x10_0000_0000_0000 ==> x << 12 == x * 4096) by (bit_vector);
}

impl PhysicalAddress {
    /// Offset of the address inside its frame.
    pub fn page_offset(self) -> (r: usize)
        ensures
            r == self.0 % 4096,
    {
        proof {
            lemma_shift_is_division(self.0);
        }
        (self.0 & 0xfff) as usize
    }
}

impl VirtualAddress {
    /// Offset of the address inside its page.
    pub fn page_offset(self) -> (r: usize)
        ensures
            r == self.0 % 4096,
    {
        proof {
            lemma_shift_is_division(self.0);
        }
        (self.0 & 0xfff) as usize
    }
}

impl core::ops::Add<u64> for PhysicalAddress {
    type Output = PhysicalAddress;

    /// The address `rhs` bytes further on.
    fn add(self, rhs: u64) -> (r: PhysicalAddress) {
        PhysicalAddress(self.0 + rhs)
    }
}

impl vstd::std_specs::ops::AddSpecImpl<u64> for PhysicalAddress {
    open spec fn obeys_add_spec() -> bool {
        true
    }

    open spec fn add_req(self, rhs: u64) -> bool {
        self.0 + rhs <= u64::MAX
    }

    open spec fn add_spec(self, rhs: u64) -> PhysicalAddress {
        PhysicalAddress((self.0 + rhs) as u64)
    }
}

impl core::ops::Sub for PhysicalAddress {
    type Output = u64;

    /// The number of bytes from `rhs` up to `self`.
    fn sub(self, rhs: PhysicalAddress) -> (r: u64) {
        self.0 - rhs.0
    }
}

impl vstd::std_specs::ops::SubSpecImpl for PhysicalAddress {
    open spec fn obeys_sub_spec() -> bool {
        true
    }

    open spec fn sub_req(self, rhs: PhysicalAddress) -> bool {
        rhs.0 <= self.0
    }

    open spec fn sub_spec(self, rhs: PhysicalAddress) -> u64 {
        (self.0 - rhs.0) as u64
    }
}

impl core::ops::Add<u64> for VirtualAddress {
    type Output = VirtualAddress;

    /// The address `rhs` bytes further on.
    fn add(self, rhs: u64) -> (r: VirtualAddress) {
        VirtualAddress(self.0 + rhs)
    }
}

impl vstd::std_specs::ops::AddSpecImpl<u64> for VirtualAddress {
    open spec fn obeys_add_spec() -> bool {
        true
    }

    open spec fn add_req(self, rhs: u64) -> bool {
        self.0 + rhs <= u64::MAX
    }

    open spec fn add_spec(self, rhs: u64) -> VirtualAddress {
        VirtualAddress((self.0 + rhs) as u64)
    }
}

impl core::ops::Sub for VirtualAddress {
    type Output = u64;

    /// The number of bytes from `rhs` up to `self`.
    fn sub(self, rhs: VirtualAddress) -> (r: u64) {
        self.0 - rhs.0
    }
}

impl vstd::std_specs::ops::SubSpecImpl for VirtualAddress {
    open spec fn obeys_sub_spec() -> bool {
        true
    }

    open spec fn sub_req(self, rhs: VirtualAddress) -> bool {
        rhs.0 <= self.0
    }

    open spec fn sub_spec(self, rhs: VirtualAddress) -> u64 {
        (self.0 - rhs.0) as u64
    }
}

impl PhysicalPageNumber {
    /// The frame that `address` lies in.
    pub fn floor(address: PhysicalAddress) -> (r: Self)
        ensures
            r.0 == address.0 / 4096,
    {
        proof {
            lemma_shift_is_division(address.0);
        }
        PhysicalPageNumber(address.0 >> 12)
    }

    /// The first frame that starts at or after `address`.
    pub fn ceil(address: PhysicalAddress) -> (r: Self)
        ensures
            r.0 == pages_up(address.0 as int),
    {
        proof {
            lemma_shift_is_division(address.0);
        }
        if address.0 & 0xfff == 0 {
            PhysicalPageNumber(address.0 >> 12)
        } else {
            PhysicalPageNumber((address.0 >> 12) + 1)
        }
    }

    /// The address of the frame's first byte. Page numbers of 52 bits and
    /// more have no address in a 64-bit word; their top bits are shifted out.
    pub open spec fn spec_address(self) -> PhysicalAddress {
        PhysicalAddress(self.0 << 12)
    }

    /// The address of the frame's first byte.
    #[verifier::when_used_as_spec(spec_address)]
    pub fn address(self) -> (r: PhysicalAddress)
        ensures
            r == self.spec_address(),
            self.0 < 0x10_0000_0000_0000 ==> r.0 == self.0 * 4096,
    {
        proof {
            lemma_shift_is_division(self.0);
        }
        PhysicalAddress(self.0 << 12)
    }
}

impl VirtualPageNumber {
    /// The page that `address` lies in.
    pub fn floor(address: VirtualAddress) -> (r: Self)
        ensures
            r.0 == address.0 / 4096,
    {
        proof {
            lemma_shift_is_division(address.0);
        }
        VirtualPageNumber(address.0 >> 12)
    }

    /// The first page that starts at or after `address`.
    pub fn ceil(address: VirtualAddress) -> (r: Self)
        ensures
            r.0 == pages_up(address.0 as int),
    {
        proof {
            lemma_shift_is_division(address.0);
        }
        if address.0 & 0xfff == 0 {
            VirtualPageNumber(address.0 >> 12)
        } else {
            VirtualPageNumber((address.0 >> 12) + 1)
        }
    }

    /// The address of the page's first byte.
    pub open spec fn spec_address(self) -> VirtualAddress {
        VirtualAddress(self.0 << 12)
    }

    /// The address of the page's first byte.
    #[verifier::when_used_as_spec(spec_address)]
    pub fn address(self) -> (r: VirtualAddress)
        ensures
            r == self.spec_address(),
            self.0 < 0x10_0000_0000_0000 ==> r.0 == self.0 * 4096,
    {
        proof {
            lemma_shift_is_division(self.0);
        }
        VirtualAddress(self.0 << 12)
    }

    /// Index of this page in the table of the given level: level 0 is the
    /// root table, level 2 the table that holds the page's own entry. Only
    /// the low 27 bits of a page number take part.
    pub open spec fn level(self, level: int) -> int {
        if level == 0 {
            (self.0 as int / 0x40000) % 512
        } else if level == 1 {
            (self.0 as int / 512) % 512
        } else {
            self.0 as int % 512
        }
    }

    /// The page number with everything above its low 27 bits dropped: what
    /// the three table indices are taken from.
    pub open spec fn index(self) -> int {
        self.0 as int % 0x800_0000
    }

    /// The three table indices of this page, root table first.
    pub fn levels(self) -> (r: [usize; 3])
        ensures
            r[0] == self.level(0),
            r[1] == self.level(1),
            r[2] == self.level(2),
            r[0] < 512,
            r[1] < 512,
            r[2] < 512,
    {
        let v = self.0;
        assert(field(v, 18, 27) == (v / 0x40000) % 512) by (bit_vector);
        assert(field(v, 9, 18) == (v / 512) % 512) by (bit_vector);
        assert(field(v, 0, 9) == v % 512) by (bit_vector);
        [get_bits(v, 18, 27) as usize, get_bits(v, 9, 18) as usize, get_bits(v, 0, 9) as usize]
    }
}

} // verus!
