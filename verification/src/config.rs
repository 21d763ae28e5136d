//! Sizes and addresses that the memory subsystem is built around.

use vstd::prelude::*;

verus! {

/// Size of a page and of a physical frame, in bytes.
pub const PAGE_SIZE: usize = 4096;

/// First physical page number that no entry can hold.
pub const PPN_LIMIT: u64 = 0x1000_0000_0000;

/// First virtual page number outside the three-level scheme.
pub const VPN_LIMIT: u64 = 0x800_0000;

/// First virtual address outside the three-level scheme.
pub const VA_LIMIT: u64 = 0x80_0000_0000;

/// Size of the heap that backs the kernel's own dynamic allocations.
pub const KERNEL_HEAP_SIZE: usize = 0x80_0000;

/// First address of usable physical memory.
pub const MEMORY_START_ADDRESS: u64 = 0x8000_0000;

/// First address past usable physical memory.
pub const MEMORY_END_ADDRESS: u64 = 0x8800_0000;

/// Lowest virtual address at which a process is given fresh pages.
pub const USER_RANGE_BASE: u64 = 0x100_0000;

/// Mode tag of the three-level scheme in the root-table register.
pub const SATP_MODE_SV39: u64 = 8;

} // verus!
