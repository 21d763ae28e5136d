//! Address translation as the hardware does it: a walk through the page
//! tables from the root that the root-table register names.

use crate::address::{PhysicalAddress, PhysicalPageNumber, VirtualAddress, VirtualPageNumber};
use crate::config::{PPN_LIMIT, SATP_MODE_SV39};
use crate::mapping::mapping::Mapping;
use crate::mapping::page_table_entry::PageTableEntry;
use crate::mapping::walk::{lemma_levels_in_range, lemma_pointer, table1, table2};
use crate::memory::PhysicalMemory;
use vstd::prelude::*;

verus! {

/// The word that selects the three-level scheme with the root table in
/// frame `root`: the page number with the mode tag in the top four bits.
pub open spec fn satp_of(root: PhysicalPageNumber) -> u64 {
    root.0 | (SATP_MODE_SV39 << 60)
}

/// The frame of the root table that a register word names: the word with
/// the mode tag of the three-level scheme taken out.
pub open spec fn root_of(satp: u64) -> PhysicalPageNumber {
    PhysicalPageNumber(satp ^ (SATP_MODE_SV39 << 60))
}

/// How many low bits of an address a leaf found at `level` leaves alone: 12
/// for a page, and 9 more for each level that was not descended.
pub open spec fn offset_bits(level: int) -> int {
    12 + 9 * (2 - level)
}

/// The address that a leaf `entry` found at `level` gives to `va`: the
/// start of the entry's frame with the low bits of `va` or-ed in.
pub open spec fn leaf_address(
    entry: PageTableEntry,
    va: VirtualAddress,
    level: int,
) -> PhysicalAddress {
    let base = entry.spec_page_number().0 << 12;
    if level <= 0 {
        PhysicalAddress(base | (va.0 & 0x3fff_ffff))
    } else if level == 1 {
        PhysicalAddress(base | (va.0 & 0x1f_ffff))
    } else {
        PhysicalAddress(base | (va.0 & 0xfff))
    }
}

/// The translation of `va` that starts at `entry`, which was read from a
/// table of `level`: none where the entry is empty; the walk through the
/// table below where the entry is a pointer and a level is left; the
/// entry's own frame otherwise. A pointer to a frame outside of `memory`
/// translates nothing.
pub open spec fn resolve(
    memory: &PhysicalMemory,
    entry: PageTableEntry,
    va: VirtualAddress,
    level: int,
) -> Option<PhysicalAddress>
    decreases 2 - level,
{
    if entry.spec_is_empty() {
        None
    } else if level < 2 && entry.spec_has_next_level() {
        if memory.contains_page(entry.spec_page_number()) {
            resolve(
                memory,
                PageTableEntry(
                    memory.entry(
                        entry.spec_page_number(),
                        VirtualPageNumber((va.0 / 4096) as u64).level(level + 1),
                    ),
                ),
                va,
                level + 1,
            )
        } else {
            None
        }
    } else {
        Some(leaf_address(entry, va, level))
    }
}

/// The physical address that `va` translates to under the root table in
/// frame `root`.
pub open spec fn translate(
    memory: &PhysicalMemory,
    root: PhysicalPageNumber,
    va: VirtualAddress,
) -> Option<PhysicalAddress> {
    if memory.contains_page(root) {
        resolve(
            memory,
            PageTableEntry(memory.entry(root, VirtualPageNumber((va.0 / 4096) as u64).level(0))),
            va,
            0,
        )
    } else {
        None
    }
}

impl Mapping {
    /// Translates `va` by a walk from the root table that the register word
    /// `satp` names: down while the entries are pointers, to a leaf or to an
    /// empty entry. Gives the physical address where a leaf is found, also
    /// where the leaf stands above the last level and maps a larger page, and
    /// nothing where the walk ends at an empty entry or leaves `memory`.
    pub fn lookup(memory: &PhysicalMemory, satp: u64, va: VirtualAddress) -> (r: Option<
        PhysicalAddress,
    >)
        requires
            memory.wf(),
        ensures
            r == translate(memory, root_of(satp), va),
    {
        let root = PhysicalPageNumber(satp ^ (SATP_MODE_SV39 << 60));
        if !memory.has_page(root) {
            return None;
        }
        let vpn = VirtualPageNumber::floor(va);
        proof {
            lemma_levels_in_range(vpn);
        }
        let levels = vpn.levels();
        let mut entry = memory.read_entry(root, levels[0]);
        let mut length: u64 = 12 + 2 * 9;
        let mut level: usize = 0;
        while level < 2
            invariant
                level <= 2,
                memory.wf(),
                vpn.0 == va.0 / 4096,
                levels[0] == vpn.level(0),
                levels[1] == vpn.level(1),
                levels[2] == vpn.level(2),
                levels[1] < 512,
                levels[2] < 512,
                length == offset_bits(level as int),
                translate(memory, root_of(satp), va) == resolve(memory, entry, va, level as int),
            ensures
                level <= 2,
                length == offset_bits(level as int),
                translate(memory, root_of(satp), va) == resolve(memory, entry, va, level as int),
                level < 2 ==> !entry.spec_is_empty() && !entry.spec_has_next_level(),
            decreases 2 - level,
        {
            if entry.is_empty() {
                return None;
            }
            if entry.has_next_level() {
                let table = entry.page_number();
                if !memory.has_page(table) {
                    return None;
                }
                length -= 9;
                entry = memory.read_entry(table, levels[level + 1]);
            } else {
                break ;
            }
            level += 1;
        }
        if entry.is_empty() {
            return None;
        }
        let base: u64 = entry.page_number().address().0;
        proof {
            assert((1u64 << 30u64) - 1 == 0x3fff_ffff && (1u64 << 21u64) - 1 == 0x1f_ffff && (1u64
                << 12u64) - 1 == 0xfff) by (bit_vector);
        }
        let offset: u64 = va.0 & ((1u64 << length) - 1);
        Some(PhysicalAddress(base | offset))
    }
}

/// The register word of a root names that root again.
pub proof fn lemma_root_of_satp(root: PhysicalPageNumber)
    requires
        root.0 < PPN_LIMIT,
    ensures
        root_of(satp_of(root)) == root,
{
    let n = root.0;
    assert((n | (8u64 << 60)) ^ (8u64 << 60) == n) by (bit_vector)
        requires
            n < 0x1000_0000_0000,
    ;
}

/// An address in a page that has an entry translates to the frame that the
/// entry names, at the same offset in the page: the translation's page
/// number is the entry's, and its low 12 bits are those of the address.
pub proof fn lemma_lookup_finds_mapped_page(
    mapping: &Mapping,
    memory: &PhysicalMemory,
    va: VirtualAddress,
)
    requires
        mapping.tree_in(memory),
        !mapping.leaf(memory, VirtualPageNumber((va.0 / 4096) as u64)).spec_is_empty(),
    ensures
        translate(memory, mapping.spec_root(), va) matches Some(pa) && pa.0 / 4096 == mapping.leaf(
            memory,
            VirtualPageNumber((va.0 / 4096) as u64),
        ).spec_page_number().0 && pa.0 % 4096 == va.0 % 4096,
        root_of(satp_of(mapping.spec_root())) == mapping.spec_root(),
{
    mapping.lemma_tree_in(memory);
    let root = mapping.spec_root();
    let tables = mapping.tables();
    let vpn = VirtualPageNumber((va.0 / 4096) as u64);
    let a = vpn.level(0);
    let b = vpn.level(1);
    let c = vpn.level(2);
    lemma_levels_in_range(vpn);
    lemma_root_of_satp(root);
    let middle = table1(memory, root, a).unwrap();
    let last = table2(memory, root, a, b).unwrap();
    lemma_pointer(middle);
    lemma_pointer(last);
    let e0 = PageTableEntry(memory.entry(root, a));
    let e1 = PageTableEntry(memory.entry(middle, b));
    let e2 = PageTableEntry(memory.entry(last, c));
    assert(e0.0 == crate::mapping::walk::pointer(middle));
    assert(e1.0 == crate::mapping::walk::pointer(last));
    assert(e2 == mapping.leaf(memory, vpn));
    reveal_with_fuel(resolve, 4);
    assert(resolve(memory, e2, va, 2) == Some(leaf_address(e2, va, 2)));
    assert(resolve(memory, e1, va, 1) == resolve(memory, e2, va, 2));
    assert(resolve(memory, e0, va, 0) == resolve(memory, e1, va, 1));
    let n = e2.spec_page_number().0;
    let x = va.0;
    assert(n == (e2.0 >> 10) & 0xfff_ffff_ffff);
    let w = e2.0;
    assert(((((w >> 10) & 0xfff_ffff_ffff) << 12) | (x & 0xfff)) / 4096 == (w >> 10)
        & 0xfff_ffff_ffff && ((((w >> 10) & 0xfff_ffff_ffff) << 12) | (x & 0xfff)) % 4096 == x
        % 4096) by (bit_vector);
}

} // verus!
