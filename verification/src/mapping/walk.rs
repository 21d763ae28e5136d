//! What a three-level page table in memory means: which tables a root leads
//! to, where the entry of a virtual page lies, and what keeps the tree of
//! tables a tree.

use crate::address::{PhysicalPageNumber, VirtualPageNumber};
use crate::config::{PPN_LIMIT, VPN_LIMIT};
use crate::mapping::page_table_entry::{lemma_new_round_trip, Flags, PageTableEntry};
use crate::memory::PhysicalMemory;
use vstd::prelude::*;

verus! {

/// The place of one page-table entry: the frame of its table and its index
/// there.
#[derive(Copy, Clone, Debug, PartialEq, Eq, Structural)]
pub struct EntrySlot {
    pub table: PhysicalPageNumber,
    pub index: usize,
}

/// The word that links a parent entry to the table in frame `table`: the
/// page number with `VALID` and no permission, which marks a pointer.
pub open spec fn pointer(table: PhysicalPageNumber) -> u64 {
    PageTableEntry::spec_new(Some(table), Flags { bits: Flags::VALID }).0
}

/// The table that entry `index` of the table in frame `table` leads to;
/// none where the entry is empty.
pub open spec fn child(
    memory: &PhysicalMemory,
    table: PhysicalPageNumber,
    index: int,
) -> Option<PhysicalPageNumber> {
    if memory.entry(table, index) == 0 {
        None
    } else {
        Some(PageTableEntry(memory.entry(table, index)).spec_page_number())
    }
}

/// The second-level table under entry `a` of the root.
pub open spec fn table1(
    memory: &PhysicalMemory,
    root: PhysicalPageNumber,
    a: int,
) -> Option<PhysicalPageNumber> {
    child(memory, root, a)
}

/// The third-level table under entry `a` of the root and entry `b` of the
/// table below it.
pub open spec fn table2(
    memory: &PhysicalMemory,
    root: PhysicalPageNumber,
    a: int,
    b: int,
) -> Option<PhysicalPageNumber> {
    match child(memory, root, a) {
        Some(t) => child(memory, t, b),
        None => None,
    }
}

/// Where the entry of page `vpn` lies; nowhere while a table on the way to
/// it is missing.
pub open spec fn slot_of(
    memory: &PhysicalMemory,
    root: PhysicalPageNumber,
    vpn: VirtualPageNumber,
) -> Option<EntrySlot> {
    match table2(memory, root, vpn.level(0), vpn.level(1)) {
        Some(t) => Some(EntrySlot { table: t, index: vpn.level(2) as usize }),
        None => None,
    }
}

/// The entry of page `vpn`; the empty entry while a table on the way to it
/// is missing.
pub open spec fn leaf_of(
    memory: &PhysicalMemory,
    root: PhysicalPageNumber,
    vpn: VirtualPageNumber,
) -> PageTableEntry {
    match table2(memory, root, vpn.level(0), vpn.level(1)) {
        Some(t) => PageTableEntry(memory.entry(t, vpn.level(2))),
        None => PageTableEntry(0),
    }
}

/// How many tables are missing on the way to the entry of page `vpn`.
pub open spec fn missing_tables(
    memory: &PhysicalMemory,
    root: PhysicalPageNumber,
    vpn: VirtualPageNumber,
) -> int {
    if table1(memory, root, vpn.level(0)) is None {
        2
    } else if table2(memory, root, vpn.level(0), vpn.level(1)) is None {
        1
    } else {
        0
    }
}

/// Whether the tables of `memory` are those of `before` after a walk to the
/// entry of `vpn` that made `count` tables: no table went away or changed
/// its place, and none came but on the way to that entry, the upper one
/// first.
pub open spec fn tables_walked(
    before: &PhysicalMemory,
    memory: &PhysicalMemory,
    root: PhysicalPageNumber,
    vpn: VirtualPageNumber,
    count: int,
) -> bool {
    let need = missing_tables(before, root, vpn);
    &&& forall|c: int|
        0 <= c < 512 && (c != vpn.level(0) || need < 2) ==> #[trigger] table1(memory, root, c)
            == table1(before, root, c)
    &&& forall|c: int, d: int|
        0 <= c < 512 && 0 <= d < 512 && (c != vpn.level(0) || d != vpn.level(1) || need < 1)
            ==> #[trigger] table2(memory, root, c, d) == table2(before, root, c, d)
    &&& need == 2 ==> (table1(memory, root, vpn.level(0)) is Some <==> count >= 1)
    &&& need >= 1 ==> (table2(memory, root, vpn.level(0), vpn.level(1)) is Some <==> count == need)
}

/// How many tables the mapping of page `vpn` makes when the pages from
/// `first` up to it are mapped in order, counted on the tables that were
/// there before the first of them: a table is made for the first page that
/// needs it, which is page `first` or the page that starts the table's span.
pub open spec fn page_cost(
    before: &PhysicalMemory,
    root: PhysicalPageNumber,
    first: int,
    vpn: VirtualPageNumber,
) -> int {
    (if (vpn.0 == first || vpn.0 % 0x40000 == 0) && table1(before, root, vpn.level(0)) is None {
        1int
    } else {
        0int
    }) + (if (vpn.0 == first || vpn.0 % 512 == 0) && table2(
        before,
        root,
        vpn.level(0),
        vpn.level(1),
    ) is None {
        1int
    } else {
        0int
    })
}

/// How many tables the mapping of the `count` pages from `first` on makes.
pub open spec fn tables_needed(
    before: &PhysicalMemory,
    root: PhysicalPageNumber,
    first: int,
    count: int,
) -> int
    decreases count,
{
    if count <= 0 {
        0
    } else {
        tables_needed(before, root, first, count - 1) + page_cost(
            before,
            root,
            first,
            VirtualPageNumber((first + count - 1) as u64),
        )
    }
}

/// Mapping more pages never takes fewer tables.
pub proof fn lemma_tables_needed_grows(
    before: &PhysicalMemory,
    root: PhysicalPageNumber,
    first: int,
    count: int,
    more: int,
)
    requires
        0 <= count <= more,
    ensures
        0 <= tables_needed(before, root, first, count) <= tables_needed(before, root, first, more),
    decreases more,
{
    if more > 0 {
        if count < more {
            lemma_tables_needed_grows(before, root, first, count, more - 1);
        } else {
            lemma_tables_needed_grows(before, root, first, count - 1, more - 1);
        }
    }
}

/// Whether the tables of `memory` are those of `before` after the pages
/// from `first` up to, and not including, `next` were mapped in order: the
/// tables of `before` are all there; beyond the spans of the mapped pages
/// nothing has come; and the tables of the last mapped page are there.
pub open spec fn tables_after_pages(
    before: &PhysicalMemory,
    memory: &PhysicalMemory,
    root: PhysicalPageNumber,
    first: int,
    next: int,
) -> bool {
    &&& forall|c: int|
        0 <= c < 512 && (next == first || c > (next - 1) / 0x40000) ==> #[trigger] table1(
            memory,
            root,
            c,
        ) == table1(before, root, c)
    &&& forall|c: int, d: int|
        0 <= c < 512 && 0 <= d < 512 && (next == first || c * 512 + d > (next - 1) / 512)
            ==> #[trigger] table2(memory, root, c, d) == table2(before, root, c, d)
    &&& forall|c: int|
        0 <= c < 512 && table1(before, root, c) is Some ==> #[trigger] table1(memory, root, c)
            == table1(before, root, c)
    &&& forall|c: int, d: int|
        0 <= c < 512 && 0 <= d < 512 && table2(before, root, c, d) is Some ==> #[trigger] table2(
            memory,
            root,
            c,
            d,
        ) == table2(before, root, c, d)
    &&& next > first ==> table2(
        memory,
        root,
        ((next - 1) / 0x40000) % 512,
        ((next - 1) / 512) % 512,
    ) is Some
}

/// With the pages from `first` up to `vpn` mapped in order, the tables that
/// are missing on the way to the entry of `vpn` are those that `page_cost`
/// counts.
pub proof fn lemma_page_cost(
    before: &PhysicalMemory,
    memory: &PhysicalMemory,
    root: PhysicalPageNumber,
    first: int,
    vpn: VirtualPageNumber,
)
    requires
        0 <= first <= vpn.0 < VPN_LIMIT,
        tables_after_pages(before, memory, root, first, vpn.0 as int),
    ensures
        missing_tables(memory, root, vpn) == page_cost(before, root, first, vpn),
{
    let v = vpn.0 as int;
    let a = vpn.level(0);
    let b = vpn.level(1);
    assert(a == v / 0x40000 && a * 512 + b == v / 512);
    if v > first {
        let pa = ((v - 1) / 0x40000) % 512;
        let pb = ((v - 1) / 512) % 512;
        assert(pa == (v - 1) / 0x40000 && pa * 512 + pb == (v - 1) / 512);
        assert(table2(memory, root, pa, pb) is Some);
        assert(table1(memory, root, pa) is Some);
        if v % 512 != 0 {
            assert((v - 1) / 512 == v / 512);
            assert(pa == a && pb == b);
        } else {
            assert((v - 1) / 512 < v / 512);
            assert(table2(memory, root, a, b) == table2(before, root, a, b));
        }
        if v % 0x40000 != 0 {
            assert((v - 1) / 0x40000 == v / 0x40000);
            assert(pa == a);
        } else {
            assert((v - 1) / 0x40000 < v / 0x40000);
            assert(table1(memory, root, a) == table1(before, root, a));
        }
    } else {
        assert(table1(memory, root, a) == table1(before, root, a));
        assert(table2(memory, root, a, b) == table2(before, root, a, b));
    }
}

/// Mapping page `vpn` after the pages from `first` up to it gives the
/// tables after the pages from `first` up to the one after `vpn`.
pub proof fn lemma_page_mapped(
    before: &PhysicalMemory,
    m1: &PhysicalMemory,
    m2: &PhysicalMemory,
    root: PhysicalPageNumber,
    first: int,
    vpn: VirtualPageNumber,
)
    requires
        0 <= first <= vpn.0 < VPN_LIMIT,
        tables_after_pages(before, m1, root, first, vpn.0 as int),
        tables_walked(m1, m2, root, vpn, missing_tables(m1, root, vpn)),
    ensures
        tables_after_pages(before, m2, root, first, vpn.0 + 1),
{
    let v = vpn.0 as int;
    let a = vpn.level(0);
    let b = vpn.level(1);
    let need = missing_tables(m1, root, vpn);
    assert(a == v / 0x40000 && a * 512 + b == v / 512);
    assert(a == (v / 0x40000) % 512 && b == (v / 512) % 512);
    if v > first {
        assert((v - 1) / 0x40000 <= v / 0x40000);
        assert((v - 1) / 512 <= v / 512);
    }
    assert forall|c: int| 0 <= c < 512 && c > v / 0x40000 implies #[trigger] table1(m2, root, c)
        == table1(before, root, c) by {
        assert(table1(m2, root, c) == table1(m1, root, c));
    }
    assert forall|c: int, d: int|
        0 <= c < 512 && 0 <= d < 512 && c * 512 + d > v / 512 implies #[trigger] table2(
        m2,
        root,
        c,
        d,
    ) == table2(before, root, c, d) by {
        assert(table2(m2, root, c, d) == table2(m1, root, c, d));
    }
    assert forall|c: int| 0 <= c < 512 && table1(before, root, c) is Some implies #[trigger] table1(
        m2,
        root,
        c,
    ) == table1(before, root, c) by {
        assert(table1(m1, root, c) == table1(before, root, c));
        assert(table1(m2, root, c) == table1(m1, root, c));
    }
    assert forall|c: int, d: int|
        0 <= c < 512 && 0 <= d < 512 && table2(before, root, c, d) is Some
            implies #[trigger] table2(
        m2,
        root,
        c,
        d,
    ) == table2(before, root, c, d) by {
        assert(table2(m1, root, c, d) == table2(before, root, c, d));
        assert(table2(m2, root, c, d) == table2(m1, root, c, d));
    }
    if need == 0 {
        assert(table2(m2, root, a, b) == table2(m1, root, a, b));
    }
}

/// A change of memory that leaves every table where it is leaves the tables
/// after the mapped pages as they are.
pub proof fn lemma_pages_untouched(
    before: &PhysicalMemory,
    m1: &PhysicalMemory,
    m2: &PhysicalMemory,
    root: PhysicalPageNumber,
    first: int,
    next: int,
)
    requires
        tables_after_pages(before, m1, root, first, next),
        forall|a: int| 0 <= a < 512 ==> #[trigger] table1(m2, root, a) == table1(m1, root, a),
        forall|a: int, b: int|
            0 <= a < 512 && 0 <= b < 512 ==> #[trigger] table2(m2, root, a, b) == table2(
                m1,
                root,
                a,
                b,
            ),
    ensures
        tables_after_pages(before, m2, root, first, next),
{
    assert forall|c: int|
        0 <= c < 512 && (next == first || c > (next - 1) / 0x40000) implies #[trigger] table1(
        m2,
        root,
        c,
    ) == table1(before, root, c) by {
        assert(table1(m2, root, c) == table1(m1, root, c));
    }
    assert forall|c: int, d: int|
        0 <= c < 512 && 0 <= d < 512 && (next == first || c * 512 + d > (next - 1) / 512)
            implies #[trigger] table2(
        m2,
        root,
        c,
        d,
    ) == table2(before, root, c, d) by {
        assert(table2(m2, root, c, d) == table2(m1, root, c, d));
    }
    assert forall|c: int| 0 <= c < 512 && table1(before, root, c) is Some implies #[trigger] table1(
        m2,
        root,
        c,
    ) == table1(before, root, c) by {
        assert(table1(m2, root, c) == table1(m1, root, c));
    }
    assert forall|c: int, d: int|
        0 <= c < 512 && 0 <= d < 512 && table2(before, root, c, d) is Some
            implies #[trigger] table2(
        m2,
        root,
        c,
        d,
    ) == table2(before, root, c, d) by {
        assert(table2(m2, root, c, d) == table2(m1, root, c, d));
    }
    if next > first {
        let pa = ((next - 1) / 0x40000) % 512;
        let pb = ((next - 1) / 512) % 512;
        assert(table2(m2, root, pa, pb) == table2(m1, root, pa, pb));
    }
}

/// Whether the tables under `root` are those on the way to pages up to
/// `last` and no others: none stands beyond the spans that hold `last`, and
/// the tables of `last` itself are there. A negative `last` stands for no
/// page at all: the root is empty then.
pub open spec fn tables_upto(memory: &PhysicalMemory, root: PhysicalPageNumber, last: int) -> bool {
    &&& forall|c: int|
        0 <= c < 512 && (last < 0 || c > last / 0x40000) ==> (#[trigger] table1(memory, root, c))
            is None
    &&& forall|c: int, d: int|
        0 <= c < 512 && 0 <= d < 512 && (last < 0 || c * 512 + d > last / 512) ==> (
        #[trigger] table2(memory, root, c, d)) is None
    &&& last >= 0 ==> table2(memory, root, (last / 0x40000) % 512, (last / 512) % 512) is Some
}

/// How many tables the mapping of page `v` makes when the pages from
/// `first` up to it are mapped in order and no table stands beyond the
/// spans of `last`, a page below `first` or none: one for each level at
/// which `v` leaves the span of the page mapped just before it.
pub open spec fn fresh_page_cost(last: int, first: int, v: int) -> int {
    let previous = if v > first {
        v - 1
    } else {
        last
    };
    (if previous < 0 || previous / 0x40000 != v / 0x40000 {
        1int
    } else {
        0int
    }) + (if previous < 0 || previous / 512 != v / 512 {
        1int
    } else {
        0int
    })
}

/// How many tables the mapping of the `count` pages from `first` on makes
/// when no table stands beyond the spans of `last`.
pub open spec fn fresh_tables(last: int, first: int, count: int) -> int
    decreases count,
{
    if count <= 0 {
        0
    } else {
        fresh_tables(last, first, count - 1) + fresh_page_cost(last, first, first + count - 1)
    }
}

/// Where no table stands beyond the spans of `last`, the tables that pages
/// above `last` need are counted without a look at memory.
pub proof fn lemma_fresh_tables(
    memory: &PhysicalMemory,
    root: PhysicalPageNumber,
    last: int,
    first: int,
    count: int,
)
    requires
        tables_upto(memory, root, last),
        count > 0 ==> last < first,
        0 <= first,
        0 <= count,
        first + count <= VPN_LIMIT,
    ensures
        tables_needed(memory, root, first, count) == fresh_tables(last, first, count),
    decreases count,
{
    if count > 0 {
        lemma_fresh_tables(memory, root, last, first, count - 1);
        let v = first + count - 1;
        let vpn = VirtualPageNumber(v as u64);
        let a = vpn.level(0);
        let b = vpn.level(1);
        assert(a == v / 0x40000 && a * 512 + b == v / 512);
        if v > first {
            if v % 512 == 0 {
                assert((v - 1) / 512 < v / 512);
            } else {
                assert((v - 1) / 512 == v / 512);
            }
            if v % 0x40000 == 0 {
                assert((v - 1) / 0x40000 < v / 0x40000);
            } else {
                assert((v - 1) / 0x40000 == v / 0x40000);
            }
            if last >= 0 {
                assert(last / 512 <= (v - 1) / 512);
                assert(last / 0x40000 <= (v - 1) / 0x40000);
            }
        } else if last >= 0 {
            let pa = (last / 0x40000) % 512;
            let pb = (last / 512) % 512;
            assert(pa == last / 0x40000 && pa * 512 + pb == last / 512);
            assert(table2(memory, root, pa, pb) is Some);
            assert(table1(memory, root, pa) is Some);
            assert(last / 512 <= v / 512);
            assert(last / 0x40000 <= v / 0x40000);
            if last / 512 == v / 512 {
                assert(pa == a && pb == b);
            }
            if last / 0x40000 == v / 0x40000 {
                assert(pa == a);
            }
        }
    }
}

/// After pages above `last` were mapped in order, no table stands beyond
/// the spans of the last of them.
pub proof fn lemma_tables_upto_after(
    before: &PhysicalMemory,
    memory: &PhysicalMemory,
    root: PhysicalPageNumber,
    last: int,
    first: int,
    count: int,
)
    requires
        tables_upto(before, root, last),
        count > 0 ==> last < first,
        0 <= first,
        0 <= count,
        first + count <= VPN_LIMIT,
        tables_after_pages(before, memory, root, first, first + count),
    ensures
        tables_upto(memory, root, if count > 0 {
            first + count - 1
        } else {
            last
        }),
{
    if count > 0 {
        let end = first + count - 1;
        if last >= 0 {
            assert(last / 512 <= end / 512);
            assert(last / 0x40000 <= end / 0x40000);
        }
        assert forall|c: int| 0 <= c < 512 && c > end / 0x40000 implies (#[trigger] table1(
            memory,
            root,
            c,
        )) is None by {
            assert(table1(memory, root, c) == table1(before, root, c));
        }
        assert forall|c: int, d: int|
            0 <= c < 512 && 0 <= d < 512 && c * 512 + d > end / 512 implies (#[trigger] table2(
            memory,
            root,
            c,
            d,
        )) is None by {
            assert(table2(memory, root, c, d) == table2(before, root, c, d));
        }
    } else {
        assert forall|c: int| 0 <= c < 512 && (last < 0 || c > last / 0x40000) implies (
        #[trigger] table1(memory, root, c)) is None by {
            assert(table1(memory, root, c) == table1(before, root, c));
        }
        assert forall|c: int, d: int|
            0 <= c < 512 && 0 <= d < 512 && (last < 0 || c * 512 + d > last / 512) implies (
        #[trigger] table2(memory, root, c, d)) is None by {
            assert(table2(memory, root, c, d) == table2(before, root, c, d));
        }
        if last >= 0 {
            let pa = (last / 0x40000) % 512;
            let pb = (last / 512) % 512;
            assert(table2(memory, root, pa, pb) == table2(before, root, pa, pb));
        }
    }
}

/// The frames in `tables` hold a tree of page tables under `root`: every
/// entry of the root and of a second-level table is empty or is the pointer
/// to a table in `tables` other than the root, and no table is reached on
/// two ways.
pub open spec fn tree_wf(
    memory: &PhysicalMemory,
    root: PhysicalPageNumber,
    tables: Seq<PhysicalPageNumber>,
) -> bool {
    &&& tables.contains(root)
    &&& forall|t: PhysicalPageNumber|
        tables.contains(t) ==> memory.contains_page(t) && t.0 < PPN_LIMIT
    &&& forall|a: int|
        0 <= a < 512 ==> (#[trigger] table1(memory, root, a) matches Some(t) ==> tables.contains(t)
            && t != root && memory.entry(root, a) == pointer(t))
    &&& forall|a: int, b: int|
        0 <= a < 512 && 0 <= b < 512 ==> (#[trigger] table2(memory, root, a, b) matches Some(t)
            ==> tables.contains(t) && t != root && memory.entry(table1(memory, root, a).unwrap(), b)
            == pointer(t))
    &&& forall|a: int, c: int|
        0 <= a < 512 && 0 <= c < 512 && (#[trigger] table1(memory, root, a)) is Some && table1(
            memory,
            root,
            a,
        ) == (#[trigger] table1(memory, root, c)) ==> a == c
    &&& forall|a: int, b: int, c: int, d: int|
        0 <= a < 512 && 0 <= b < 512 && 0 <= c < 512 && 0 <= d < 512 && (#[trigger] table2(
            memory,
            root,
            a,
            b,
        )) is Some && table2(memory, root, a, b) == (#[trigger] table2(memory, root, c, d)) ==> a
            == c && b == d
    &&& forall|a: int, c: int, d: int|
        0 <= a < 512 && 0 <= c < 512 && 0 <= d < 512 && (#[trigger] table1(memory, root, a))
            is Some ==> table1(memory, root, a) != (#[trigger] table2(memory, root, c, d))
}

/// The three table indices of a page are below 512.
pub proof fn lemma_levels_in_range(vpn: VirtualPageNumber)
    ensures
        0 <= vpn.level(0) < 512,
        0 <= vpn.level(1) < 512,
        0 <= vpn.level(2) < 512,
{
}

/// The table indices of a page are the three base-512 digits of its index,
/// so two pages have the same indices exactly when they have the same index.
pub proof fn lemma_levels_of_index(vpn: VirtualPageNumber)
    ensures
        0 <= vpn.index() < VPN_LIMIT,
        vpn.level(0) == vpn.index() / 0x40000,
        vpn.level(1) == (vpn.index() / 512) % 512,
        vpn.level(2) == vpn.index() % 512,
        vpn.index() == vpn.level(0) * 0x40000 + vpn.level(1) * 512 + vpn.level(2),
        vpn.0 < VPN_LIMIT ==> vpn.index() == vpn.0,
{
    let v = vpn.0;
    assert((v % 0x800_0000) / 0x40000 == (v / 0x40000) % 512 && ((v % 0x800_0000) / 512) % 512 == (
    v / 512) % 512 && (v % 0x800_0000) % 512 == v % 512 && (v % 0x800_0000) == ((v / 0x40000)
        % 512) * 0x40000 + ((v / 512) % 512) * 512 + v % 512) by (bit_vector);
}

/// The entry of a page depends on nothing of the page but its index.
pub proof fn lemma_leaf_by_index(
    memory: &PhysicalMemory,
    root: PhysicalPageNumber,
    v: VirtualPageNumber,
    w: VirtualPageNumber,
)
    requires
        v.index() == w.index(),
    ensures
        leaf_of(memory, root, v) == leaf_of(memory, root, w),
        slot_of(memory, root, v) == slot_of(memory, root, w),
        missing_tables(memory, root, v) == missing_tables(memory, root, w),
{
    lemma_levels_of_index(v);
    lemma_levels_of_index(w);
}

/// A pointer is not the empty word, and names the table it was made for.
pub proof fn lemma_pointer(table: PhysicalPageNumber)
    requires
        table.0 < PPN_LIMIT,
    ensures
        pointer(table) != 0,
        PageTableEntry(pointer(table)).spec_page_number() == table,
        PageTableEntry(pointer(table)).spec_has_next_level(),
{
    lemma_new_round_trip(table, Flags { bits: Flags::VALID });
    let n = table.0;
    assert((((n << 10) | ((1u8 | 1u8) as u64)) & 0xe) == 0) by (bit_vector)
        requires
            n < 0x1000_0000_0000,
    ;
}

/// Changes to frames that hold no table leave the tree as it is.
pub proof fn lemma_tables_untouched(
    m1: &PhysicalMemory,
    m2: &PhysicalMemory,
    root: PhysicalPageNumber,
    tables: Seq<PhysicalPageNumber>,
)
    requires
        tree_wf(m1, root, tables),
        m1.same_extent(m2),
        forall|t: PhysicalPageNumber| tables.contains(t) ==> #[trigger] m2.page(t) == m1.page(t),
    ensures
        tree_wf(m2, root, tables),
        forall|a: int| 0 <= a < 512 ==> #[trigger] table1(m2, root, a) == table1(m1, root, a),
        forall|a: int, b: int|
            0 <= a < 512 && 0 <= b < 512 ==> #[trigger] table2(m2, root, a, b) == table2(
                m1,
                root,
                a,
                b,
            ),
        forall|vpn: VirtualPageNumber| #[trigger] leaf_of(m2, root, vpn) == leaf_of(m1, root, vpn),
{
    assert(m2.page(root) == m1.page(root));
    assert forall|a: int| 0 <= a < 512 implies #[trigger] table1(m2, root, a) == table1(
        m1,
        root,
        a,
    ) by {}
    assert forall|a: int, b: int| 0 <= a < 512 && 0 <= b < 512 implies #[trigger] table2(
        m2,
        root,
        a,
        b,
    ) == table2(m1, root, a, b) by {
        if let Some(t) = table1(m1, root, a) {
            assert(m2.page(t) == m1.page(t));
        }
    }
    assert forall|vpn: VirtualPageNumber| #[trigger]
        leaf_of(m2, root, vpn) == leaf_of(m1, root, vpn) by {
        let a = vpn.level(0);
        let b = vpn.level(1);
        assert(table2(m2, root, a, b) == table2(m1, root, a, b));
        if let Some(t) = table2(m1, root, a, b) {
            assert(m2.page(t) == m1.page(t));
        }
    }
    assert forall|a: int, b: int| 0 <= a < 512 && 0 <= b < 512 implies (#[trigger] table2(
        m2,
        root,
        a,
        b,
    ) matches Some(t) ==> tables.contains(t) && t != root && m2.entry(
        table1(m2, root, a).unwrap(),
        b,
    ) == pointer(t)) by {
        assert(table2(m2, root, a, b) == table2(m1, root, a, b));
        if let Some(t) = table1(m1, root, a) {
            assert(m2.page(t) == m1.page(t));
        }
    }
}

/// Linking a fresh, empty table into an empty entry of the root keeps the
/// tree a tree, adds the table under that entry and changes the entry of
/// no page.
pub proof fn lemma_attach_below_root(
    m1: &PhysicalMemory,
    m2: &PhysicalMemory,
    root: PhysicalPageNumber,
    tables: Seq<PhysicalPageNumber>,
    a: int,
    fresh: PhysicalPageNumber,
)
    requires
        tree_wf(m1, root, tables),
        0 <= a < 512,
        table1(m1, root, a) is None,
        !tables.contains(fresh),
        m1.contains_page(fresh),
        fresh.0 < PPN_LIMIT,
        forall|j: int| 0 <= j < 512 ==> #[trigger] m1.entry(fresh, j) == 0,
        m1.entry_written(m2, root, a, pointer(fresh)),
    ensures
        tree_wf(m2, root, tables.push(fresh)),
        forall|c: int|
            0 <= c < 512 ==> #[trigger] table1(m2, root, c) == if c == a {
                Some(fresh)
            } else {
                table1(m1, root, c)
            },
        forall|c: int, d: int|
            0 <= c < 512 && 0 <= d < 512 ==> #[trigger] table2(m2, root, c, d) == table2(
                m1,
                root,
                c,
                d,
            ),
        forall|vpn: VirtualPageNumber| #[trigger] leaf_of(m2, root, vpn) == leaf_of(m1, root, vpn),
{
    lemma_pointer(fresh);
    let after = tables.push(fresh);
    assert(fresh != root);
    assert forall|t: PhysicalPageNumber| after.contains(t) <==> tables.contains(t) || t
        == fresh by {
        if tables.contains(t) {
            let i = choose|i: int| 0 <= i < tables.len() && tables[i] == t;
            assert(after[i] == t);
        }
        assert(after[tables.len() as int] == fresh);
    }
    assert forall|t: PhysicalPageNumber| tables.contains(t) && t != root implies #[trigger] m2.page(
        t,
    ) == m1.page(t) by {}
    assert(m2.page(fresh) == m1.page(fresh));
    assert forall|c: int| 0 <= c < 512 implies #[trigger] table1(m2, root, c) == if c == a {
        Some(fresh)
    } else {
        table1(m1, root, c)
    } by {
        assert(m2.entry(root, c) == if c == a {
            pointer(fresh)
        } else {
            m1.entry(root, c)
        });
    }
    assert forall|c: int, d: int| 0 <= c < 512 && 0 <= d < 512 implies #[trigger] table2(
        m2,
        root,
        c,
        d,
    ) == table2(m1, root, c, d) by {
        assert(table1(m2, root, c) == if c == a {
            Some(fresh)
        } else {
            table1(m1, root, c)
        });
        if c == a {
            assert(m2.entry(fresh, d) == m1.entry(fresh, d));
        } else if let Some(t) = table1(m1, root, c) {
            assert(m2.page(t) == m1.page(t));
        }
    }
    assert forall|vpn: VirtualPageNumber| #[trigger]
        leaf_of(m2, root, vpn) == leaf_of(m1, root, vpn) by {
        let c = vpn.level(0);
        let d = vpn.level(1);
        assert(table2(m2, root, c, d) == table2(m1, root, c, d));
        if let Some(t) = table2(m1, root, c, d) {
            assert(m2.page(t) == m1.page(t));
        }
    }
    assert forall|c: int, d: int| 0 <= c < 512 && 0 <= d < 512 implies (#[trigger] table2(
        m2,
        root,
        c,
        d,
    ) matches Some(t) ==> after.contains(t) && t != root && m2.entry(
        table1(m2, root, c).unwrap(),
        d,
    ) == pointer(t)) by {
        assert(table2(m2, root, c, d) == table2(m1, root, c, d));
        assert(table1(m2, root, c) == if c == a {
            Some(fresh)
        } else {
            table1(m1, root, c)
        });
        if c != a {
            if let Some(t) = table1(m1, root, c) {
                assert(m2.page(t) == m1.page(t));
            }
        }
    }
    assert forall|c: int, e: int|
        0 <= c < 512 && 0 <= e < 512 && (#[trigger] table1(m2, root, c)) is Some && table1(
            m2,
            root,
            c,
        ) == (#[trigger] table1(m2, root, e)) implies c == e by {
        assert(table1(m2, root, c) == if c == a {
            Some(fresh)
        } else {
            table1(m1, root, c)
        });
        assert(table1(m2, root, e) == if e == a {
            Some(fresh)
        } else {
            table1(m1, root, e)
        });
    }
    assert forall|c: int, d: int, e: int, f: int|
        0 <= c < 512 && 0 <= d < 512 && 0 <= e < 512 && 0 <= f < 512 && (#[trigger] table2(
            m2,
            root,
            c,
            d,
        )) is Some && table2(m2, root, c, d) == (#[trigger] table2(m2, root, e, f)) implies c == e
        && d == f by {
        assert(table2(m2, root, c, d) == table2(m1, root, c, d));
        assert(table2(m2, root, e, f) == table2(m1, root, e, f));
    }
    assert forall|c: int, e: int, f: int|
        0 <= c < 512 && 0 <= e < 512 && 0 <= f < 512 && (#[trigger] table1(m2, root, c))
            is Some implies table1(m2, root, c) != (#[trigger] table2(m2, root, e, f)) by {
        assert(table1(m2, root, c) == if c == a {
            Some(fresh)
        } else {
            table1(m1, root, c)
        });
        assert(table2(m2, root, e, f) == table2(m1, root, e, f));
    }
}

/// Linking a fresh, empty table into an empty entry of a second-level table
/// keeps the tree a tree, adds the table under that entry and changes the
/// entry of no page.
pub proof fn lemma_attach_below_middle(
    m1: &PhysicalMemory,
    m2: &PhysicalMemory,
    root: PhysicalPageNumber,
    tables: Seq<PhysicalPageNumber>,
    a: int,
    b: int,
    fresh: PhysicalPageNumber,
)
    requires
        tree_wf(m1, root, tables),
        0 <= a < 512,
        0 <= b < 512,
        table1(m1, root, a) is Some,
        table2(m1, root, a, b) is None,
        !tables.contains(fresh),
        m1.contains_page(fresh),
        fresh.0 < PPN_LIMIT,
        forall|j: int| 0 <= j < 512 ==> #[trigger] m1.entry(fresh, j) == 0,
        m1.entry_written(m2, table1(m1, root, a).unwrap(), b, pointer(fresh)),
    ensures
        tree_wf(m2, root, tables.push(fresh)),
        forall|c: int| 0 <= c < 512 ==> #[trigger] table1(m2, root, c) == table1(m1, root, c),
        forall|c: int, d: int|
            0 <= c < 512 && 0 <= d < 512 ==> #[trigger] table2(m2, root, c, d) == if c == a && d
                == b {
                Some(fresh)
            } else {
                table2(m1, root, c, d)
            },
        forall|vpn: VirtualPageNumber| #[trigger] leaf_of(m2, root, vpn) == leaf_of(m1, root, vpn),
{
    lemma_pointer(fresh);
    let after = tables.push(fresh);
    let middle = table1(m1, root, a).unwrap();
    assert(tables.contains(middle) && middle != root);
    assert forall|t: PhysicalPageNumber| after.contains(t) <==> tables.contains(t) || t
        == fresh by {
        if tables.contains(t) {
            let i = choose|i: int| 0 <= i < tables.len() && tables[i] == t;
            assert(after[i] == t);
        }
        assert(after[tables.len() as int] == fresh);
    }
    assert forall|t: PhysicalPageNumber| tables.contains(t) && t != middle
        implies #[trigger] m2.page(
        t,
    ) == m1.page(t) by {}
    assert(m2.page(fresh) == m1.page(fresh));
    assert(m2.page(root) == m1.page(root));
    assert forall|c: int| 0 <= c < 512 implies #[trigger] table1(m2, root, c) == table1(
        m1,
        root,
        c,
    ) by {}
    assert forall|c: int, d: int| 0 <= c < 512 && 0 <= d < 512 implies #[trigger] table2(
        m2,
        root,
        c,
        d,
    ) == if c == a && d == b {
        Some(fresh)
    } else {
        table2(m1, root, c, d)
    } by {
        assert(table1(m2, root, c) == table1(m1, root, c));
        if let Some(t) = table1(m1, root, c) {
            if t == middle {
                assert(table1(m1, root, a) == table1(m1, root, c));
                assert(c == a);
                assert(m2.entry(middle, d) == if d == b {
                    pointer(fresh)
                } else {
                    m1.entry(middle, d)
                });
            } else {
                assert(m2.page(t) == m1.page(t));
            }
        }
    }
    assert forall|vpn: VirtualPageNumber| #[trigger]
        leaf_of(m2, root, vpn) == leaf_of(m1, root, vpn) by {
        let c = vpn.level(0);
        let d = vpn.level(1);
        assert(table2(m2, root, c, d) == if c == a && d == b {
            Some(fresh)
        } else {
            table2(m1, root, c, d)
        });
        if c == a && d == b {
            assert(m2.entry(fresh, vpn.level(2)) == m1.entry(fresh, vpn.level(2)));
        } else if let Some(t) = table2(m1, root, c, d) {
            assert(table1(m1, root, a) != table2(m1, root, c, d));
            assert(m2.page(t) == m1.page(t));
        }
    }
    assert forall|c: int, d: int| 0 <= c < 512 && 0 <= d < 512 implies (#[trigger] table2(
        m2,
        root,
        c,
        d,
    ) matches Some(t) ==> after.contains(t) && t != root && m2.entry(
        table1(m2, root, c).unwrap(),
        d,
    ) == pointer(t)) by {
        assert(table1(m2, root, c) == table1(m1, root, c));
        assert(table2(m2, root, c, d) == if c == a && d == b {
            Some(fresh)
        } else {
            table2(m1, root, c, d)
        });
        if let Some(t) = table1(m1, root, c) {
            if t == middle {
                assert(table1(m1, root, a) == table1(m1, root, c));
                assert(m2.entry(middle, d) == if d == b {
                    pointer(fresh)
                } else {
                    m1.entry(middle, d)
                });
            } else {
                assert(m2.page(t) == m1.page(t));
            }
        }
    }
    assert forall|c: int, e: int|
        0 <= c < 512 && 0 <= e < 512 && (#[trigger] table1(m2, root, c)) is Some && table1(
            m2,
            root,
            c,
        ) == (#[trigger] table1(m2, root, e)) implies c == e by {
        assert(table1(m2, root, c) == table1(m1, root, c));
        assert(table1(m2, root, e) == table1(m1, root, e));
    }
    assert forall|c: int, d: int, e: int, f: int|
        0 <= c < 512 && 0 <= d < 512 && 0 <= e < 512 && 0 <= f < 512 && (#[trigger] table2(
            m2,
            root,
            c,
            d,
        )) is Some && table2(m2, root, c, d) == (#[trigger] table2(m2, root, e, f)) implies c == e
        && d == f by {
        assert(table2(m2, root, c, d) == if c == a && d == b {
            Some(fresh)
        } else {
            table2(m1, root, c, d)
        });
        assert(table2(m2, root, e, f) == if e == a && f == b {
            Some(fresh)
        } else {
            table2(m1, root, e, f)
        });
    }
    assert forall|c: int, e: int, f: int|
        0 <= c < 512 && 0 <= e < 512 && 0 <= f < 512 && (#[trigger] table1(m2, root, c))
            is Some implies table1(m2, root, c) != (#[trigger] table2(m2, root, e, f)) by {
        assert(table1(m2, root, c) == table1(m1, root, c));
        assert(table2(m2, root, e, f) == if e == a && f == b {
            Some(fresh)
        } else {
            table2(m1, root, e, f)
        });
    }
}

/// Writing an entry of a third-level table keeps the tree as it is and
/// changes the entry of the pages that the written entry stands for, and of
/// no other page.
pub proof fn lemma_leaf_written(
    m1: &PhysicalMemory,
    m2: &PhysicalMemory,
    root: PhysicalPageNumber,
    tables: Seq<PhysicalPageNumber>,
    a: int,
    b: int,
    c: int,
    word: u64,
)
    requires
        tree_wf(m1, root, tables),
        0 <= a < 512,
        0 <= b < 512,
        0 <= c < 512,
        table2(m1, root, a, b) is Some,
        m1.entry_written(m2, table2(m1, root, a, b).unwrap(), c, word),
    ensures
        tree_wf(m2, root, tables),
        forall|e: int| 0 <= e < 512 ==> #[trigger] table1(m2, root, e) == table1(m1, root, e),
        forall|e: int, f: int|
            0 <= e < 512 && 0 <= f < 512 ==> #[trigger] table2(m2, root, e, f) == table2(
                m1,
                root,
                e,
                f,
            ),
        forall|vpn: VirtualPageNumber| #[trigger]
            leaf_of(m2, root, vpn) == if vpn.level(0) == a && vpn.level(1) == b && vpn.level(2)
                == c {
                PageTableEntry(word)
            } else {
                leaf_of(m1, root, vpn)
            },
{
    let last = table2(m1, root, a, b).unwrap();
    assert(tables.contains(last) && last != root);
    assert(table1(m1, root, a) is Some);
    assert forall|t: PhysicalPageNumber| tables.contains(t) && t != last implies #[trigger] m2.page(
        t,
    ) == m1.page(t) by {}
    assert(m2.page(root) == m1.page(root));
    assert forall|e: int| 0 <= e < 512 implies #[trigger] table1(m2, root, e) == table1(
        m1,
        root,
        e,
    ) by {}
    assert forall|e: int, f: int| 0 <= e < 512 && 0 <= f < 512 implies #[trigger] table2(
        m2,
        root,
        e,
        f,
    ) == table2(m1, root, e, f) by {
        assert(table1(m2, root, e) == table1(m1, root, e));
        if let Some(t) = table1(m1, root, e) {
            assert(table1(m1, root, e) != table2(m1, root, a, b));
            assert(m2.page(t) == m1.page(t));
        }
    }
    assert forall|vpn: VirtualPageNumber| #[trigger]
        leaf_of(m2, root, vpn) == if vpn.level(0) == a && vpn.level(1) == b && vpn.level(2) == c {
            PageTableEntry(word)
        } else {
            leaf_of(m1, root, vpn)
        } by {
        let e = vpn.level(0);
        let f = vpn.level(1);
        let g = vpn.level(2);
        assert(table2(m2, root, e, f) == table2(m1, root, e, f));
        if let Some(t) = table2(m1, root, e, f) {
            if t == last {
                assert(table2(m1, root, e, f) == table2(m1, root, a, b));
                assert(e == a && f == b);
                assert(m2.entry(last, g) == if g == c {
                    word
                } else {
                    m1.entry(last, g)
                });
            } else {
                assert(m2.page(t) == m1.page(t));
            }
        }
    }
    assert forall|e: int, f: int| 0 <= e < 512 && 0 <= f < 512 implies (#[trigger] table2(
        m2,
        root,
        e,
        f,
    ) matches Some(t) ==> tables.contains(t) && t != root && m2.entry(
        table1(m2, root, e).unwrap(),
        f,
    ) == pointer(t)) by {
        assert(table1(m2, root, e) == table1(m1, root, e));
        assert(table2(m2, root, e, f) == table2(m1, root, e, f));
        if let Some(t) = table1(m1, root, e) {
            assert(table1(m1, root, e) != table2(m1, root, a, b));
            assert(m2.page(t) == m1.page(t));
        }
    }
}

} // verus!
