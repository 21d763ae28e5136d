//! The frame allocator: a pool of physical frames that are handed out one at
//! a time, each to a single owner, and taken back when the owner is done.
//!
//! The free frames are kept as a stack of intervals of frame indices. A frame
//! that is given back goes on top of the stack and is the next to be handed
//! out again.

use crate::address::{PhysicalAddress, PhysicalPageNumber};
use crate::config::PPN_LIMIT;
use crate::error::{MemoryError, MemoryResult};
use vstd::prelude::*;
use vstd::set_lib::{lemma_int_range, lemma_len_subset, set_int_range};

verus! {

/// Exclusive ownership of one physical frame. Only the allocator makes a
/// tracker, and a tracker cannot be copied: while it exists, the frame it
/// names is handed to nobody else.
#[derive(Debug)]
pub struct FrameTracker(PhysicalPageNumber);

impl FrameTracker {
    /// The number of the owned frame.
    pub closed spec fn spec_page_number(&self) -> PhysicalPageNumber {
        self.0
    }

    /// The number of the owned frame.
    #[verifier::when_used_as_spec(spec_page_number)]
    pub fn page_number(&self) -> (r: PhysicalPageNumber)
        ensures
            r == self.spec_page_number(),
    {
        self.0
    }

    /// The address of the owned frame's first byte.
    pub fn address(&self) -> (r: PhysicalAddress)
        ensures
            r == self.spec_page_number().spec_address(),
    {
        self.0.address()
    }
}

/// Number of frame indices in the intervals of `stack`.
pub open spec fn stack_count(stack: Seq<(int, int)>) -> int
    decreases stack.len(),
{
    if stack.len() == 0 {
        0
    } else {
        stack_count(stack.drop_last()) + (stack.last().1 - stack.last().0)
    }
}

/// Whether some interval of `stack` holds `index`.
pub open spec fn stack_covers(stack: Seq<(int, int)>, index: int) -> bool {
    exists|k: int| 0 <= k < stack.len() && (#[trigger] stack[k]).0 <= index < stack[k].1
}

/// The index that the next allocation takes from a non-empty `stack`.
pub open spec fn stack_top(stack: Seq<(int, int)>) -> int {
    stack.last().0
}

/// A non-empty `stack` after one allocation: the top interval loses its
/// first index, and goes when that was its only one.
pub open spec fn stack_after_alloc(stack: Seq<(int, int)>) -> Seq<(int, int)> {
    let (start, end) = stack.last();
    if end - start > 1 {
        stack.drop_last().push((start + 1, end))
    } else {
        stack.drop_last()
    }
}

/// `stack` after `count` allocations in a row.
pub open spec fn stack_after_allocs(stack: Seq<(int, int)>, count: int) -> Seq<(int, int)>
    decreases count,
{
    if count <= 0 {
        stack
    } else {
        stack_after_allocs(stack_after_alloc(stack), count - 1)
    }
}

/// The index that the allocation after `count` earlier ones takes from
/// `stack`.
pub open spec fn stack_nth_top(stack: Seq<(int, int)>, count: int) -> int {
    stack_top(stack_after_allocs(stack, count))
}

/// `stack` after `index` was given back: it lies on top, alone.
pub open spec fn stack_after_dealloc(stack: Seq<(int, int)>, index: int) -> Seq<(int, int)> {
    stack.push((index, index + 1))
}

/// Every interval is non-empty and inside `0..capacity`, and no two share an
/// index.
pub open spec fn stack_wf(stack: Seq<(int, int)>, capacity: int) -> bool {
    &&& forall|k: int|
        0 <= k < stack.len() ==> 0 <= (#[trigger] stack[k]).0 < stack[k].1 <= capacity
    &&& forall|j: int, k: int|
        0 <= j < k < stack.len() ==> {
            ||| (#[trigger] stack[j]).1 <= (#[trigger] stack[k]).0
            ||| stack[k].1 <= stack[j].0
        }
}

/// The indices that `stack` holds, as a set.
pub open spec fn stack_set(stack: Seq<(int, int)>) -> Set<int> {
    Set::new(|i: int| stack_covers(stack, i))
}

/// An interval pushed on a stack adds its length to the count.
proof fn lemma_count_push(stack: Seq<(int, int)>, interval: (int, int))
    ensures
        stack_count(stack.push(interval)) == stack_count(stack) + (interval.1 - interval.0),
{
    assert(stack.push(interval).drop_last() =~= stack);
}

/// An allocation takes the top index out of the set of free indices and
/// takes nothing else.
proof fn lemma_alloc_set(stack: Seq<(int, int)>, capacity: int)
    requires
        stack_wf(stack, capacity),
        stack.len() > 0,
    ensures
        stack_wf(stack_after_alloc(stack), capacity),
        stack_set(stack).contains(stack_top(stack)),
        stack_set(stack_after_alloc(stack)) == stack_set(stack).remove(stack_top(stack)),
        stack_count(stack_after_alloc(stack)) == stack_count(stack) - 1,
        0 <= stack_top(stack) < capacity,
{
    let top = stack.len() - 1;
    let (start, end) = stack.last();
    let rest = stack.drop_last();
    let after = stack_after_alloc(stack);
    assert(stack[top] == (start, end));
    if end - start > 1 {
        lemma_count_push(rest, (start + 1, end));
    }
    assert forall|i: int| stack_set(after).contains(i) <==> stack_set(stack).remove(
        start,
    ).contains(i) by {
        if stack_covers(after, i) {
            let k = choose|k: int| 0 <= k < after.len()
                && (#[trigger] after[k]).0 <= i < after[k].1;
            if k < top {
                assert(after[k] == stack[k]);
                assert(stack[k].0 <= i < stack[k].1);
            } else {
                assert(stack[top].0 <= i < stack[top].1);
            }
        }
        if stack_covers(stack, i) && i != start {
            let k = choose|k: int| 0 <= k < stack.len()
                && (#[trigger] stack[k]).0 <= i < stack[k].1;
            if k < top {
                assert(after[k] == stack[k]);
                assert(after[k].0 <= i < after[k].1);
            } else {
                assert(after[top] == (start + 1, end));
                assert(after[top].0 <= i < after[top].1);
            }
        }
    }
    assert(stack_set(after) =~= stack_set(stack).remove(start));
}

/// An index that is given back joins the set of free indices, and nothing
/// else does.
proof fn lemma_dealloc_set(stack: Seq<(int, int)>, capacity: int, index: int)
    requires
        stack_wf(stack, capacity),
        0 <= index < capacity,
        !stack_covers(stack, index),
    ensures
        stack_wf(stack_after_dealloc(stack, index), capacity),
        stack_set(stack_after_dealloc(stack, index)) == stack_set(stack).insert(index),
        stack_count(stack_after_dealloc(stack, index)) == stack_count(stack) + 1,
{
    let after = stack_after_dealloc(stack, index);
    let top = stack.len() as int;
    lemma_count_push(stack, (index, index + 1));
    assert forall|j: int, k: int| 0 <= j < k < after.len() implies (#[trigger] after[j]).1 <= (
    #[trigger] after[k]).0 || after[k].1 <= after[j].0 by {
        if k == top {
            assert(after[j] == stack[j]);
            assert(!(stack[j].0 <= index < stack[j].1));
        } else {
            assert(after[j] == stack[j] && after[k] == stack[k]);
        }
    }
    assert forall|i: int| stack_set(after).contains(i) <==> stack_set(stack).insert(
        index,
    ).contains(i) by {
        if stack_covers(after, i) {
            let k = choose|k: int| 0 <= k < after.len()
                && (#[trigger] after[k]).0 <= i < after[k].1;
            if k < top {
                assert(after[k] == stack[k]);
                assert(stack[k].0 <= i < stack[k].1);
            }
        }
        if stack_covers(stack, i) {
            let k = choose|k: int| 0 <= k < stack.len()
                && (#[trigger] stack[k]).0 <= i < stack[k].1;
            assert(after[k] == stack[k]);
            assert(after[k].0 <= i < after[k].1);
        }
        if i == index {
            assert(after[top].0 <= i < after[top].1);
        }
    }
    assert(stack_set(after) =~= stack_set(stack).insert(index));
}

/// Allocating `m` frames and then `n` more is allocating `m + n`.
pub proof fn lemma_allocs_compose(stack: Seq<(int, int)>, m: int, n: int)
    requires
        0 <= m,
        0 <= n,
    ensures
        stack_after_allocs(stack_after_allocs(stack, m), n) == stack_after_allocs(stack, m + n),
    decreases m,
{
    if m > 0 {
        lemma_allocs_compose(stack_after_alloc(stack), m - 1, n);
    }
}

/// The index that an allocation takes is free before any of the
/// allocations that come before it.
pub proof fn lemma_nth_frame_is_free(stack: Seq<(int, int)>, capacity: int, count: int)
    requires
        stack_wf(stack, capacity),
        0 <= count < stack_count(stack),
    ensures
        stack_covers(stack, stack_nth_top(stack, count)),
        0 <= stack_nth_top(stack, count) < capacity,
    decreases count,
{
    if stack.len() == 0 {
        assert(stack_count(stack) == 0);
    } else {
        lemma_alloc_set(stack, capacity);
        if count > 0 {
            lemma_nth_frame_is_free(stack_after_alloc(stack), capacity, count - 1);
            let index = stack_nth_top(stack_after_alloc(stack), count - 1);
            assert(stack_set(stack_after_alloc(stack)).contains(index));
            assert(stack_set(stack).contains(index));
            assert(stack_nth_top(stack, count) == index);
        } else {
            assert(stack_after_allocs(stack, 0) == stack);
            assert(stack_set(stack).contains(stack_top(stack)));
        }
    }
}

/// A frame that was given back is the next one handed out, and handing it
/// out leaves the free frames as they were before it came back. The number
/// of free frames goes up by exactly one in between: a pool with no free
/// frame has one after a frame came back.
pub proof fn lemma_freed_frame_is_reused(stack: Seq<(int, int)>, capacity: int, index: int)
    requires
        stack_wf(stack, capacity),
        0 <= index < capacity,
        !stack_covers(stack, index),
    ensures
        stack_count(stack_after_dealloc(stack, index)) == stack_count(stack) + 1,
        stack_top(stack_after_dealloc(stack, index)) == index,
        stack_after_alloc(stack_after_dealloc(stack, index)) == stack,
{
    lemma_dealloc_set(stack, capacity, index);
    assert(stack_after_dealloc(stack, index).drop_last() =~= stack);
}

/// The pool of frames from `start()` on, `capacity()` of them.
pub struct FrameAllocator {
    start_ppn: PhysicalPageNumber,
    capacity: usize,
    free: Vec<(usize, usize)>,
    available: usize,
}

impl FrameAllocator {
    /// The number of the pool's first frame.
    pub closed spec fn spec_start(&self) -> PhysicalPageNumber {
        self.start_ppn
    }

    /// The number of frames in the pool, free or not.
    pub closed spec fn spec_capacity(&self) -> int {
        self.capacity as int
    }

    /// The free frames: a stack of intervals of indices into the pool, the
    /// top of the stack last.
    pub closed spec fn stack(&self) -> Seq<(int, int)> {
        self.free@.map_values(|p: (usize, usize)| (p.0 as int, p.1 as int))
    }

    /// The number of free frames.
    pub open spec fn spec_available(&self) -> int {
        stack_count(self.stack())
    }

    /// The pool ends below the first page number that no entry can hold; the
    /// stack of free intervals is well-formed; and the count of free frames is
    /// the number of indices that the stack holds.
    pub closed spec fn wf(&self) -> bool {
        &&& self.start_ppn.0 + self.capacity <= PPN_LIMIT
        &&& stack_wf(self.stack(), self.capacity as int)
        &&& self.available == stack_count(self.stack())
        &&& stack_set(self.stack()).finite()
        &&& stack_set(self.stack()).len() == stack_count(self.stack())
    }

    /// Whether frame `ppn` belongs to the pool.
    pub open spec fn in_pool(&self, ppn: PhysicalPageNumber) -> bool {
        self.spec_start().0 <= ppn.0 < self.spec_start().0 + self.spec_capacity()
    }

    /// Whether frame `ppn` belongs to the pool and is free.
    pub open spec fn is_free(&self, ppn: PhysicalPageNumber) -> bool {
        self.in_pool(ppn) && stack_covers(self.stack(), ppn.0 - self.spec_start().0)
    }

    /// Whether frame `ppn` belongs to the pool and is handed out.
    pub open spec fn is_allocated(&self, ppn: PhysicalPageNumber) -> bool {
        self.in_pool(ppn) && !stack_covers(self.stack(), ppn.0 - self.spec_start().0)
    }

    /// Whether `other` has the same pool with the same frames free, in the
    /// same order.
    pub open spec fn same_as(&self, other: &FrameAllocator) -> bool {
        &&& self.spec_start() == other.spec_start()
        &&& self.spec_capacity() == other.spec_capacity()
        &&& self.stack() == other.stack()
    }

    /// What holds of every well-formed allocator.
    pub proof fn lemma_wf(&self)
        requires
            self.wf(),
        ensures
            self.spec_start().0 + self.spec_capacity() <= PPN_LIMIT,
            stack_wf(self.stack(), self.spec_capacity()),
            0 <= self.spec_available() <= self.spec_capacity(),
            self.spec_available() == 0 <==> self.stack().len() == 0,
            forall|p: PhysicalPageNumber| self.is_free(p) ==> self.spec_available() > 0,
    {
        let s = self.stack();
        lemma_int_range(0, self.capacity as int);
        assert(stack_set(s).subset_of(set_int_range(0, self.capacity as int))) by {
            assert forall|i: int| stack_set(s).contains(i) implies set_int_range(
                0,
                self.capacity as int,
            ).contains(i) by {
                let k = choose|k: int| 0 <= k < s.len() && (#[trigger] s[k]).0 <= i < s[k].1;
            }
        }
        lemma_len_subset(stack_set(s), set_int_range(0, self.capacity as int));
        if s.len() > 0 {
            lemma_alloc_set(s, self.capacity as int);
        }
        assert forall|p: PhysicalPageNumber| self.is_free(p) implies self.spec_available() > 0 by {
            assert(stack_set(s).contains(p.0 - self.spec_start().0));
        }
    }

    /// The pool of the frames `start..end`, all of them free.
    pub fn new(start: PhysicalPageNumber, end: PhysicalPageNumber) -> (r: Self)
        requires
            start.0 <= end.0 <= PPN_LIMIT,
            end.0 - start.0 <= usize::MAX,
        ensures
            r.wf(),
            r.spec_start() == start,
            r.spec_capacity() == end.0 - start.0,
            r.spec_available() == end.0 - start.0,
            r.stack() == if end.0 == start.0 {
                Seq::<(int, int)>::empty()
            } else {
                seq![(0int, end.0 - start.0)]
            },
            forall|p: PhysicalPageNumber| r.in_pool(p) ==> r.is_free(p),
    {
        let capacity: usize = (end.0 - start.0) as usize;
        let mut free: Vec<(usize, usize)> = Vec::new();
        if capacity > 0 {
            free.push((0, capacity));
        }
        let r = FrameAllocator { start_ppn: start, capacity, free, available: capacity };
        proof {
            let s = r.stack();
            if capacity > 0 {
                assert(s =~= seq![(0int, capacity as int)]);
                assert(s.drop_last() =~= Seq::<(int, int)>::empty());
                assert(stack_count(s.drop_last()) == 0);
                assert(stack_set(s) =~= set_int_range(0, capacity as int)) by {
                    assert forall|i: int| set_int_range(0, capacity as int).contains(
                        i,
                    ) implies stack_set(s).contains(i) by {
                        assert(s[0].0 <= i < s[0].1);
                    }
                }
                lemma_int_range(0, capacity as int);
                assert forall|p: PhysicalPageNumber| r.in_pool(p) implies r.is_free(p) by {
                    assert(s[0].0 <= p.0 - start.0 < s[0].1);
                }
            } else {
                assert(s =~= Seq::<(int, int)>::empty());
                assert(stack_set(s) =~= Set::<int>::empty());
            }
        }
        r
    }

    /// The number of the pool's first frame.
    #[verifier::when_used_as_spec(spec_start)]
    pub fn start(&self) -> (r: PhysicalPageNumber)
        ensures
            r == self.spec_start(),
    {
        self.start_ppn
    }

    /// The number of frames in the pool, free or not.
    pub fn capacity(&self) -> (r: usize)
        ensures
            r == self.spec_capacity(),
    {
        self.capacity
    }

    /// The number of free frames.
    pub fn available(&self) -> (r: usize)
        requires
            self.wf(),
        ensures
            r == self.spec_available(),
    {
        self.available
    }

    /// Hands out the frame on top of the stack of free frames, or fails with
    /// `FrameExhausted` when none is free. Nothing is promised of what the
    /// frame holds.
    pub fn allocate(&mut self) -> (r: MemoryResult<FrameTracker>)
        requires
            old(self).wf(),
        ensures
            final(self).wf(),
            final(self).spec_start() == old(self).spec_start(),
            final(self).spec_capacity() == old(self).spec_capacity(),
            r is Err <==> old(self).spec_available() == 0,
            match r {
                Ok(frame) => {
                    &&& old(self).stack().len() > 0
                    &&& frame.spec_page_number().0 == old(self).spec_start().0 + stack_top(
                        old(self).stack(),
                    )
                    &&& final(self).stack() == stack_after_alloc(old(self).stack())
                    &&& final(self).spec_available() == old(self).spec_available() - 1
                    &&& old(self).is_free(frame.spec_page_number())
                    &&& final(self).is_allocated(frame.spec_page_number())
                    &&& forall|p: PhysicalPageNumber|
                        p != frame.spec_page_number() ==> (final(self).is_free(p) <==> old(
                            self,
                        ).is_free(p))
                },
                Err(e) => e == MemoryError::FrameExhausted && final(self).stack() == old(
                    self,
                ).stack(),
            },
    {
        proof {
            self.lemma_wf();
        }
        let ghost before = self.stack();
        match self.free.pop() {
            None => {
                assert(self.stack() =~= before);
                Err(MemoryError::FrameExhausted)
            },
            Some((start, end)) => {
                assert(before.last() == (start as int, end as int));
                assert(self.stack() =~= before.drop_last());
                if end - start > 1 {
                    self.free.push((start + 1, end));
                    assert(self.stack() =~= before.drop_last().push((start + 1, end as int)));
                }
                proof {
                    lemma_alloc_set(before, self.capacity as int);
                    assert(self.stack() == stack_after_alloc(before));
                }
                self.available = self.available - 1;
                let frame = FrameTracker(PhysicalPageNumber(self.start_ppn.0 + start as u64));
                proof {
                    let base = self.start_ppn.0 as int;
                    assert forall|p: PhysicalPageNumber| p != frame.spec_page_number() implies (
                    self.is_free(p) <==> old(self).is_free(p)) by {
                        assert(stack_set(self.stack()).contains(p.0 - base) <==> stack_set(
                            before,
                        ).contains(p.0 - base) && p.0 - base != start);
                    }
                    assert(stack_set(before).contains(start as int));
                    assert(!stack_set(self.stack()).contains(start as int));
                }
                Ok(frame)
            },
        }
    }

    /// Takes a frame back. It goes on top of the stack of free frames.
    pub fn deallocate(&mut self, frame: FrameTracker)
        requires
            old(self).wf(),
            old(self).is_allocated(frame.spec_page_number()),
        ensures
            final(self).wf(),
            final(self).spec_start() == old(self).spec_start(),
            final(self).spec_capacity() == old(self).spec_capacity(),
            final(self).stack() == stack_after_dealloc(
                old(self).stack(),
                frame.spec_page_number().0 - old(self).spec_start().0,
            ),
            final(self).spec_available() == old(self).spec_available() + 1,
            final(self).is_free(frame.spec_page_number()),
            forall|p: PhysicalPageNumber|
                p != frame.spec_page_number() ==> (final(self).is_free(p) <==> old(self).is_free(
                    p,
                )),
    {
        let index: usize = (frame.0.0 - self.start_ppn.0) as usize;
        let ghost before = self.stack();
        proof {
            self.lemma_wf();
            lemma_dealloc_set(before, self.capacity as int, index as int);
            lemma_int_range(0, self.capacity as int);
            let full = set_int_range(0, self.capacity as int);
            assert(stack_set(before).subset_of(full.remove(index as int))) by {
                assert forall|i: int| stack_set(before).contains(i) implies full.remove(
                    index as int,
                ).contains(i) by {
                    let k = choose|k: int|
                        0 <= k < before.len() && (#[trigger] before[k]).0 <= i < before[k].1;
                }
            }
            lemma_len_subset(stack_set(before), full.remove(index as int));
        }
        self.free.push((index, index + 1));
        self.available = self.available + 1;
        proof {
            assert(self.stack() =~= before.push((index as int, index + 1)));
            let base = self.start_ppn.0 as int;
            assert forall|p: PhysicalPageNumber| p != frame.spec_page_number() implies (
            self.is_free(p) <==> old(self).is_free(p)) by {
                assert(stack_set(self.stack()).contains(p.0 - base) <==> stack_set(
                    before,
                ).contains(p.0 - base) || p.0 - base == index);
            }
            assert(stack_set(self.stack()).contains(index as int));
        }
    }
}

} // verus!
