//! The bump allocator — a monotonic pointer over the arena. Allocation
//! advances the pointer; the only reclamation is a whole-arena reset once the
//! last outstanding allocation is returned.

use vstd::prelude::*;

use crate::allocator::{align_up_spec, align_up_checked, is_power_of_two, lemma_align_up,
    lemma_pow2_pos};

verus! {

/// Monotonic-pointer allocator state: the arena bounds, the next free
/// address, and the count of live allocations.
pub struct BumpAllocator {
    pub heap_start: usize,
    pub heap_end: usize,
    pub next: usize,
    pub allocations: usize,
}

/// One successful allocation, as a relation between the state before, the
/// returned address, and the state after.
pub open spec fn bump_alloc_step(
    pre: BumpAllocator,
    size: usize,
    align: usize,
    addr: usize,
    post: BumpAllocator,
) -> bool {
    &&& pre.wf()
    &&& pre.allocations < usize::MAX
    &&& pre.can_alloc(size as int, align as int)
    &&& addr == align_up_spec(pre.next as int, align as int)
    &&& addr as int % align as int == 0
    &&& pre.next <= addr
    &&& addr + size <= pre.heap_end
    &&& post == (BumpAllocator {
        next: (addr + size) as usize,
        allocations: (pre.allocations + 1) as usize,
        ..pre
    })
}

/// One deallocation: the live count drops, and when it reaches zero the next
/// pointer snaps back to the start of the arena.
pub open spec fn bump_dealloc_step(pre: BumpAllocator, post: BumpAllocator) -> bool {
    &&& pre.allocations >= 1
    &&& post == (BumpAllocator {
        next: if pre.allocations == 1 {
            pre.heap_start
        } else {
            pre.next
        },
        allocations: (pre.allocations - 1) as usize,
        ..pre
    })
}

impl BumpAllocator {
    /// The next pointer always lies within the arena bounds.
    pub open spec fn wf(self) -> bool {
        self.heap_start <= self.next <= self.heap_end
    }

    /// The state `new` establishes: no arena yet.
    pub open spec fn unused() -> BumpAllocator {
        BumpAllocator { heap_start: 0, heap_end: 0, next: 0, allocations: 0 }
    }

    /// A request succeeds exactly when the aligned address plus the size
    /// stays inside the arena (otherwise the allocation overflows the
    /// address space or exceeds `heap_end`).
    pub open spec fn can_alloc(self, size: int, align: int) -> bool {
        align_up_spec(self.next as int, align) + size <= self.heap_end
    }

    /// An empty allocator, to be tied to an arena by `init`.
    pub fn new() -> (r: BumpAllocator)
        ensures
            r == BumpAllocator::unused(),
    {
        BumpAllocator { heap_start: 0, heap_end: 0, next: 0, allocations: 0 }
    }

    /// One-time setup over the externally validated arena `[heap_start,
    /// heap_start + heap_size)`. Calling it on an already initialized
    /// allocator is a contract violation, excluded by the precondition.
    pub fn init(&mut self, heap_start: usize, heap_size: usize)
        requires
            *old(self) == BumpAllocator::unused(),
            heap_start + heap_size <= usize::MAX,
        ensures
            final(self).heap_start == heap_start,
            final(self).heap_end == heap_start + heap_size,
            final(self).next == heap_start,
            final(self).allocations == 0,
            final(self).wf(),
    {
        self.heap_start = heap_start;
        self.heap_end = heap_start + heap_size;
        self.next = heap_start;
    }

    /// Allocate `size` bytes at alignment `align` by advancing the pointer.
    /// Returns the aligned address, or `None` exactly when the request does
    /// not fit in the remaining arena.
    pub fn allocate(&mut self, size: usize, align: usize) -> (r: Option<usize>)
        requires
            old(self).wf(),
            is_power_of_two(align as int),
            old(self).allocations < usize::MAX,
        ensures
            final(self).wf(),
            final(self).heap_start == old(self).heap_start,
            final(self).heap_end == old(self).heap_end,
            r is Some <==> old(self).can_alloc(size as int, align as int),
            r matches Some(addr) ==> bump_alloc_step(*old(self), size, align, addr, *final(self)),
            r is None ==> *final(self) == *old(self),
    {
        proof {
            lemma_pow2_pos(align as int);
            lemma_align_up(self.next as int, align as int);
        }
        let alloc_start: usize = match align_up_checked(self.next, align) {
            Some(a) => a,
            None => {
                return None;
            },
        };
        if alloc_start > self.heap_end || size > self.heap_end - alloc_start {
            None
        } else {
            self.next = alloc_start + size;
            self.allocations = self.allocations + 1;
            Some(alloc_start)
        }
    }

    /// Return one allocation. The bump strategy keeps no registry, so the
    /// arguments are ignored; when the live count reaches zero the whole
    /// arena is reclaimed at once. Deallocating more often than allocating
    /// is a contract violation, excluded by the precondition.
    pub fn deallocate(&mut self, _addr: usize, _size: usize, _align: usize)
        requires
            old(self).wf(),
            old(self).allocations >= 1,
        ensures
            final(self).wf(),
            bump_dealloc_step(*old(self), *final(self)),
            final(self).heap_start == old(self).heap_start,
            final(self).heap_end == old(self).heap_end,
            final(self).allocations == old(self).allocations - 1,
            final(self).allocations == 0 ==> final(self).next == final(self).heap_start,
            final(self).allocations != 0 ==> final(self).next == old(self).next,
    {
        self.allocations = self.allocations - 1;
        if self.allocations == 0 {
            self.next = self.heap_start;
        }
    }

    /// The address the next successful allocation at `align` would return.
    pub fn next_addr(&self) -> (r: usize)
        ensures
            r == self.next,
    {
        self.next
    }

    /// The number of outstanding allocations.
    pub fn live_allocations(&self) -> (r: usize)
        ensures
            r == self.allocations,
    {
        self.allocations
    }
}

/// A run of successful allocations with no deallocation in between:
/// `states[k]` steps to `states[k + 1]` by granting `addrs[k]` for the
/// request `(sizes[k], aligns[k])`.
pub open spec fn bump_alloc_chain(
    states: Seq<BumpAllocator>,
    sizes: Seq<usize>,
    aligns: Seq<usize>,
    addrs: Seq<usize>,
) -> bool {
    &&& states.len() == sizes.len() + 1
    &&& aligns.len() == sizes.len()
    &&& addrs.len() == sizes.len()
    &&& forall|k: int|
        0 <= k < sizes.len() ==> bump_alloc_step(
            states[k],
            sizes[k],
            aligns[k],
            #[trigger] addrs[k],
            states[k + 1],
        )
}

/// A run of deallocations.
pub open spec fn bump_dealloc_chain(states: Seq<BumpAllocator>) -> bool {
    forall|k: int| 0 <= k < states.len() - 1 ==> bump_dealloc_step(#[trigger] states[k], states[k + 1])
}

/// Along an allocation run the arena bounds never move, the next pointer
/// only advances, and the live count grows by one per step.
proof fn lemma_bump_chain_mono(
    states: Seq<BumpAllocator>,
    sizes: Seq<usize>,
    aligns: Seq<usize>,
    addrs: Seq<usize>,
    k1: int,
    k2: int,
)
    requires
        bump_alloc_chain(states, sizes, aligns, addrs),
        0 <= k1 <= k2 < states.len(),
    ensures
        states[k2].heap_start == states[k1].heap_start,
        states[k2].heap_end == states[k1].heap_end,
        states[k1].next <= states[k2].next,
        states[k2].allocations == states[k1].allocations + (k2 - k1),
    decreases k2 - k1,
{
    if k1 < k2 {
        lemma_bump_chain_mono(states, sizes, aligns, addrs, k1, k2 - 1);
        assert(bump_alloc_step(states[k2 - 1], sizes[k2 - 1], aligns[k2 - 1], addrs[k2 - 1],
            states[k2]));
    }
}

/// Non-overlap: along any run of successful allocations with no
/// deallocation in between, the returned ranges are pairwise disjoint and
/// every range lies within the arena `[heap_start, heap_end)`.
pub proof fn lemma_bump_no_overlap(
    states: Seq<BumpAllocator>,
    sizes: Seq<usize>,
    aligns: Seq<usize>,
    addrs: Seq<usize>,
)
    requires
        bump_alloc_chain(states, sizes, aligns, addrs),
    ensures
        forall|i: int, j: int|
            0 <= i < j < addrs.len() ==> #[trigger] addrs[i] + sizes[i] <= #[trigger] addrs[j],
        forall|i: int|
            0 <= i < addrs.len() ==> states[0].heap_start <= #[trigger] addrs[i] && addrs[i]
                + sizes[i] <= states[0].heap_end,
{
    assert forall|i: int, j: int|
        0 <= i < j < addrs.len() implies #[trigger] addrs[i] + sizes[i] <= #[trigger] addrs[j] by {
        assert(bump_alloc_step(states[i], sizes[i], aligns[i], addrs[i], states[i + 1]));
        assert(bump_alloc_step(states[j], sizes[j], aligns[j], addrs[j], states[j + 1]));
        lemma_bump_chain_mono(states, sizes, aligns, addrs, i + 1, j);
    }
    assert forall|i: int|
        0 <= i < addrs.len() implies states[0].heap_start <= #[trigger] addrs[i] && addrs[i]
            + sizes[i] <= states[0].heap_end by {
        assert(bump_alloc_step(states[i], sizes[i], aligns[i], addrs[i], states[i + 1]));
        lemma_bump_chain_mono(states, sizes, aligns, addrs, 0, i);
    }
}

/// The total number of bytes in a sequence of request sizes.
pub open spec fn sum_sizes(sizes: Seq<usize>) -> int
    decreases sizes.len(),
{
    if sizes.len() == 0 {
        0
    } else {
        sizes[0] + sum_sizes(sizes.skip(1))
    }
}

/// Exhaustion: a run of successful allocations never hands out more bytes
/// than the arena still holds, so demanding more total bytes than
/// `heap_end - next` (and a fortiori more than the heap size) must fail at
/// some point rather than return an out-of-range address.
pub proof fn lemma_bump_exhaustion(
    states: Seq<BumpAllocator>,
    sizes: Seq<usize>,
    aligns: Seq<usize>,
    addrs: Seq<usize>,
)
    requires
        bump_alloc_chain(states, sizes, aligns, addrs),
        states[0].wf(),
    ensures
        sum_sizes(sizes) <= states[0].heap_end - states[0].next,
    decreases sizes.len(),
{
    if sizes.len() > 0 {
        assert(bump_alloc_step(states[0], sizes[0], aligns[0], addrs[0], states[1]));
        let st = states.skip(1);
        let sz = sizes.skip(1);
        let al = aligns.skip(1);
        let ad = addrs.skip(1);
        assert forall|k: int|
            0 <= k < sz.len() implies bump_alloc_step(st[k], sz[k], al[k], #[trigger] ad[k],
            st[k + 1]) by {
            assert(bump_alloc_step(states[k + 1], sizes[k + 1], aligns[k + 1], addrs[k + 1],
                states[k + 2]));
        }
        lemma_bump_exhaustion(st, sz, al, ad);
        assert(st[0] == states[1]);
        assert(sum_sizes(sizes) == sizes[0] + sum_sizes(sz));
        assert(states[1].next >= states[0].next + sizes[0]);
    }
}

/// Full reset: allocate N blocks starting from a fresh arena, then
/// deallocate N times (the strategy ignores which block each call names, so
/// any order is covered): the allocator is back in its post-`init` state,
/// and by `lemma_bump_replay` an identical request sequence succeeds again
/// with the same addresses.
pub proof fn lemma_bump_full_reset(
    alloc_states: Seq<BumpAllocator>,
    sizes: Seq<usize>,
    aligns: Seq<usize>,
    addrs: Seq<usize>,
    dealloc_states: Seq<BumpAllocator>,
)
    requires
        bump_alloc_chain(alloc_states, sizes, aligns, addrs),
        bump_dealloc_chain(dealloc_states),
        alloc_states[0].allocations == 0,
        alloc_states[0].next == alloc_states[0].heap_start,
        dealloc_states.len() == sizes.len() + 1,
        dealloc_states[0] == alloc_states.last(),
    ensures
        dealloc_states.last() == alloc_states[0],
{
    let n = sizes.len() as int;
    lemma_bump_chain_mono(alloc_states, sizes, aligns, addrs, 0, n);
    assert(alloc_states.last() == alloc_states[n]);
    assert(dealloc_states[0].allocations == n);
    assert(dealloc_states[0].heap_start == alloc_states[0].heap_start);
    assert(dealloc_states[0].heap_end == alloc_states[0].heap_end);
    if n == 0 {
        assert(dealloc_states.last() == dealloc_states[0]);
    } else {
        lemma_bump_dealloc_chain_props(dealloc_states, 0, n - 1);
        assert(dealloc_states[n - 1].allocations == 1);
        assert(bump_dealloc_step(dealloc_states[n - 1], dealloc_states[n]));
        assert(dealloc_states[n].allocations == 0);
        assert(dealloc_states[n].next == dealloc_states[n - 1].heap_start);
        assert(dealloc_states.last() == dealloc_states[n]);
    }
}

/// Replay: two allocation runs with the same requests from equal starting
/// states grant exactly the same addresses. With `lemma_bump_full_reset`,
/// which brings the allocator back to its starting state, this is the
/// second half of the full-reset law.
pub proof fn lemma_bump_replay(
    states1: Seq<BumpAllocator>,
    states2: Seq<BumpAllocator>,
    sizes: Seq<usize>,
    aligns: Seq<usize>,
    addrs1: Seq<usize>,
    addrs2: Seq<usize>,
)
    requires
        bump_alloc_chain(states1, sizes, aligns, addrs1),
        bump_alloc_chain(states2, sizes, aligns, addrs2),
        states1[0] == states2[0],
    ensures
        addrs1 == addrs2,
{
    assert forall|m: int| 0 <= m < addrs1.len() implies #[trigger] addrs1[m] == addrs2[m] by {
        lemma_bump_replay_at(states1, states2, sizes, aligns, addrs1, addrs2, m);
        assert(bump_alloc_step(states1[m], sizes[m], aligns[m], addrs1[m], states1[m + 1]));
        assert(bump_alloc_step(states2[m], sizes[m], aligns[m], addrs2[m], states2[m + 1]));
    }
    assert(addrs1 =~= addrs2);
}

/// The states of two equal-request runs agree position by position.
proof fn lemma_bump_replay_at(
    states1: Seq<BumpAllocator>,
    states2: Seq<BumpAllocator>,
    sizes: Seq<usize>,
    aligns: Seq<usize>,
    addrs1: Seq<usize>,
    addrs2: Seq<usize>,
    k: int,
)
    requires
        bump_alloc_chain(states1, sizes, aligns, addrs1),
        bump_alloc_chain(states2, sizes, aligns, addrs2),
        states1[0] == states2[0],
        0 <= k < states1.len(),
    ensures
        states1[k] == states2[k],
    decreases k,
{
    if k > 0 {
        lemma_bump_replay_at(states1, states2, sizes, aligns, addrs1, addrs2, k - 1);
        assert(bump_alloc_step(states1[k - 1], sizes[k - 1], aligns[k - 1], addrs1[k - 1],
            states1[k]));
        assert(bump_alloc_step(states2[k - 1], sizes[k - 1], aligns[k - 1], addrs2[k - 1],
            states2[k]));
    }
}

/// Along a deallocation run the arena bounds never move and the live count
/// drops by one per step; the next pointer is unchanged until the count
/// reaches zero.
proof fn lemma_bump_dealloc_chain_props(states: Seq<BumpAllocator>, k1: int, k2: int)
    requires
        bump_dealloc_chain(states),
        0 <= k1 <= k2 < states.len(),
    ensures
        states[k2].heap_start == states[k1].heap_start,
        states[k2].heap_end == states[k1].heap_end,
        states[k2].allocations == states[k1].allocations - (k2 - k1),
        states[k2].allocations > 0 ==> states[k2].next == states[k1].next,
    decreases k2 - k1,
{
    if k1 < k2 {
        lemma_bump_dealloc_chain_props(states, k1, k2 - 1);
        assert(bump_dealloc_step(states[k2 - 1], states[k2]));
    }
}

} // verus!
