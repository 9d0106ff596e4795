//! The segregated fixed-size-block allocator. Requests are bucketed
//! into a fixed ascending table of block sizes, each class keeping an
//! intrusive list of freed blocks — modelled here as a stack of block
//! addresses per class, most recently freed on top. A class miss, and any
//! request larger than the biggest class, falls back to an embedded
//! free-list allocator.

use vstd::prelude::*;

use crate::allocator::{align_up_spec, lemma_divides_transitive, lemma_pow2_constants,
    lemma_pow2_le_divides, lemma_pow2_pos};
use crate::allocator::linked_list::{lemma_ll_no_overlap, list_disjoint, list_within, ll_alloc_chain,
    ll_alloc_step, ll_dealloc_step, norm_size, ranges_disjoint, valid_layout, LinkedListAllocator,
    ListNode, NODE_ALIGN, NODE_SIZE};

verus! {

/// How many size classes the table holds.
pub const BLOCK_COUNT: usize = 9;

/// The block size of class `i`: the fixed ascending table
/// {8, 16, 32, 64, 128, 256, 512, 1024, 2048}, each a power of two, so a
/// block address aligned to its class size satisfies every smaller
/// alignment.
pub open spec fn block_size_spec(i: int) -> int {
    if i == 0 {
        8
    } else if i == 1 {
        16
    } else if i == 2 {
        32
    } else if i == 3 {
        64
    } else if i == 4 {
        128
    } else if i == 5 {
        256
    } else if i == 6 {
        512
    } else if i == 7 {
        1024
    } else {
        2048
    }
}

/// The block size of class `i`.
pub fn block_size(i: usize) -> (r: usize)
    requires
        i < BLOCK_COUNT,
    ensures
        r == block_size_spec(i as int),
{
    if i == 0 {
        8
    } else if i == 1 {
        16
    } else if i == 2 {
        32
    } else if i == 3 {
        64
    } else if i == 4 {
        128
    } else if i == 5 {
        256
    } else if i == 6 {
        512
    } else if i == 7 {
        1024
    } else {
        2048
    }
}

/// The size a request really needs from a block: a block must hold `size`
/// bytes and, being aligned to its own (power-of-two) class size, must be at
/// least `align` bytes for the address to satisfy the alignment.
pub open spec fn required_size(size: int, align: int) -> int {
    if size >= align {
        size
    } else {
        align
    }
}

/// Whether some class can serve the request.
pub open spec fn has_class(size: int, align: int) -> bool {
    required_size(size, align) <= 2048
}

/// The smallest class whose block size covers the request (meaningful only
/// when `has_class` holds).
pub open spec fn class_of(size: int, align: int) -> int {
    let r = required_size(size, align);
    if r <= 8 {
        0
    } else if r <= 16 {
        1
    } else if r <= 32 {
        2
    } else if r <= 64 {
        3
    } else if r <= 128 {
        4
    } else if r <= 256 {
        5
    } else if r <= 512 {
        6
    } else if r <= 1024 {
        7
    } else {
        8
    }
}

/// `list_index`: the index of the smallest class whose block size is at
/// least `max(size, align)`, or `None` exactly when the request exceeds the
/// largest class.
pub fn list_index(size: usize, align: usize) -> (r: Option<usize>)
    ensures
        r is Some <==> has_class(size as int, align as int),
        r matches Some(i) ==> {
            &&& i < BLOCK_COUNT
            &&& i == class_of(size as int, align as int)
            &&& block_size_spec(i as int) >= required_size(size as int, align as int)
            &&& forall|j: int|
                0 <= j < i ==> block_size_spec(j) < required_size(size as int, align as int)
        },
{
    let required: usize = if size >= align {
        size
    } else {
        align
    };
    if required <= 8 {
        Some(0)
    } else if required <= 16 {
        Some(1)
    } else if required <= 32 {
        Some(2)
    } else if required <= 64 {
        Some(3)
    } else if required <= 128 {
        Some(4)
    } else if required <= 256 {
        Some(5)
    } else if required <= 512 {
        Some(6)
    } else if required <= 1024 {
        Some(7)
    } else if required <= 2048 {
        Some(8)
    } else {
        None
    }
}

/// A block address on the free list of class `c`: aligned to the class size
/// and within the address space.
pub open spec fn block_wf(addr: usize, c: int) -> bool {
    &&& addr as int % block_size_spec(c) == 0
    &&& addr + block_size_spec(c) <= usize::MAX
}

/// Segregated fixed-size-block allocator: one stack of freed block
/// addresses per size class (top of the stack is the head of the intrusive
/// list), and the embedded free-list allocator used as the fallback.
pub struct FixedSizeBlockAllocator {
    pub lists_heads: Vec<Vec<usize>>,
    pub fallback_allocator: LinkedListAllocator,
}

/// One allocation through the segregated allocator, covering all three
/// paths: pop from the matching class list; on a class miss, draw
/// one block of exactly the class size from the fallback; on an oversized
/// request, delegate the request unchanged to the fallback.
pub open spec fn fsb_alloc_step(
    pre: FixedSizeBlockAllocator,
    size: usize,
    align: usize,
    r: Option<usize>,
    post: FixedSizeBlockAllocator,
) -> bool {
    if has_class(size as int, align as int) {
        let c = class_of(size as int, align as int);
        if pre.classes()[c].len() > 0 {
            &&& r == Some(pre.classes()[c].last())
            &&& post.classes() == pre.classes().update(c, pre.classes()[c].drop_last())
            &&& post.fallback_allocator.free_list@ == pre.fallback_allocator.free_list@
        } else {
            let bs = block_size_spec(c) as usize;
            &&& post.classes() == pre.classes()
            &&& (r is Some <==> pre.fallback_allocator.can_alloc(bs as int, bs as int))
            &&& (r matches Some(a) ==> ll_alloc_step(
                pre.fallback_allocator,
                bs,
                bs,
                a,
                post.fallback_allocator,
            ))
            &&& (r is None ==> post.fallback_allocator.free_list@
                == pre.fallback_allocator.free_list@)
        }
    } else {
        &&& post.classes() == pre.classes()
        &&& (r is Some <==> pre.fallback_allocator.can_alloc(size as int, align as int))
        &&& (r matches Some(a) ==> ll_alloc_step(
            pre.fallback_allocator,
            size,
            align,
            a,
            post.fallback_allocator,
        ))
        &&& (r is None ==> post.fallback_allocator.free_list@ == pre.fallback_allocator.free_list@)
    }
}

/// One deallocation through the segregated allocator: push on the matching
/// class list, or hand an oversized block back to the fallback.
pub open spec fn fsb_dealloc_step(
    pre: FixedSizeBlockAllocator,
    addr: usize,
    size: usize,
    align: usize,
    post: FixedSizeBlockAllocator,
) -> bool {
    if has_class(size as int, align as int) {
        let c = class_of(size as int, align as int);
        &&& post.classes() == pre.classes().update(c, pre.classes()[c].push(addr))
        &&& post.fallback_allocator.free_list@ == pre.fallback_allocator.free_list@
    } else {
        &&& post.classes() == pre.classes()
        &&& ll_dealloc_step(pre.fallback_allocator, addr, size, align, post.fallback_allocator)
    }
}

impl FixedSizeBlockAllocator {
    /// The per-class stacks of freed block addresses, as mathematical
    /// sequences (top of stack last).
    pub open spec fn classes(self) -> Seq<Seq<usize>> {
        Seq::new(self.lists_heads@.len() as nat, |i: int| self.lists_heads@[i]@)
    }

    /// One stack per class, every listed block aligned to its class size,
    /// and a well-formed fallback.
    pub open spec fn wf(self) -> bool {
        &&& self.lists_heads@.len() == BLOCK_COUNT
        &&& forall|c: int, k: int|
            0 <= c < BLOCK_COUNT && 0 <= k < self.classes()[c].len() ==> block_wf(
                #[trigger] self.classes()[c][k],
                c,
            )
        &&& self.fallback_allocator.wf()
    }

    /// An empty allocator: every class list empty, the fallback unarmed.
    pub fn new() -> (r: FixedSizeBlockAllocator)
        ensures
            r.wf(),
            forall|c: int| 0 <= c < BLOCK_COUNT ==> (#[trigger] r.classes()[c]).len() == 0,
            r.fallback_allocator.free_list@ == Seq::<ListNode>::empty(),
    {
        let mut lists: Vec<Vec<usize>> = Vec::new();
        let mut i: usize = 0;
        while i < BLOCK_COUNT
            invariant
                i <= BLOCK_COUNT,
                lists@.len() == i,
                forall|c: int| 0 <= c < i ==> (#[trigger] lists@[c])@.len() == 0,
            decreases BLOCK_COUNT - i,
        {
            lists.push(Vec::new());
            i = i + 1;
        }
        FixedSizeBlockAllocator { lists_heads: lists, fallback_allocator: LinkedListAllocator::new() }
    }

    /// One-time setup: the class lists stay empty and the whole arena goes
    /// to the fallback allocator.
    pub fn init(&mut self, heap_start: usize, heap_size: usize)
        requires
            old(self).wf(),
            old(self).fallback_allocator.free_list@.len() == 0,
            heap_start as int % (NODE_ALIGN as int) == 0,
            heap_size >= NODE_SIZE,
            heap_start + heap_size <= usize::MAX,
        ensures
            final(self).wf(),
            final(self).classes() == old(self).classes(),
            final(self).fallback_allocator.free_list@ == seq![
                (ListNode { addr: heap_start, size: heap_size }),
            ],
    {
        self.fallback_allocator.init(heap_start, heap_size);
        proof {
            assert(self.classes() =~~= old(self).classes());
        }
    }

    /// Delegate a request to the embedded free-list allocator.
    fn fallback_alloc(&mut self, size: usize, align: usize) -> (r: Option<usize>)
        requires
            old(self).wf(),
            valid_layout(size as int, align as int),
        ensures
            final(self).wf(),
            final(self).lists_heads == old(self).lists_heads,
            r is Some <==> old(self).fallback_allocator.can_alloc(size as int, align as int),
            r matches Some(a) ==> ll_alloc_step(
                old(self).fallback_allocator,
                size,
                align,
                a,
                final(self).fallback_allocator,
            ) && a as int % align as int == 0,
            r is None ==> final(self).fallback_allocator.free_list@ == old(
                self,
            ).fallback_allocator.free_list@,
    {
        let r = self.fallback_allocator.allocate(size, align);
        proof {
            assert(self.classes() =~~= old(self).classes());
            if r is Some {
                let a = r->Some_0;
                assert(ll_alloc_step(
                    old(self).fallback_allocator,
                    size,
                    align,
                    a,
                    self.fallback_allocator,
                ));
                let i = choose|i: int|
                    crate::allocator::linked_list::ll_alloc_step_at(
                        old(self).fallback_allocator,
                        size,
                        align,
                        a,
                        self.fallback_allocator,
                        i,
                    );
                assert(crate::allocator::linked_list::ll_alloc_step_at(
                    old(self).fallback_allocator,
                    size,
                    align,
                    a,
                    self.fallback_allocator,
                    i,
                ));
            }
        }
        r
    }

    /// Allocate: pop the head of the matching class list; if that
    /// list is empty, draw one block of exactly the class size (size ==
    /// align == class size) from the fallback; if no class fits, delegate
    /// the request unchanged to the fallback.
    pub fn allocate(&mut self, size: usize, align: usize) -> (r: Option<usize>)
        requires
            old(self).wf(),
            valid_layout(size as int, align as int),
        ensures
            final(self).wf(),
            fsb_alloc_step(*old(self), size, align, r, *final(self)),
            r matches Some(a) ==> a as int % align as int == 0,
    {
        proof {
            lemma_pow2_constants();
            lemma_pow2_pos(align as int);
        }
        match list_index(size, align) {
            Some(index) => {
                let ghost c = index as int;
                let ghost pre = *old(self);
                let mut class_list: Vec<usize> = self.lists_heads.remove(index);
                if class_list.len() > 0 {
                    let addr: usize = class_list.pop().unwrap();
                    self.lists_heads.insert(index, class_list);
                    proof {
                        assert(pre.classes()[c].len() > 0);
                        assert(addr == pre.classes()[c].last());
                        assert(block_wf(addr, c));
                        assert(self.classes() =~~= pre.classes().update(
                            c,
                            pre.classes()[c].drop_last(),
                        ));
                        lemma_pow2_le_divides(align as int, block_size_spec(c));
                        lemma_divides_transitive(addr as int, align as int, block_size_spec(c));
                        assert forall|c2: int, k: int|
                            0 <= c2 < BLOCK_COUNT && 0 <= k < self.classes()[c2].len()
                            implies block_wf(#[trigger] self.classes()[c2][k], c2) by {
                            if c2 == c {
                                assert(self.classes()[c2][k] == pre.classes()[c2][k]);
                            }
                        }
                    }
                    Some(addr)
                } else {
                    self.lists_heads.insert(index, class_list);
                    proof {
                        assert(self.classes() =~~= pre.classes());
                        assert(pre.classes()[c].len() == 0);
                        let bs = block_size_spec(c);
                        assert(bs % bs == 0) by (nonlinear_arith)
                            requires
                                bs >= 1,
                        ;
                        assert(crate::allocator::align_up_spec(bs, bs) == bs);
                        assert(valid_layout(bs, bs));
                    }
                    let bs: usize = block_size(index);
                    let r = self.fallback_alloc(bs, bs);
                    proof {
                        assert(self.classes() =~~= pre.classes());
                        if r is Some {
                            let a = r->Some_0;
                            lemma_pow2_le_divides(align as int, block_size_spec(c));
                            lemma_divides_transitive(a as int, align as int, block_size_spec(c));
                        }
                    }
                    r
                }
            },
            None => {
                let r = self.fallback_alloc(size, align);
                r
            },
        }
    }

    /// Deallocate: push the block on the matching class free list,
    /// or hand an oversized block back to the fallback. The block must
    /// carry its class alignment — it came from a prior matching `allocate`
    /// — else the call is a fatal caller error, excluded by the
    /// precondition.
    pub fn deallocate(&mut self, addr: usize, size: usize, align: usize)
        requires
            old(self).wf(),
            valid_layout(size as int, align as int),
            has_class(size as int, align as int) ==> block_wf(
                addr,
                class_of(size as int, align as int),
            ),
            !has_class(size as int, align as int) ==> addr as int % (NODE_ALIGN as int) == 0
                && addr + norm_size(size as int, align as int) <= usize::MAX,
        ensures
            final(self).wf(),
            fsb_dealloc_step(*old(self), addr, size, align, *final(self)),
    {
        match list_index(size, align) {
            Some(index) => {
                let ghost c = index as int;
                let ghost pre = *old(self);
                // The intrusive class node (one link word) always fits a
                // block: every class size is at least 8 bytes, 8-aligned.
                assert(8 <= block_size_spec(c));
                let mut class_list: Vec<usize> = self.lists_heads.remove(index);
                class_list.push(addr);
                self.lists_heads.insert(index, class_list);
                proof {
                    assert(self.classes() =~~= pre.classes().update(c, pre.classes()[c].push(addr)));
                    assert forall|c2: int, k: int|
                        0 <= c2 < BLOCK_COUNT && 0 <= k < self.classes()[c2].len()
                        implies block_wf(#[trigger] self.classes()[c2][k], c2) by {
                        if c2 == c {
                            if k < pre.classes()[c].len() {
                                assert(self.classes()[c2][k] == pre.classes()[c2][k]);
                            } else {
                                assert(self.classes()[c2][k] == addr);
                            }
                        }
                    }
                }
            },
            None => {
                self.fallback_allocator.deallocate(addr, size, align);
                proof {
                    assert(self.classes() =~~= old(self).classes());
                }
            },
        }
    }
}

/// Every class list of the allocator is empty.
pub open spec fn all_classes_empty(s: FixedSizeBlockAllocator) -> bool {
    forall|c: int| 0 <= c < BLOCK_COUNT ==> (#[trigger] s.classes()[c]).len() == 0
}

/// The size the fallback allocator is asked for when the segregated
/// allocator serves the request from it: the class block size on a class
/// miss, the raw size for an oversized request.
pub open spec fn fsb_request_size(size: usize, align: usize) -> usize {
    if has_class(size as int, align as int) {
        block_size_spec(class_of(size as int, align as int)) as usize
    } else {
        size
    }
}

/// The matching alignment handed to the fallback allocator.
pub open spec fn fsb_request_align(size: usize, align: usize) -> usize {
    if has_class(size as int, align as int) {
        block_size_spec(class_of(size as int, align as int)) as usize
    } else {
        align
    }
}

/// A run of successful segregated allocations with no deallocation in
/// between.
pub open spec fn fsb_alloc_chain(
    states: Seq<FixedSizeBlockAllocator>,
    sizes: Seq<usize>,
    aligns: Seq<usize>,
    addrs: Seq<usize>,
) -> bool {
    &&& states.len() == sizes.len() + 1
    &&& aligns.len() == sizes.len()
    &&& addrs.len() == sizes.len()
    &&& forall|k: int|
        0 <= k < sizes.len() ==> valid_layout(#[trigger] sizes[k] as int, aligns[k] as int)
    &&& forall|k: int|
        0 <= k < sizes.len() ==> fsb_alloc_step(
            states[k],
            sizes[k],
            aligns[k],
            Some(#[trigger] addrs[k]),
            states[k + 1],
        )
}

/// Along such a run the class lists only shrink, so from empty class lists
/// they stay empty: allocation never feeds a class list.
proof fn lemma_fsb_chain_classes_empty(
    states: Seq<FixedSizeBlockAllocator>,
    sizes: Seq<usize>,
    aligns: Seq<usize>,
    addrs: Seq<usize>,
    k: int,
)
    requires
        fsb_alloc_chain(states, sizes, aligns, addrs),
        all_classes_empty(states[0]),
        0 <= k < states.len(),
    ensures
        all_classes_empty(states[k]),
    decreases k,
{
    if k > 0 {
        lemma_fsb_chain_classes_empty(states, sizes, aligns, addrs, k - 1);
        assert(fsb_alloc_step(states[k - 1], sizes[k - 1], aligns[k - 1], Some(addrs[k - 1]),
            states[k]));
        if has_class(sizes[k - 1] as int, aligns[k - 1] as int) {
            let c = class_of(sizes[k - 1] as int, aligns[k - 1] as int);
            assert(states[k - 1].classes()[c].len() == 0);
        }
        assert(states[k].classes() == states[k - 1].classes());
    }
}

/// With empty class lists, every successful segregated allocation is one
/// fallback allocation with the mapped request.
proof fn lemma_fsb_step_to_ll(
    pre: FixedSizeBlockAllocator,
    size: usize,
    align: usize,
    addr: usize,
    post: FixedSizeBlockAllocator,
)
    requires
        fsb_alloc_step(pre, size, align, Some(addr), post),
        all_classes_empty(pre),
        valid_layout(size as int, align as int),
    ensures
        valid_layout(fsb_request_size(size, align) as int, fsb_request_align(size, align) as int),
        ll_alloc_step(
            pre.fallback_allocator,
            fsb_request_size(size, align),
            fsb_request_align(size, align),
            addr,
            post.fallback_allocator,
        ),
{
    if has_class(size as int, align as int) {
        let c = class_of(size as int, align as int);
        assert(pre.classes()[c].len() == 0);
        let bs = block_size_spec(c);
        lemma_pow2_constants();
        assert(bs % bs == 0) by (nonlinear_arith)
            requires
                bs >= 1,
        ;
        assert(align_up_spec(bs, bs) == bs);
        assert(valid_layout(bs, bs));
    }
}

/// Non-overlap: along any run of successful allocations with no
/// deallocation in between, starting with every class list empty and a
/// fallback free list of pairwise disjoint regions within `[lo, hi)` (as
/// `init` establishes), the granted ranges are pairwise disjoint and every
/// range lies within `[lo, hi)`.
pub proof fn lemma_fsb_no_overlap(
    states: Seq<FixedSizeBlockAllocator>,
    sizes: Seq<usize>,
    aligns: Seq<usize>,
    addrs: Seq<usize>,
    lo: int,
    hi: int,
)
    requires
        fsb_alloc_chain(states, sizes, aligns, addrs),
        all_classes_empty(states[0]),
        list_disjoint(states[0].fallback_allocator.free_list@),
        list_within(states[0].fallback_allocator.free_list@, lo, hi),
        hi <= usize::MAX,
    ensures
        forall|m: int, n: int|
            0 <= m < n < addrs.len() ==> ranges_disjoint(
                #[trigger] addrs[m] as int,
                sizes[m] as int,
                #[trigger] addrs[n] as int,
                sizes[n] as int,
            ),
        forall|m: int|
            0 <= m < addrs.len() ==> lo <= #[trigger] addrs[m] && addrs[m] + sizes[m] <= hi,
{
    let lls = Seq::new(states.len(), |k: int| states[k].fallback_allocator);
    let msz = Seq::new(sizes.len(), |k: int| fsb_request_size(sizes[k], aligns[k]));
    let mal = Seq::new(sizes.len(), |k: int| fsb_request_align(sizes[k], aligns[k]));
    assert forall|k: int| 0 <= k < states.len() implies all_classes_empty(#[trigger] states[k]) by {
        lemma_fsb_chain_classes_empty(states, sizes, aligns, addrs, k);
    }
    assert forall|k: int|
        0 <= k < msz.len() implies valid_layout(#[trigger] msz[k] as int, mal[k] as int) by {
        assert(fsb_alloc_step(states[k], sizes[k], aligns[k], Some(addrs[k]), states[k + 1]));
        assert(valid_layout(sizes[k] as int, aligns[k] as int));
        lemma_fsb_step_to_ll(states[k], sizes[k], aligns[k], addrs[k], states[k + 1]);
    }
    assert forall|k: int|
        0 <= k < msz.len() implies ll_alloc_step(lls[k], msz[k], mal[k], #[trigger] addrs[k],
        lls[k + 1]) by {
        assert(fsb_alloc_step(states[k], sizes[k], aligns[k], Some(addrs[k]), states[k + 1]));
        assert(valid_layout(sizes[k] as int, aligns[k] as int));
        lemma_fsb_step_to_ll(states[k], sizes[k], aligns[k], addrs[k], states[k + 1]);
        assert(lls[k] == states[k].fallback_allocator);
        assert(lls[k + 1] == states[k + 1].fallback_allocator);
    }
    assert(lls[0] == states[0].fallback_allocator);
    assert(ll_alloc_chain(lls, msz, mal, addrs));
    lemma_ll_no_overlap(lls, msz, mal, addrs, lo, hi);
    assert forall|m: int| 0 <= m < addrs.len() implies sizes[m] <= #[trigger] msz[m] by {
        assert(valid_layout(sizes[m] as int, aligns[m] as int));
        assert(msz[m] == fsb_request_size(sizes[m], aligns[m]));
    }
    assert forall|m: int, n: int|
        0 <= m < n < addrs.len() implies ranges_disjoint(#[trigger] addrs[m] as int,
        sizes[m] as int, #[trigger] addrs[n] as int, sizes[n] as int) by {
        assert(ranges_disjoint(addrs[m] as int, msz[m] as int, addrs[n] as int, msz[n] as int));
    }
    assert forall|m: int|
        0 <= m < addrs.len() implies lo <= #[trigger] addrs[m] && addrs[m] + sizes[m] <= hi by {
        assert(lo <= addrs[m] && addrs[m] + msz[m] <= hi);
    }
}

/// Exhaustion: with every class list empty, a run of successful segregated
/// allocations draws everything from the fallback, and consumes from it at
/// least the normalized form of each mapped request — each of which covers
/// the requested size — so the run never hands out more bytes than the
/// fallback free list held at the start (after `init`, the heap size), and
/// demanding more must fail at some point.
pub proof fn lemma_fsb_exhaustion(
    states: Seq<FixedSizeBlockAllocator>,
    sizes: Seq<usize>,
    aligns: Seq<usize>,
    addrs: Seq<usize>,
)
    requires
        fsb_alloc_chain(states, sizes, aligns, addrs),
        all_classes_empty(states[0]),
    ensures
        crate::allocator::linked_list::sum_norm_sizes(
            Seq::new(sizes.len(), |k: int| fsb_request_size(sizes[k], aligns[k])),
            Seq::new(sizes.len(), |k: int| fsb_request_align(sizes[k], aligns[k])),
        ) <= crate::allocator::linked_list::total_free(states[0].fallback_allocator.free_list@),
{
    let lls = Seq::new(states.len(), |k: int| states[k].fallback_allocator);
    let msz = Seq::new(sizes.len(), |k: int| fsb_request_size(sizes[k], aligns[k]));
    let mal = Seq::new(sizes.len(), |k: int| fsb_request_align(sizes[k], aligns[k]));
    assert forall|k: int| 0 <= k < states.len() implies all_classes_empty(#[trigger] states[k]) by {
        lemma_fsb_chain_classes_empty(states, sizes, aligns, addrs, k);
    }
    assert forall|k: int|
        0 <= k < msz.len() implies valid_layout(#[trigger] msz[k] as int, mal[k] as int) by {
        assert(fsb_alloc_step(states[k], sizes[k], aligns[k], Some(addrs[k]), states[k + 1]));
        assert(valid_layout(sizes[k] as int, aligns[k] as int));
        lemma_fsb_step_to_ll(states[k], sizes[k], aligns[k], addrs[k], states[k + 1]);
    }
    assert forall|k: int|
        0 <= k < msz.len() implies ll_alloc_step(lls[k], msz[k], mal[k], #[trigger] addrs[k],
        lls[k + 1]) by {
        assert(fsb_alloc_step(states[k], sizes[k], aligns[k], Some(addrs[k]), states[k + 1]));
        assert(valid_layout(sizes[k] as int, aligns[k] as int));
        lemma_fsb_step_to_ll(states[k], sizes[k], aligns[k], addrs[k], states[k + 1]);
        assert(lls[k] == states[k].fallback_allocator);
        assert(lls[k + 1] == states[k + 1].fallback_allocator);
    }
    assert(lls[0] == states[0].fallback_allocator);
    assert(ll_alloc_chain(lls, msz, mal, addrs));
    crate::allocator::linked_list::lemma_ll_exhaustion(lls, msz, mal, addrs);
}

/// Segregated class reuse: deallocate a block whose layout maps to class
/// `c`, then allocate any request mapping to the same class before anything
/// else happens — the allocation returns exactly the freed block, and the
/// fallback allocator is untouched by both operations.
pub proof fn lemma_fsb_class_reuse(
    s0: FixedSizeBlockAllocator,
    addr: usize,
    size1: usize,
    align1: usize,
    s1: FixedSizeBlockAllocator,
    size2: usize,
    align2: usize,
    r: Option<usize>,
    s2: FixedSizeBlockAllocator,
)
    requires
        s0.wf(),
        fsb_dealloc_step(s0, addr, size1, align1, s1),
        fsb_alloc_step(s1, size2, align2, r, s2),
        has_class(size1 as int, align1 as int),
        has_class(size2 as int, align2 as int),
        class_of(size1 as int, align1 as int) == class_of(size2 as int, align2 as int),
    ensures
        r == Some(addr),
        s2.fallback_allocator.free_list@ == s0.fallback_allocator.free_list@,
{
    let c = class_of(size1 as int, align1 as int);
    assert(s1.classes()[c] == s0.classes()[c].push(addr));
    assert(s1.classes()[c].len() > 0);
    assert(s1.classes()[c].last() == addr);
}

} // verus!
