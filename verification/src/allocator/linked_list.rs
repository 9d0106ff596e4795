//! The first-fit free-list allocator. The in-memory design stores an
//! intrusive node (a size word and a link word) inside every free region;
//! here the list of free regions is modelled explicitly as `(addr, size)`
//! pairs in list order, head first. Requests are normalized so every granted
//! region can later host such a node again, and freed regions are pushed on
//! the head of the list; adjacent free regions are never coalesced (a
//! documented limitation of the design).

use vstd::prelude::*;

use crate::allocator::{align_up_spec, align_up_checked, is_power_of_two, lemma_align_up,
    lemma_align_up_least, lemma_divides_transitive, lemma_mod_add_zero, lemma_mod_sub_zero,
    lemma_pow2_constants, lemma_pow2_le_divides, lemma_pow2_pos};

verus! {

/// Bytes of the intrusive free-region header on a 64-bit target: a size word
/// and a link word. Every free region must be able to hold one.
pub const NODE_SIZE: usize = 16;

/// Alignment of that header: one machine word.
pub const NODE_ALIGN: usize = 8;

/// One free region: its start address and its size in bytes. In the
/// intrusive design this record lives at `addr` itself.
#[derive(Clone, Copy, Debug, PartialEq, Eq)]
pub struct ListNode {
    pub addr: usize,
    pub size: usize,
}

impl ListNode {
    /// The first address past the region.
    pub open spec fn end(self) -> int {
        self.addr + self.size
    }

    /// A region that can serve as a free-list node: header-aligned, large
    /// enough to hold the header, and within the address space.
    pub open spec fn wf(self) -> bool {
        &&& self.addr as int % (NODE_ALIGN as int) == 0
        &&& self.size >= NODE_SIZE
        &&& self.addr + self.size <= usize::MAX
    }

    /// A node describing the region `[addr, addr + size)`.
    pub fn new(addr: usize, size: usize) -> (r: ListNode)
        ensures
            r.addr == addr,
            r.size == size,
    {
        ListNode { addr, size }
    }

    /// The start address of the region this node describes.
    pub fn start_addr(&self) -> (r: usize)
        ensures
            r == self.addr,
    {
        self.addr
    }

    /// The first address past the region this node describes.
    pub fn end_addr(&self) -> (r: usize)
        requires
            self.addr + self.size <= usize::MAX,
        ensures
            r == self.end(),
    {
        self.addr + self.size
    }
}

/// The request alignment, raised to at least the full node size. Raising it
/// this far (not merely to the node's alignment) keeps every normalized size
/// a multiple of the node size, so a freed block can serve any smaller
/// compatible request without ever leaving a sliver too small for a node.
pub open spec fn norm_align(align: int) -> int {
    if align >= NODE_SIZE {
        align
    } else {
        NODE_SIZE as int
    }
}

/// The request size after normalization by `size_align`: padded to a
/// multiple of the normalized alignment, and to at least the header size, so
/// the granted region can later host a node of its own.
pub open spec fn norm_size(size: int, align: int) -> int {
    let padded = align_up_spec(size, norm_align(align));
    if padded >= NODE_SIZE {
        padded
    } else {
        NODE_SIZE as int
    }
}

/// A request the free-list strategy accepts: a power-of-two alignment, with
/// a normalized size that still fits the address space (the validity bounds
/// of a layout).
pub open spec fn valid_layout(size: int, align: int) -> bool {
    &&& is_power_of_two(align)
    &&& 0 <= size
    &&& align_up_spec(size, norm_align(align)) <= usize::MAX
}

/// Whether the (already normalized) request fits in the region: the aligned
/// start plus the size stays inside, and the leftover tail is either nothing
/// or big enough to be reinserted as a node (the key edge-case policy).
pub open spec fn region_fits(r: ListNode, size: int, align: int) -> bool {
    let start = align_up_spec(r.addr as int, align);
    let excess = r.end() - (start + size);
    &&& start + size <= r.end()
    &&& (excess == 0 || excess >= NODE_SIZE)
}

/// `i` is the first-fit position for the request among `regions`.
pub open spec fn find_at(regions: Seq<ListNode>, size: int, align: int, i: int) -> bool {
    &&& 0 <= i < regions.len()
    &&& region_fits(regions[i], size, align)
    &&& forall|j: int| 0 <= j < i ==> !region_fits(#[trigger] regions[j], size, align)
}

/// The free list after carving the request out of `regions[i]`: the region
/// leaves the list, and a nonzero leftover tail is pushed on the head.
pub open spec fn ll_post_list(regions: Seq<ListNode>, i: int, size: int, align: int) -> Seq<
    ListNode,
> {
    let start = align_up_spec(regions[i].addr as int, align);
    let excess = regions[i].end() - (start + size);
    if excess > 0 {
        seq![ListNode { addr: (start + size) as usize, size: excess as usize }] + regions.remove(i)
    } else {
        regions.remove(i)
    }
}

/// One successful free-list allocation with the raw request `(size, align)`,
/// as a relation between the state before, the returned address, and the
/// state after.
pub open spec fn ll_alloc_step(
    pre: LinkedListAllocator,
    size: usize,
    align: usize,
    addr: usize,
    post: LinkedListAllocator,
) -> bool {
    exists|i: int| ll_alloc_step_at(pre, size, align, addr, post, i)
}

/// The same relation with the chosen first-fit position made explicit.
pub open spec fn ll_alloc_step_at(
    pre: LinkedListAllocator,
    size: usize,
    align: usize,
    addr: usize,
    post: LinkedListAllocator,
    i: int,
) -> bool {
    let ns = norm_size(size as int, align as int);
    let na = norm_align(align as int);
    let regions = pre.free_list@;
    &&& find_at(regions, ns, na, i)
    &&& addr == align_up_spec(regions[i].addr as int, na)
    &&& addr as int % na == 0
    &&& addr as int % align as int == 0
    &&& regions[i].addr <= addr
    &&& addr + ns <= regions[i].end()
    &&& post.free_list@ == ll_post_list(regions, i, ns, na)
}

/// One deallocation with the raw request: the freed region, renormalized
/// exactly as at allocation time, joins the head of the list.
pub open spec fn ll_dealloc_step(
    pre: LinkedListAllocator,
    addr: usize,
    size: usize,
    align: usize,
    post: LinkedListAllocator,
) -> bool {
    post.free_list@ == seq![
        ListNode { addr, size: norm_size(size as int, align as int) as usize },
    ] + pre.free_list@
}

/// First-fit free-list allocator: the free regions in list order, most
/// recently freed first.
pub struct LinkedListAllocator {
    pub free_list: Vec<ListNode>,
}

/// The normalized alignment stays a power of two, is at least the node
/// size, and is a multiple of the node size, of the header alignment, and
/// of the raw alignment.
pub proof fn lemma_norm_align(align: int)
    requires
        is_power_of_two(align),
    ensures
        is_power_of_two(norm_align(align)),
        norm_align(align) >= NODE_SIZE,
        norm_align(align) % (NODE_ALIGN as int) == 0,
        norm_align(align) % (NODE_SIZE as int) == 0,
        norm_align(align) % align == 0,
{
    lemma_pow2_constants();
    lemma_pow2_pos(align);
    let na = norm_align(align);
    if align >= NODE_SIZE {
        lemma_pow2_le_divides(NODE_ALIGN as int, na);
        lemma_pow2_le_divides(NODE_SIZE as int, na);
        assert(na % align == 0) by (nonlinear_arith)
            requires
                na == align && align >= 1,
        ;
    } else {
        lemma_pow2_le_divides(align, NODE_SIZE as int);
        assert((NODE_SIZE as int) % (NODE_ALIGN as int) == 0);
        assert(na % (NODE_SIZE as int) == 0) by (nonlinear_arith)
            requires
                na == NODE_SIZE as int,
        ;
    }
}

/// The normalized size is at least the request, at least the node size,
/// and a multiple of both the node size and the header alignment.
pub proof fn lemma_norm_size(size: int, align: int)
    requires
        is_power_of_two(align),
        0 <= size,
    ensures
        norm_size(size, align) >= size,
        norm_size(size, align) >= NODE_SIZE,
        norm_size(size, align) % (NODE_SIZE as int) == 0,
        norm_size(size, align) % (NODE_ALIGN as int) == 0,
{
    lemma_norm_align(align);
    let na = norm_align(align);
    lemma_pow2_pos(na);
    lemma_align_up(size, na);
    let padded = align_up_spec(size, na);
    lemma_divides_transitive(padded, NODE_SIZE as int, na);
    lemma_divides_transitive(padded, NODE_ALIGN as int, na);
    assert((NODE_SIZE as int) % (NODE_SIZE as int) == 0);
    assert((NODE_SIZE as int) % (NODE_ALIGN as int) == 0);
}

impl LinkedListAllocator {
    /// Every region on the free list can serve as a node.
    pub open spec fn wf(self) -> bool {
        forall|i: int| 0 <= i < self.free_list@.len() ==> (#[trigger] self.free_list@[i]).wf()
    }

    /// A request succeeds exactly when some listed region fits its
    /// normalized form.
    pub open spec fn can_alloc(self, size: int, align: int) -> bool {
        exists|i: int|
            0 <= i < self.free_list@.len() && region_fits(
                #[trigger] self.free_list@[i],
                norm_size(size, align),
                norm_align(align),
            )
    }

    /// An empty allocator, to be tied to an arena by `init`.
    pub fn new() -> (r: LinkedListAllocator)
        ensures
            r.free_list@ == Seq::<ListNode>::empty(),
            r.wf(),
    {
        LinkedListAllocator { free_list: Vec::new() }
    }

    /// Normalize a request so the granted region can
    /// later host a free-list node of its own. Applied identically at
    /// allocate and deallocate time.
    pub fn size_align(size: usize, align: usize) -> (r: (usize, usize))
        requires
            valid_layout(size as int, align as int),
        ensures
            r.0 == norm_size(size as int, align as int),
            r.1 == norm_align(align as int),
    {
        proof {
            lemma_norm_align(align as int);
            lemma_pow2_pos(norm_align(align as int));
        }
        let align2: usize = if align >= NODE_SIZE {
            align
        } else {
            NODE_SIZE
        };
        let padded: usize = crate::allocator::align_up(size, align2);
        let size2: usize = if padded >= NODE_SIZE {
            padded
        } else {
            NODE_SIZE
        };
        (size2, align2)
    }

    /// Try to place the (normalized) request in `region`: the aligned start
    /// must leave the whole request inside, and the leftover tail must be
    /// nothing or enough for a future node. Returns the allocation start.
    pub fn alloc_from_region(region: &ListNode, size: usize, align: usize) -> (r: Result<
        usize,
        (),
    >)
        requires
            is_power_of_two(align as int),
            region.addr + region.size <= usize::MAX,
        ensures
            r is Ok <==> region_fits(*region, size as int, align as int),
            r matches Ok(start) ==> start == align_up_spec(region.addr as int, align as int),
    {
        proof {
            lemma_pow2_pos(align as int);
            lemma_align_up(region.addr as int, align as int);
        }
        let alloc_start: usize = match align_up_checked(region.addr, align) {
            Some(a) => a,
            None => {
                return Err(());
            },
        };
        let region_end: usize = region.addr + region.size;
        if alloc_start > region_end {
            return Err(());
        }
        if size > region_end - alloc_start {
            return Err(());
        }
        let alloc_end: usize = alloc_start + size;
        let excess_size: usize = region_end - alloc_end;
        if excess_size > 0 && excess_size < NODE_SIZE {
            return Err(());
        }
        Ok(alloc_start)
    }

    /// Record the region `[addr, addr + size)` as free by pushing it on the
    /// head of the list. The region must be able to hold a node: a
    /// violation is a fatal caller error, excluded by the precondition.
    fn add_free_region(&mut self, addr: usize, size: usize)
        requires
            old(self).wf(),
            addr as int % (NODE_ALIGN as int) == 0,
            size >= NODE_SIZE,
            addr + size <= usize::MAX,
        ensures
            final(self).wf(),
            final(self).free_list@ == seq![(ListNode { addr, size })] + old(self).free_list@,
    {
        self.free_list.insert(0, ListNode { addr, size });
        proof {
            assert(self.free_list@ =~= seq![ListNode { addr, size }] + old(self).free_list@);
            assert forall|i: int| 0 <= i < self.free_list@.len() implies (
            #[trigger] self.free_list@[i]).wf() by {
                if i > 0 {
                    assert(self.free_list@[i] == old(self).free_list@[i - 1]);
                }
            }
        }
    }

    /// One-time setup: install the whole externally validated arena as a
    /// single free region.
    pub fn init(&mut self, heap_start: usize, heap_size: usize)
        requires
            old(self).free_list@.len() == 0,
            heap_start as int % (NODE_ALIGN as int) == 0,
            heap_size >= NODE_SIZE,
            heap_start + heap_size <= usize::MAX,
        ensures
            final(self).wf(),
            final(self).free_list@ == seq![(ListNode { addr: heap_start, size: heap_size })],
    {
        self.add_free_region(heap_start, heap_size);
        proof {
            assert(self.free_list@ =~= seq![ListNode { addr: heap_start, size: heap_size }]);
        }
    }

    /// First-fit scan: walk the list in order, unlink
    /// and return the first region the normalized request fits in, together
    /// with the aligned allocation start.
    pub fn find_region(&mut self, size: usize, align: usize) -> (r: Option<(ListNode, usize)>)
        requires
            old(self).wf(),
            is_power_of_two(align as int),
        ensures
            final(self).wf(),
            r is Some <==> exists|i: int|
                0 <= i < old(self).free_list@.len() && region_fits(
                    #[trigger] old(self).free_list@[i],
                    size as int,
                    align as int,
                ),
            r matches Some((node, start)) ==> exists|i: int|
                {
                    &&& #[trigger] find_at(old(self).free_list@, size as int, align as int, i)
                    &&& node == old(self).free_list@[i]
                    &&& start == align_up_spec(node.addr as int, align as int)
                    &&& final(self).free_list@ == old(self).free_list@.remove(i)
                },
            r is None ==> final(self).free_list@ == old(self).free_list@,
    {
        let mut idx: usize = 0;
        while idx < self.free_list.len()
            invariant
                self.wf(),
                is_power_of_two(align as int),
                self.free_list@ == old(self).free_list@,
                idx <= self.free_list@.len(),
                forall|j: int|
                    0 <= j < idx ==> !region_fits(
                        #[trigger] old(self).free_list@[j],
                        size as int,
                        align as int,
                    ),
            decreases self.free_list@.len() - idx,
        {
            let region: ListNode = self.free_list[idx];
            match LinkedListAllocator::alloc_from_region(&region, size, align) {
                Ok(alloc_start) => {
                    let node: ListNode = self.free_list.remove(idx);
                    proof {
                        assert(find_at(old(self).free_list@, size as int, align as int, idx as int));
                        assert forall|i: int| 0 <= i < self.free_list@.len() implies (
                        #[trigger] self.free_list@[i]).wf() by {
                            if i < idx {
                                assert(self.free_list@[i] == old(self).free_list@[i]);
                            } else {
                                assert(self.free_list@[i] == old(self).free_list@[i + 1]);
                            }
                        }
                    }
                    return Some((node, alloc_start));
                },
                Err(_) => {
                    idx = idx + 1;
                },
            }
        }
        None
    }

    /// Allocate: normalize the request, scan first-fit, carve the
    /// allocation out of the found region and reinsert a nonzero leftover
    /// tail at the head. Returns the aligned address, or `None` exactly when
    /// no listed region fits the normalized request.
    pub fn allocate(&mut self, size: usize, align: usize) -> (r: Option<usize>)
        requires
            old(self).wf(),
            valid_layout(size as int, align as int),
        ensures
            final(self).wf(),
            r is Some <==> old(self).can_alloc(size as int, align as int),
            r matches Some(addr) ==> ll_alloc_step(*old(self), size, align, addr, *final(self)),
            r is None ==> final(self).free_list@ == old(self).free_list@,
    {
        proof {
            lemma_norm_align(align as int);
            lemma_norm_size(size as int, align as int);
            lemma_pow2_pos(norm_align(align as int));
        }
        let (nsize, nalign) = Self::size_align(size, align);
        match self.find_region(nsize, nalign) {
            Some((region, alloc_start)) => {
                let ghost pre = *old(self);
                let ghost ns = norm_size(size as int, align as int);
                let ghost na = norm_align(align as int);
                let ghost i = choose|i: int|
                    {
                        &&& #[trigger] find_at(pre.free_list@, ns, na, i)
                        &&& region == pre.free_list@[i]
                        &&& alloc_start == align_up_spec(region.addr as int, na)
                        &&& self.free_list@ == pre.free_list@.remove(i)
                    };
                proof {
                    assert(find_at(pre.free_list@, ns, na, i));
                    assert(pre.free_list@[i].wf());
                    lemma_align_up(region.addr as int, na);
                }
                let alloc_end: usize = alloc_start + nsize;
                let excess_size: usize = (region.addr + region.size) - alloc_end;
                if excess_size > 0 {
                    proof {
                        lemma_divides_transitive(alloc_start as int, NODE_ALIGN as int, na);
                        lemma_mod_add_zero(alloc_start as int, ns, NODE_ALIGN as int);
                    }
                    self.add_free_region(alloc_end, excess_size);
                }
                proof {
                    assert(self.free_list@ == ll_post_list(pre.free_list@, i, ns, na));
                    assert(ll_alloc_step_at(pre, size, align, alloc_start, *self, i)) by {
                        lemma_divides_transitive(alloc_start as int, align as int, na);
                    }
                }
                Some(alloc_start)
            },
            None => None,
        }
    }

    /// Deallocate: renormalize the layout exactly as at allocation
    /// time and push the freed region on the head of the free list. The
    /// address must carry the header alignment: a violation is a fatal
    /// caller error, excluded by the precondition.
    pub fn deallocate(&mut self, addr: usize, size: usize, align: usize)
        requires
            old(self).wf(),
            valid_layout(size as int, align as int),
            addr as int % (NODE_ALIGN as int) == 0,
            addr + norm_size(size as int, align as int) <= usize::MAX,
        ensures
            final(self).wf(),
            ll_dealloc_step(*old(self), addr, size, align, *final(self)),
            final(self).free_list@ == seq![
                (ListNode { addr, size: norm_size(size as int, align as int) as usize }),
            ] + old(self).free_list@,
    {
        proof {
            lemma_norm_size(size as int, align as int);
        }
        let (nsize, _nalign) = Self::size_align(size, align);
        self.add_free_region(addr, nsize);
    }

    /// The free regions as `(addr, size)` pairs, in list order: head (most
    /// recently freed) first.
    pub fn free_regions(&self) -> (r: Vec<(usize, usize)>)
        ensures
            r@.len() == self.free_list@.len(),
            forall|i: int|
                0 <= i < r@.len() ==> #[trigger] r@[i] == (
                self.free_list@[i].addr,
                self.free_list@[i].size,
            ),
    {
        let mut out: Vec<(usize, usize)> = Vec::new();
        let mut idx: usize = 0;
        while idx < self.free_list.len()
            invariant
                idx <= self.free_list@.len(),
                out@.len() == idx,
                forall|i: int|
                    0 <= i < idx ==> #[trigger] out@[i] == (
                    self.free_list@[i].addr,
                    self.free_list@[i].size,
                ),
            decreases self.free_list@.len() - idx,
        {
            let node: ListNode = self.free_list[idx];
            out.push((node.addr, node.size));
            idx = idx + 1;
        }
        out
    }
}

/// Two byte ranges do not intersect.
pub open spec fn ranges_disjoint(a1: int, s1: int, a2: int, s2: int) -> bool {
    a1 + s1 <= a2 || a2 + s2 <= a1
}

/// The region lies within `[lo, hi)`.
pub open spec fn node_within(n: ListNode, lo: int, hi: int) -> bool {
    lo <= n.addr && n.end() <= hi
}

/// Every listed region lies within `[lo, hi)`.
pub open spec fn list_within(rs: Seq<ListNode>, lo: int, hi: int) -> bool {
    forall|i: int| 0 <= i < rs.len() ==> node_within(#[trigger] rs[i], lo, hi)
}

/// The listed regions are pairwise disjoint.
pub open spec fn list_disjoint(rs: Seq<ListNode>) -> bool {
    forall|i: int, j: int|
        0 <= i < j < rs.len() ==> ranges_disjoint(
            (#[trigger] rs[i]).addr as int,
            rs[i].size as int,
            (#[trigger] rs[j]).addr as int,
            rs[j].size as int,
        )
}

/// The byte range `[a, a + s)` intersects no listed region.
pub open spec fn range_avoids_list(a: int, s: int, rs: Seq<ListNode>) -> bool {
    forall|i: int|
        0 <= i < rs.len() ==> ranges_disjoint(a, s, (#[trigger] rs[i]).addr as int, rs[i].size as int)
}

/// A single region within `[lo, hi)` — the free list right after `init` —
/// satisfies the premises of the non-overlap law.
pub proof fn lemma_singleton_region_invariants(n: ListNode, lo: int, hi: int)
    requires
        lo <= n.addr,
        n.end() <= hi,
    ensures
        list_disjoint(seq![n]),
        list_within(seq![n], lo, hi),
{
}

/// Removing an element shifts the later indices down by one.
proof fn lemma_remove_index(rs: Seq<ListNode>, i: int, k: int)
    requires
        0 <= i < rs.len(),
        0 <= k < rs.len() - 1,
    ensures
        rs.remove(i)[k] == if k < i {
            rs[k]
        } else {
            rs[k + 1]
        },
{
}

/// How one allocation step transforms the free list geometrically: the
/// invariants (pairwise disjoint, within the arena) are preserved, the
/// granted range lies within the arena, intersects no remaining free
/// region, and intersects no range that already avoided the whole list.
proof fn lemma_ll_step_frame(
    pre: LinkedListAllocator,
    size: usize,
    align: usize,
    addr: usize,
    post: LinkedListAllocator,
    lo: int,
    hi: int,
)
    requires
        valid_layout(size as int, align as int),
        ll_alloc_step(pre, size, align, addr, post),
        list_disjoint(pre.free_list@),
        list_within(pre.free_list@, lo, hi),
        hi <= usize::MAX,
    ensures
        list_disjoint(post.free_list@),
        list_within(post.free_list@, lo, hi),
        lo <= addr && addr + norm_size(size as int, align as int) <= hi,
        range_avoids_list(addr as int, norm_size(size as int, align as int), post.free_list@),
        forall|a: int, s: int|
            #[trigger] range_avoids_list(a, s, pre.free_list@) ==> range_avoids_list(
                a,
                s,
                post.free_list@,
            ) && ranges_disjoint(a, s, addr as int, norm_size(size as int, align as int)),
{
    let ns = norm_size(size as int, align as int);
    let na = norm_align(align as int);
    let rs = pre.free_list@;
    let ps = post.free_list@;
    let i = choose|i: int| ll_alloc_step_at(pre, size, align, addr, post, i);
    assert(ll_alloc_step_at(pre, size, align, addr, post, i));
    let excess = rs[i].end() - (addr + ns);
    lemma_norm_size(size as int, align as int);
    assert(node_within(rs[i], lo, hi));
    // The pre index behind each element of the post list: index 0 may be
    // the leftover tail carved out of region i; the rest are the other pre
    // regions, in order.
    let shift = if excess > 0 {
        1int
    } else {
        0int
    };
    let pre_of = |k: int|
        if k - shift < i {
            k - shift
        } else {
            k - shift + 1
        };
    assert(ps.len() == rs.len() - 1 + shift);
    assert forall|k: int| shift <= k < ps.len() implies {
        &&& #[trigger] ps[k] == rs[pre_of(k)]
        &&& 0 <= pre_of(k) < rs.len()
        &&& pre_of(k) != i
    } by {
        lemma_remove_index(rs, i, k - shift);
        assert(ps[k] == rs.remove(i)[k - shift]);
    }
    if excess > 0 {
        assert(ps[0] == ListNode { addr: (addr + ns) as usize, size: excess as usize });
        assert(node_within(ps[0], lo, hi));
    }
    assert forall|k: int| 0 <= k < ps.len() implies node_within(#[trigger] ps[k], lo, hi) by {
        if k >= shift {
            assert(node_within(rs[pre_of(k)], lo, hi));
        }
    }
    assert forall|k1: int, k2: int|
        0 <= k1 < k2 < ps.len() implies ranges_disjoint(
        (#[trigger] ps[k1]).addr as int,
        ps[k1].size as int,
        (#[trigger] ps[k2]).addr as int,
        ps[k2].size as int,
    ) by {
        let j2 = pre_of(k2);
        if k1 >= shift {
            let j1 = pre_of(k1);
            assert(j1 < j2);
            assert(ranges_disjoint(rs[j1].addr as int, rs[j1].size as int, rs[j2].addr as int,
                rs[j2].size as int));
        } else {
            // k1 is the leftover tail, inside region i; region j2 is another
            // pre region, disjoint from region i.
            if i < j2 {
                assert(ranges_disjoint(rs[i].addr as int, rs[i].size as int, rs[j2].addr as int,
                    rs[j2].size as int));
            } else {
                assert(ranges_disjoint(rs[j2].addr as int, rs[j2].size as int, rs[i].addr as int,
                    rs[i].size as int));
            }
        }
    }
    assert forall|k: int|
        0 <= k < ps.len() implies ranges_disjoint(
        addr as int,
        ns,
        (#[trigger] ps[k]).addr as int,
        ps[k].size as int,
    ) by {
        if k >= shift {
            let j = pre_of(k);
            // The granted range lies inside region i, disjoint from region j.
            if i < j {
                assert(ranges_disjoint(rs[i].addr as int, rs[i].size as int, rs[j].addr as int,
                    rs[j].size as int));
            } else {
                assert(ranges_disjoint(rs[j].addr as int, rs[j].size as int, rs[i].addr as int,
                    rs[i].size as int));
            }
        }
    }
    assert forall|a: int, s: int|
        #[trigger] range_avoids_list(a, s, rs) implies range_avoids_list(a, s, ps)
        && ranges_disjoint(a, s, addr as int, ns) by {
        assert(ranges_disjoint(a, s, rs[i].addr as int, rs[i].size as int));
        assert forall|k: int|
            0 <= k < ps.len() implies ranges_disjoint(a, s, (#[trigger] ps[k]).addr as int,
            ps[k].size as int) by {
            if k >= shift {
                let j = pre_of(k);
                assert(ranges_disjoint(a, s, rs[j].addr as int, rs[j].size as int));
            }
        }
    }
}

/// A run of successful free-list allocations with no deallocation in
/// between.
pub open spec fn ll_alloc_chain(
    states: Seq<LinkedListAllocator>,
    sizes: Seq<usize>,
    aligns: Seq<usize>,
    addrs: Seq<usize>,
) -> bool {
    &&& states.len() == sizes.len() + 1
    &&& aligns.len() == sizes.len()
    &&& addrs.len() == sizes.len()
    &&& forall|k: int|
        0 <= k < sizes.len() ==> valid_layout(#[trigger] sizes[k] as int, aligns[k] as int)
    &&& forall|k: int|
        0 <= k < sizes.len() ==> ll_alloc_step(
            states[k],
            sizes[k],
            aligns[k],
            #[trigger] addrs[k],
            states[k + 1],
        )
}

/// The range `[a, a + s)` intersects none of the granted ranges (at their
/// normalized sizes).
pub open spec fn range_avoids_results(
    a: int,
    s: int,
    sizes: Seq<usize>,
    aligns: Seq<usize>,
    addrs: Seq<usize>,
) -> bool {
    forall|n: int|
        0 <= n < addrs.len() ==> ranges_disjoint(
            a,
            s,
            #[trigger] addrs[n] as int,
            norm_size(sizes[n] as int, aligns[n] as int),
        )
}

/// The inductive invariant behind the non-overlap law.
proof fn lemma_ll_chain_invariant(
    states: Seq<LinkedListAllocator>,
    sizes: Seq<usize>,
    aligns: Seq<usize>,
    addrs: Seq<usize>,
    lo: int,
    hi: int,
)
    requires
        ll_alloc_chain(states, sizes, aligns, addrs),
        list_disjoint(states[0].free_list@),
        list_within(states[0].free_list@, lo, hi),
        hi <= usize::MAX,
    ensures
        list_disjoint(states.last().free_list@),
        list_within(states.last().free_list@, lo, hi),
        forall|m: int|
            0 <= m < addrs.len() ==> lo <= #[trigger] addrs[m] && addrs[m] + norm_size(
                sizes[m] as int,
                aligns[m] as int,
            ) <= hi,
        forall|m: int, n: int|
            0 <= m < n < addrs.len() ==> ranges_disjoint(
                #[trigger] addrs[m] as int,
                norm_size(sizes[m] as int, aligns[m] as int),
                #[trigger] addrs[n] as int,
                norm_size(sizes[n] as int, aligns[n] as int),
            ),
        forall|a: int, s: int|
            #[trigger] range_avoids_list(a, s, states[0].free_list@) ==> range_avoids_list(
                a,
                s,
                states.last().free_list@,
            ) && range_avoids_results(a, s, sizes, aligns, addrs),
    decreases sizes.len(),
{
    if sizes.len() == 0 {
        assert(states.last() == states[0]);
    } else {
        assert(ll_alloc_step(states[0], sizes[0], aligns[0], addrs[0], states[1]));
        lemma_ll_step_frame(states[0], sizes[0], aligns[0], addrs[0], states[1], lo, hi);
        let st = states.skip(1);
        let sz = sizes.skip(1);
        let al = aligns.skip(1);
        let ad = addrs.skip(1);
        assert forall|k: int|
            0 <= k < sz.len() implies valid_layout(#[trigger] sz[k] as int, al[k] as int) by {
            assert(sz[k] == sizes[k + 1]);
            assert(al[k] == aligns[k + 1]);
            assert(valid_layout(sizes[k + 1] as int, aligns[k + 1] as int));
        }
        assert forall|k: int|
            0 <= k < sz.len() implies ll_alloc_step(
            st[k],
            sz[k],
            al[k],
            #[trigger] ad[k],
            st[k + 1],
        ) by {
            assert(st[k] == states[k + 1]);
            assert(st[k + 1] == states[k + 2]);
            assert(sz[k] == sizes[k + 1]);
            assert(al[k] == aligns[k + 1]);
            assert(ad[k] == addrs[k + 1]);
            assert(ll_alloc_step(states[k + 1], sizes[k + 1], aligns[k + 1], addrs[k + 1],
                states[k + 2]));
        }
        assert(st[0] == states[1]);
        assert(st.last() == states.last());
        lemma_ll_chain_invariant(st, sz, al, ad, lo, hi);
        let ns0 = norm_size(sizes[0] as int, aligns[0] as int);
        // The first granted range avoids everything granted later.
        assert(range_avoids_list(addrs[0] as int, ns0, states[1].free_list@));
        assert(range_avoids_results(addrs[0] as int, ns0, sz, al, ad));
        assert forall|m: int, n: int|
            0 <= m < n < addrs.len() implies ranges_disjoint(
            #[trigger] addrs[m] as int,
            norm_size(sizes[m] as int, aligns[m] as int),
            #[trigger] addrs[n] as int,
            norm_size(sizes[n] as int, aligns[n] as int),
        ) by {
            if m == 0 {
                assert(ranges_disjoint(addrs[0] as int, ns0, ad[n - 1] as int, norm_size(
                    sz[n - 1] as int, al[n - 1] as int)));
            } else {
                assert(ranges_disjoint(ad[m - 1] as int, norm_size(sz[m - 1] as int,
                    al[m - 1] as int), ad[n - 1] as int, norm_size(sz[n - 1] as int,
                    al[n - 1] as int)));
            }
        }
        assert forall|m: int|
            0 <= m < addrs.len() implies lo <= #[trigger] addrs[m] && addrs[m] + norm_size(
            sizes[m] as int,
            aligns[m] as int,
        ) <= hi by {
            if m > 0 {
                assert(lo <= ad[m - 1] && ad[m - 1] + norm_size(sz[m - 1] as int,
                    al[m - 1] as int) <= hi);
            }
        }
        assert forall|a: int, s: int|
            #[trigger] range_avoids_list(a, s, states[0].free_list@) implies range_avoids_list(
            a,
            s,
            states.last().free_list@,
        ) && range_avoids_results(a, s, sizes, aligns, addrs) by {
            assert(range_avoids_list(a, s, states[1].free_list@));
            assert(range_avoids_results(a, s, sz, al, ad));
            assert forall|n: int|
                0 <= n < addrs.len() implies ranges_disjoint(a, s, #[trigger] addrs[n] as int,
                norm_size(sizes[n] as int, aligns[n] as int)) by {
                if n > 0 {
                    assert(ranges_disjoint(a, s, ad[n - 1] as int, norm_size(sz[n - 1] as int,
                        al[n - 1] as int)));
                }
            }
        }
    }
}

/// Non-overlap: along any run of successful allocations with no
/// deallocation in between, starting from a free list of pairwise disjoint
/// regions within `[lo, hi)` (as `init` establishes), the granted ranges
/// are pairwise disjoint and every range lies within `[lo, hi)`.
pub proof fn lemma_ll_no_overlap(
    states: Seq<LinkedListAllocator>,
    sizes: Seq<usize>,
    aligns: Seq<usize>,
    addrs: Seq<usize>,
    lo: int,
    hi: int,
)
    requires
        ll_alloc_chain(states, sizes, aligns, addrs),
        list_disjoint(states[0].free_list@),
        list_within(states[0].free_list@, lo, hi),
        hi <= usize::MAX,
    ensures
        forall|m: int, n: int|
            0 <= m < n < addrs.len() ==> ranges_disjoint(
                #[trigger] addrs[m] as int,
                sizes[m] as int,
                #[trigger] addrs[n] as int,
                sizes[n] as int,
            ),
        forall|m: int|
            0 <= m < addrs.len() ==> lo <= #[trigger] addrs[m] && addrs[m] + sizes[m] <= hi,
{
    lemma_ll_chain_invariant(states, sizes, aligns, addrs, lo, hi);
    assert forall|m: int|
        0 <= m < addrs.len() implies sizes[m] <= norm_size(sizes[m] as int, aligns[m] as int) by {
        assert(ll_alloc_step(states[m], sizes[m], aligns[m], addrs[m], states[m + 1]));
        assert(valid_layout(sizes[m] as int, aligns[m] as int));
        lemma_norm_size(sizes[m] as int, aligns[m] as int);
    }
}

/// The total bytes held by the free list.
pub open spec fn total_free(rs: Seq<ListNode>) -> int
    decreases rs.len(),
{
    if rs.len() == 0 {
        0
    } else {
        rs[0].size + total_free(rs.skip(1))
    }
}

proof fn lemma_total_free_nonneg(rs: Seq<ListNode>)
    ensures
        total_free(rs) >= 0,
    decreases rs.len(),
{
    if rs.len() > 0 {
        lemma_total_free_nonneg(rs.skip(1));
    }
}

proof fn lemma_total_free_remove(rs: Seq<ListNode>, i: int)
    requires
        0 <= i < rs.len(),
    ensures
        total_free(rs.remove(i)) == total_free(rs) - rs[i].size,
    decreases rs.len(),
{
    if i == 0 {
        assert(rs.remove(0) =~= rs.skip(1));
    } else {
        lemma_total_free_remove(rs.skip(1), i - 1);
        assert(rs.remove(i).skip(1) =~= rs.skip(1).remove(i - 1));
        assert(rs.remove(i)[0] == rs[0]);
    }
}

proof fn lemma_total_free_cons(n: ListNode, rs: Seq<ListNode>)
    ensures
        total_free(seq![n] + rs) == n.size + total_free(rs),
{
    assert((seq![n] + rs).skip(1) =~= rs);
    assert((seq![n] + rs)[0] == n);
}

/// One successful allocation consumes at least the normalized request size
/// from the bytes held free.
pub proof fn lemma_ll_step_total(
    pre: LinkedListAllocator,
    size: usize,
    align: usize,
    addr: usize,
    post: LinkedListAllocator,
)
    requires
        ll_alloc_step(pre, size, align, addr, post),
    ensures
        total_free(post.free_list@) <= total_free(pre.free_list@) - norm_size(
            size as int,
            align as int,
        ),
{
    let ns = norm_size(size as int, align as int);
    let na = norm_align(align as int);
    let rs = pre.free_list@;
    let i = choose|i: int| ll_alloc_step_at(pre, size, align, addr, post, i);
    assert(ll_alloc_step_at(pre, size, align, addr, post, i));
    let excess = rs[i].end() - (addr + ns);
    lemma_total_free_remove(rs, i);
    if excess > 0 {
        lemma_total_free_cons(ListNode { addr: (addr + ns) as usize, size: excess as usize },
            rs.remove(i));
    }
}

/// The total of the normalized sizes along a run of request sizes.
pub open spec fn sum_norm_sizes(sizes: Seq<usize>, aligns: Seq<usize>) -> int
    decreases sizes.len(),
{
    if sizes.len() == 0 {
        0
    } else {
        norm_size(sizes[0] as int, aligns[0] as int) + sum_norm_sizes(sizes.skip(1), aligns.skip(1))
    }
}

/// Exhaustion: a run of successful allocations consumes at most the bytes
/// the free list held at the start — after `init` that is the heap size —
/// so demanding more total bytes (with their alignment padding) must fail
/// at some point rather than return an out-of-range address.
pub proof fn lemma_ll_exhaustion(
    states: Seq<LinkedListAllocator>,
    sizes: Seq<usize>,
    aligns: Seq<usize>,
    addrs: Seq<usize>,
)
    requires
        ll_alloc_chain(states, sizes, aligns, addrs),
    ensures
        sum_norm_sizes(sizes, aligns) <= total_free(states[0].free_list@),
    decreases sizes.len(),
{
    lemma_total_free_nonneg(states.last().free_list@);
    if sizes.len() > 0 {
        assert(ll_alloc_step(states[0], sizes[0], aligns[0], addrs[0], states[1]));
        lemma_ll_step_total(states[0], sizes[0], aligns[0], addrs[0], states[1]);
        let st = states.skip(1);
        let sz = sizes.skip(1);
        let al = aligns.skip(1);
        let ad = addrs.skip(1);
        assert forall|k: int|
            0 <= k < sz.len() implies valid_layout(#[trigger] sz[k] as int, al[k] as int) by {
            assert(sz[k] == sizes[k + 1]);
            assert(al[k] == aligns[k + 1]);
            assert(valid_layout(sizes[k + 1] as int, aligns[k + 1] as int));
        }
        assert forall|k: int|
            0 <= k < sz.len() implies ll_alloc_step(
            st[k],
            sz[k],
            al[k],
            #[trigger] ad[k],
            st[k + 1],
        ) by {
            assert(st[k] == states[k + 1]);
            assert(st[k + 1] == states[k + 2]);
            assert(sz[k] == sizes[k + 1]);
            assert(al[k] == aligns[k + 1]);
            assert(ad[k] == addrs[k + 1]);
            assert(ll_alloc_step(states[k + 1], sizes[k + 1], aligns[k + 1], addrs[k + 1],
                states[k + 2]));
        }
        assert(st[0] == states[1]);
        lemma_ll_exhaustion(st, sz, al, ad);
        assert(sum_norm_sizes(sizes, aligns) == norm_size(sizes[0] as int, aligns[0] as int)
            + sum_norm_sizes(sz, al));
    }
}

/// Free-list reuse: allocate a block, deallocate it, then allocate a
/// request of no larger size and of compatible (no larger) alignment, with
/// no operations in between. The freed region stands at the head of the
/// list and fits first — normalized sizes are all multiples of the node
/// size, so the leftover is never an unusable sliver — and the allocation
/// succeeds and returns the very address that was freed, growing the free
/// list beyond its prior capacity by nothing.
pub proof fn lemma_ll_reuse(
    ll0: LinkedListAllocator,
    size1: usize,
    align1: usize,
    addr: usize,
    ll1: LinkedListAllocator,
    ll2: LinkedListAllocator,
    size2: usize,
    align2: usize,
)
    requires
        valid_layout(size1 as int, align1 as int),
        valid_layout(size2 as int, align2 as int),
        ll_alloc_step(ll0, size1, align1, addr, ll1),
        ll_dealloc_step(ll1, addr, size1, align1, ll2),
        size2 <= size1,
        align2 <= align1,
    ensures
        ll2.can_alloc(size2 as int, align2 as int),
        forall|addr2: usize, ll3: LinkedListAllocator|
            #[trigger] ll_alloc_step(ll2, size2, align2, addr2, ll3) ==> addr2 == addr,
{
    let ns1 = norm_size(size1 as int, align1 as int);
    let na1 = norm_align(align1 as int);
    let ns2 = norm_size(size2 as int, align2 as int);
    let na2 = norm_align(align2 as int);
    let i = choose|i: int| ll_alloc_step_at(ll0, size1, align1, addr, ll1, i);
    assert(ll_alloc_step_at(ll0, size1, align1, addr, ll1, i));
    let head = ListNode { addr, size: ns1 as usize };
    assert(ll2.free_list@[0] == head);
    lemma_norm_align(align1 as int);
    lemma_norm_align(align2 as int);
    lemma_norm_size(size1 as int, align1 as int);
    lemma_norm_size(size2 as int, align2 as int);
    lemma_pow2_le_divides(na2, na1);
    lemma_divides_transitive(addr as int, na2, na1);
    assert(align_up_spec(addr as int, na2) == addr);
    // The second normalized size cannot exceed the first: the first padded
    // size is a multiple of the second normalized alignment and at least
    // the second raw size, so the least such multiple is no larger.
    let p1 = align_up_spec(size1 as int, na1);
    lemma_align_up(size1 as int, na1);
    lemma_divides_transitive(p1, na2, na1);
    lemma_align_up_least(size2 as int, na2, p1);
    assert(ns2 <= ns1);
    // Both normalized sizes are multiples of the node size, so the leftover
    // is zero or at least a node.
    lemma_mod_sub_zero(ns1, ns2, NODE_SIZE as int);
    assert(region_fits(head, ns2, na2));
    assert(find_at(ll2.free_list@, ns2, na2, 0));
    assert(ll2.can_alloc(size2 as int, align2 as int));
    assert forall|addr2: usize, ll3: LinkedListAllocator|
        #[trigger] ll_alloc_step(ll2, size2, align2, addr2, ll3) implies addr2 == addr by {
        let j = choose|j: int| ll_alloc_step_at(ll2, size2, align2, addr2, ll3, j);
        assert(ll_alloc_step_at(ll2, size2, align2, addr2, ll3, j));
        if j != 0 {
            assert(!region_fits(ll2.free_list@[0], ns2, na2));
        }
    }
}

} // verus!
