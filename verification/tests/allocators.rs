//! Behavioural tests of the three allocation strategies over a model arena.

use blog_os::allocator::align_up;
use blog_os::allocator::bump::BumpAllocator;
use blog_os::allocator::fixed_size_block::{block_size, list_index, FixedSizeBlockAllocator,
    BLOCK_COUNT};
use blog_os::allocator::linked_list::{LinkedListAllocator, ListNode, NODE_ALIGN, NODE_SIZE};
use blog_os::allocator::Dummy;

const HEAP_START: usize = 0x1000;
const HEAP_SIZE: usize = 4096;

#[test]
fn align_up_values() {
    assert_eq!(align_up(0, 1), 0);
    assert_eq!(align_up(0x1000, 8), 0x1000);
    assert_eq!(align_up(0x1001, 8), 0x1008);
    assert_eq!(align_up(10, 8), 16);
    assert_eq!(align_up(17, 16), 32);
    assert_eq!(align_up(31, 1), 31);
    assert_eq!(align_up(5, 4096), 4096);
}

#[test]
fn dummy_always_fails() {
    let d = Dummy;
    assert_eq!(d.allocate(1, 1), None);
    assert_eq!(d.allocate(0, 8), None);
    assert_eq!(d.allocate(4096, 4096), None);
}

#[test]
fn bump_example_scenario() {
    // Arena of 4096 bytes at 0x1000: two 16-byte allocations land back to
    // back, and returning both resets the next pointer to the start.
    let mut b = BumpAllocator::new();
    b.init(HEAP_START, HEAP_SIZE);
    assert_eq!(b.allocate(16, 8), Some(0x1000));
    assert_eq!(b.allocate(16, 8), Some(0x1010));
    assert_eq!(b.live_allocations(), 2);
    b.deallocate(0x1000, 16, 8);
    assert_eq!(b.next_addr(), 0x1020);
    b.deallocate(0x1010, 16, 8);
    assert_eq!(b.next_addr(), HEAP_START);
    assert_eq!(b.live_allocations(), 0);
    // An identical request sequence now succeeds with the same addresses.
    assert_eq!(b.allocate(16, 8), Some(0x1000));
    assert_eq!(b.allocate(16, 8), Some(0x1010));
}

#[test]
fn bump_alignment_and_padding() {
    let mut b = BumpAllocator::new();
    b.init(HEAP_START, HEAP_SIZE);
    assert_eq!(b.allocate(1, 1), Some(0x1000));
    // The pointer stands at 0x1001; a 64-byte-aligned request skips ahead.
    let r = b.allocate(8, 64).unwrap();
    assert_eq!(r, 0x1040);
    assert_eq!(r % 64, 0);
    let r2 = b.allocate(5, 2).unwrap();
    assert_eq!(r2, 0x1048);
    assert_eq!(r2 % 2, 0);
}

#[test]
fn bump_non_overlap() {
    let mut b = BumpAllocator::new();
    b.init(HEAP_START, HEAP_SIZE);
    let mut granted: Vec<(usize, usize)> = Vec::new();
    for &(size, align) in &[(16usize, 8usize), (5, 1), (40, 32), (1, 1), (128, 128)] {
        let addr = b.allocate(size, align).unwrap();
        assert_eq!(addr % align, 0);
        assert!(addr >= HEAP_START && addr + size <= HEAP_START + HEAP_SIZE);
        for &(a2, s2) in &granted {
            assert!(addr + size <= a2 || a2 + s2 <= addr);
        }
        granted.push((addr, size));
    }
}

#[test]
fn bump_exhaustion() {
    let mut b = BumpAllocator::new();
    b.init(HEAP_START, 32);
    assert_eq!(b.allocate(16, 8), Some(0x1000));
    assert_eq!(b.allocate(16, 8), Some(0x1010));
    // The arena is spent: a one-byte request fails, never an out-of-range
    // address.
    assert_eq!(b.allocate(1, 1), None);
    // A zero-sized request still fits at the very end.
    assert_eq!(b.allocate(0, 1), Some(0x1020));
}

#[test]
fn bump_zero_size_is_degenerate() {
    let mut b = BumpAllocator::new();
    b.init(HEAP_START, HEAP_SIZE);
    // Zero-sized allocations do not advance the pointer.
    assert_eq!(b.allocate(0, 8), Some(0x1000));
    assert_eq!(b.allocate(0, 8), Some(0x1000));
    assert_eq!(b.live_allocations(), 2);
}

#[test]
fn list_node_addresses() {
    let n = ListNode::new(0x2000, 48);
    assert_eq!(n.start_addr(), 0x2000);
    assert_eq!(n.end_addr(), 0x2030);
}

#[test]
fn linked_list_example_scenario() {
    // Arena of 4096 bytes at 0x1000: the first-fit equivalent of the bump
    // scenario. After freeing, the freed regions stand on the list and a
    // following allocation reuses them.
    let mut a = LinkedListAllocator::new();
    a.init(HEAP_START, HEAP_SIZE);
    assert_eq!(a.free_regions(), vec![(0x1000, 4096)]);
    assert_eq!(a.allocate(16, 8), Some(0x1000));
    assert_eq!(a.free_regions(), vec![(0x1010, 4080)]);
    assert_eq!(a.allocate(16, 8), Some(0x1010));
    assert_eq!(a.free_regions(), vec![(0x1020, 4064)]);
    a.deallocate(0x1000, 16, 8);
    a.deallocate(0x1010, 16, 8);
    // Most recently freed first; no coalescing of the adjacent regions.
    assert_eq!(a.free_regions(), vec![(0x1010, 16), (0x1000, 16), (0x1020, 4064)]);
    // A 32-byte request does not fit the two 16-byte regions and is served
    // from the arena tail.
    assert_eq!(a.allocate(32, 8), Some(0x1020));
}

#[test]
fn linked_list_reuse_after_free() {
    let mut a = LinkedListAllocator::new();
    a.init(HEAP_START, HEAP_SIZE);
    let r1 = a.allocate(48, 16).unwrap();
    assert_eq!(r1, 0x1000);
    a.deallocate(r1, 48, 16);
    // Same layout again: the freed region is at the head, fits exactly, and
    // the same address comes back with no growth of the free list.
    let r2 = a.allocate(48, 16).unwrap();
    assert_eq!(r2, r1);
    assert_eq!(a.free_regions().len(), 1);
}

#[test]
fn linked_list_reuse_smaller_request() {
    // A smaller request of compatible alignment also reuses the freed
    // block: both normalized sizes are multiples of the node size, so the
    // freed 48-byte region serves the padded 48-byte request exactly.
    let mut a = LinkedListAllocator::new();
    a.init(HEAP_START, HEAP_SIZE);
    let r1 = a.allocate(48, 8).unwrap();
    assert_eq!(r1, 0x1000);
    a.deallocate(r1, 48, 8);
    let r2 = a.allocate(40, 8).unwrap();
    assert_eq!(r2, r1);
    assert_eq!(a.free_regions().len(), 1);
    // And one that leaves a whole node behind: a 16-byte request carves the
    // freed region, reusing its start and listing the 32-byte tail.
    a.deallocate(r2, 40, 8);
    let r3 = a.allocate(16, 8).unwrap();
    assert_eq!(r3, r1);
    assert_eq!(a.free_regions()[0], (0x1010, 32));
}

#[test]
fn linked_list_first_fit_skips_small_regions() {
    let mut a = LinkedListAllocator::new();
    a.init(HEAP_START, HEAP_SIZE);
    assert_eq!(a.allocate(16, 8), Some(0x1000));
    a.deallocate(0x1000, 16, 8);
    // Head of the list is the freed 16-byte region; a 32-byte request must
    // skip it and carve from the tail region.
    assert_eq!(a.free_regions(), vec![(0x1000, 16), (0x1010, 4080)]);
    assert_eq!(a.allocate(32, 8), Some(0x1010));
}

#[test]
fn linked_list_rejects_unusable_sliver() {
    // A 24-byte arena: a 16-byte request would leave an 8-byte tail, too
    // small to host a node, so the region is rejected; a 24-byte request is
    // padded to 32 bytes and does not fit at all.
    let mut a = LinkedListAllocator::new();
    a.init(0x2000, 24);
    assert_eq!(a.allocate(16, 8), None);
    assert_eq!(a.allocate(24, 8), None);
    // In a 32-byte arena the padded request consumes the region exactly.
    let mut b = LinkedListAllocator::new();
    b.init(0x3000, 32);
    assert_eq!(b.allocate(24, 8), Some(0x3000));
    assert_eq!(b.free_regions(), Vec::<(usize, usize)>::new());
}

#[test]
fn linked_list_normalizes_small_requests() {
    let mut a = LinkedListAllocator::new();
    a.init(HEAP_START, HEAP_SIZE);
    // A one-byte request is padded to the node size.
    assert_eq!(a.allocate(1, 1), Some(0x1000));
    assert_eq!(a.free_regions(), vec![(0x1000 + NODE_SIZE, HEAP_SIZE - NODE_SIZE)]);
    a.deallocate(0x1000, 1, 1);
    assert_eq!(a.free_regions()[0], (0x1000, NODE_SIZE));
}

#[test]
fn alloc_from_region_policy() {
    // Fits exactly.
    let r = ListNode::new(0x1000, 32);
    assert_eq!(LinkedListAllocator::alloc_from_region(&r, 32, 8), Ok(0x1000));
    // Fits with a usable 16-byte tail.
    assert_eq!(LinkedListAllocator::alloc_from_region(&r, 16, 8), Ok(0x1000));
    // Would leave an 8-byte sliver, too small for a node.
    assert_eq!(LinkedListAllocator::alloc_from_region(&r, 24, 8), Err(()));
    // Too small altogether.
    assert_eq!(LinkedListAllocator::alloc_from_region(&r, 64, 8), Err(()));
    // Alignment padding pushes the request past the end.
    let off = ListNode::new(0x1008, 32);
    assert_eq!(LinkedListAllocator::alloc_from_region(&off, 32, 32), Err(()));
    let wide = ListNode::new(0x1008, 56);
    assert_eq!(LinkedListAllocator::alloc_from_region(&wide, 32, 32), Ok(0x1020));
}

#[test]
fn find_region_unlinks_first_fit() {
    let mut a = LinkedListAllocator::new();
    a.init(HEAP_START, HEAP_SIZE);
    let (node, start) = a.find_region(32, 8).unwrap();
    assert_eq!((node.start_addr(), node.end_addr()), (0x1000, 0x2000));
    assert_eq!(start, 0x1000);
    // The region left the list; nothing fits any more.
    assert_eq!(a.free_regions(), Vec::<(usize, usize)>::new());
    assert_eq!(a.find_region(16, 8), None);
}

#[test]
fn linked_list_size_align_normalization() {
    // Alignment rises to the full node size, and sizes are padded to a
    // multiple of the raised alignment: every granted region can host a
    // node, and a freed block never leaves a sliver against a smaller
    // compatible request.
    assert_eq!(LinkedListAllocator::size_align(1, 1), (NODE_SIZE, NODE_SIZE));
    assert_eq!(LinkedListAllocator::size_align(16, 8), (16, 16));
    assert_eq!(LinkedListAllocator::size_align(17, 8), (32, 16));
    assert_eq!(LinkedListAllocator::size_align(20, 32), (32, 32));
    assert_eq!(LinkedListAllocator::size_align(100, 8), (112, 16));
    assert_eq!(LinkedListAllocator::size_align(0, 1), (NODE_SIZE, NODE_SIZE));
}

#[test]
fn linked_list_exhaustion() {
    let mut a = LinkedListAllocator::new();
    a.init(HEAP_START, 64);
    assert_eq!(a.allocate(16, 8), Some(0x1000));
    assert_eq!(a.allocate(16, 8), Some(0x1010));
    assert_eq!(a.allocate(16, 8), Some(0x1020));
    assert_eq!(a.allocate(16, 8), Some(0x1030));
    // 64 bytes granted out of a 64-byte arena: the next request fails.
    assert_eq!(a.allocate(16, 8), None);
    assert_eq!(a.allocate(1, 1), None);
}

#[test]
fn linked_list_alignment() {
    let mut a = LinkedListAllocator::new();
    a.init(HEAP_START, HEAP_SIZE);
    for &(size, align) in &[(3usize, 1usize), (16, 16), (10, 64), (100, 4), (256, 256)] {
        let addr = a.allocate(size, align).unwrap();
        assert_eq!(addr % align, 0);
    }
}

#[test]
fn list_index_selects_smallest_class() {
    // The table is {8, 16, 32, 64, 128, 256, 512, 1024, 2048}.
    assert_eq!(list_index(1, 1), Some(0));
    assert_eq!(list_index(8, 8), Some(0));
    assert_eq!(list_index(9, 8), Some(1));
    assert_eq!(list_index(100, 1), Some(4));
    assert_eq!(list_index(100, 128), Some(4));
    assert_eq!(list_index(16, 64), Some(3));
    assert_eq!(list_index(2048, 1), Some(8));
    assert_eq!(list_index(2049, 1), None);
    assert_eq!(list_index(1, 4096), None);
    for i in 0..BLOCK_COUNT {
        assert_eq!(list_index(block_size(i), 1), Some(i));
    }
}

#[test]
fn fixed_size_block_class_roundtrip() {
    // A request of size 100 maps to the 128-byte class; its block, once
    // freed, is handed to the next request of that class.
    let mut f = FixedSizeBlockAllocator::new();
    f.init(HEAP_START, HEAP_SIZE);
    let a1 = f.allocate(100, 8).unwrap();
    assert_eq!(a1, 0x1000);
    assert_eq!(a1 % 128, 0);
    f.deallocate(a1, 100, 8);
    assert_eq!(f.lists_heads[4], vec![0x1000]);
    // Any request mapping to the same class gets the freed block back,
    // before the fallback serves anything.
    let a2 = f.allocate(120, 16).unwrap();
    assert_eq!(a2, a1);
    assert_eq!(f.lists_heads[4], Vec::<usize>::new());
}

#[test]
fn fixed_size_block_lazy_class_supply() {
    let mut f = FixedSizeBlockAllocator::new();
    f.init(HEAP_START, HEAP_SIZE);
    // Class lists start empty: the first hit of each class draws one block
    // of exactly the class size from the fallback.
    let a1 = f.allocate(100, 8).unwrap();
    assert_eq!(a1, 0x1000);
    let a2 = f.allocate(64, 8).unwrap();
    assert_eq!(a2, 0x1080);
    assert_eq!(a2 % 64, 0);
    // Freeing feeds the class lists, not the fallback.
    f.deallocate(a1, 100, 8);
    f.deallocate(a2, 64, 8);
    assert_eq!(f.lists_heads[4], vec![a1]);
    assert_eq!(f.lists_heads[3], vec![a2]);
}

#[test]
fn fixed_size_block_oversized_goes_to_fallback() {
    let mut f = FixedSizeBlockAllocator::new();
    f.init(HEAP_START, HEAP_SIZE);
    let a1 = f.allocate(3000, 8).unwrap();
    assert_eq!(a1, 0x1000);
    f.deallocate(a1, 3000, 8);
    // The oversized block returns to the fallback free list, not to a class.
    for c in 0..BLOCK_COUNT {
        assert_eq!(f.lists_heads[c], Vec::<usize>::new());
    }
    assert_eq!(f.fallback_allocator.free_regions()[0], (0x1000, 3008));
}

#[test]
fn fixed_size_block_alignment() {
    let mut f = FixedSizeBlockAllocator::new();
    f.init(HEAP_START, HEAP_SIZE);
    for &(size, align) in &[(1usize, 1usize), (100, 8), (13, 64), (512, 512), (3000, 8)] {
        let addr = f.allocate(size, align).unwrap();
        assert_eq!(addr % align, 0);
    }
}

#[test]
fn fixed_size_block_exhaustion() {
    let mut f = FixedSizeBlockAllocator::new();
    f.init(HEAP_START, 256);
    // Each 128-byte class block comes from the 256-byte fallback arena.
    assert_eq!(f.allocate(100, 8), Some(0x1000));
    assert_eq!(f.allocate(100, 8), Some(0x1080));
    assert_eq!(f.allocate(100, 8), None);
    // Freed blocks make the class supply usable again.
    f.deallocate(0x1000, 100, 8);
    assert_eq!(f.allocate(100, 8), Some(0x1000));
}
