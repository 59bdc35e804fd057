use crysalis::fixed_size_block::{list_index, FixedSizeBlockAllocator};

fn fresh_heap(start: usize, size: usize) -> FixedSizeBlockAllocator {
    let mut a = FixedSizeBlockAllocator::new();
    a.init(start, size);
    a
}

#[test]
fn list_index_picks_smallest_class() {
    assert_eq!(list_index(1, 1), Some(0));
    assert_eq!(list_index(8, 1), Some(0));
    assert_eq!(list_index(8, 8), Some(0));
    assert_eq!(list_index(9, 1), Some(1));
    assert_eq!(list_index(16, 16), Some(1));
    assert_eq!(list_index(17, 2), Some(2));
    assert_eq!(list_index(33, 1), Some(3));
    assert_eq!(list_index(100, 1), Some(4));
    assert_eq!(list_index(1000, 1), Some(7));
    assert_eq!(list_index(1025, 1), Some(8));
    assert_eq!(list_index(2048, 1), Some(8));
}

#[test]
fn list_index_alignment_dominates() {
    // required = max(size, align): a small value at a big alignment still
    // needs a big block.
    assert_eq!(list_index(8, 64), Some(3));
    assert_eq!(list_index(1, 2048), Some(8));
    assert_eq!(list_index(1, 4096), None);
}

#[test]
fn list_index_oversized_is_none() {
    assert_eq!(list_index(2049, 1), None);
    assert_eq!(list_index(3000, 8), None);
    assert_eq!(list_index(usize::MAX, 1), None);
}

#[test]
fn first_allocations_carve_in_address_order() {
    // The concrete scenario: a 4096-byte region at 0x1000.
    let mut a = fresh_heap(0x1000, 4096);
    assert_eq!(a.allocate(8, 8), Some(0x1000));
    // Fresh carve: no 8-byte block has been freed yet.
    assert_eq!(a.allocate(8, 8), Some(0x1008));
    a.deallocate(0x1000, 8, 8);
    // Reused from the free list, not a new carve.
    assert_eq!(a.allocate(8, 8), Some(0x1000));
}

#[test]
fn lifo_reuse_most_recently_freed_first() {
    let mut a = fresh_heap(0x1000, 4096);
    let blk_a = a.allocate(16, 8).unwrap();
    let blk_b = a.allocate(16, 8).unwrap();
    let blk_c = a.allocate(16, 8).unwrap();
    assert_eq!((blk_a, blk_b, blk_c), (0x1000, 0x1010, 0x1020));
    a.deallocate(blk_a, 16, 8);
    a.deallocate(blk_b, 16, 8);
    // The next two 16-byte allocations return B then A, in that order,
    // before any new backing-heap carve.
    assert_eq!(a.allocate(16, 8), Some(blk_b));
    assert_eq!(a.allocate(16, 8), Some(blk_a));
    // Only now does a fresh carve happen.
    assert_eq!(a.allocate(16, 8), Some(0x1030));
}

#[test]
fn boundary_2048_uses_class_2049_bypasses() {
    let mut a = fresh_heap(0x1000, 8192);
    // A 2048-byte request is served by the 2048-byte class.
    let c = a.allocate(2048, 1).unwrap();
    assert_eq!(c, 0x1000);
    a.deallocate(c, 2048, 1);
    // The freed block sits on the class free list, not in the backing heap,
    // so an oversized request cannot touch those bytes...
    let big = a.allocate(2049, 1).unwrap();
    assert_eq!(big, 0x1800);
    // ...while the class request gets the listed block back.
    assert_eq!(a.allocate(2048, 1), Some(0x1000));
}

#[test]
fn exhaustion_is_deterministic() {
    let mut a = fresh_heap(0x2000, 8192);
    // Every allocation in the sequence succeeds while backing space lasts.
    assert_eq!(a.allocate(2048, 2048), Some(0x2000));
    assert_eq!(a.allocate(2048, 2048), Some(0x2800));
    assert_eq!(a.allocate(2048, 2048), Some(0x3000));
    assert_eq!(a.allocate(2048, 2048), Some(0x3800));
    // Fewer than 2048 bytes remain: failure, and failure from then on.
    assert_eq!(a.allocate(2048, 2048), None);
    assert_eq!(a.allocate(2048, 2048), None);
    // Small requests also fail once nothing is left.
    assert_eq!(a.allocate(8, 8), None);
}

#[test]
fn oversized_free_does_not_reach_live_block() {
    let mut a = fresh_heap(0x1000, 8192);
    // Oversized request bypasses all classes.
    let big = a.allocate(3000, 8).unwrap();
    assert_eq!(big, 0x1000);
    // Class-16 request carved above it, padded up to alignment 16.
    let small = a.allocate(16, 8).unwrap();
    assert_eq!(small, 0x1000 + 3008);
    a.deallocate(big, 3000, 8);
    // Reallocating the oversized block must not overlap the still-live
    // 16-byte block.
    let big2 = a.allocate(3000, 8).unwrap();
    assert_eq!(big2, 0x1000);
    assert!(big2 + 3000 <= small || small + 16 <= big2);
}

#[test]
fn live_allocations_never_overlap() {
    let mut a = fresh_heap(0x1000, 16384);
    let mut live: Vec<(usize, usize)> = Vec::new();
    for &(size, align) in &[(8usize, 8usize), (16, 16), (3000, 8), (32, 32), (2048, 2048), (9, 1)]
    {
        let addr = a.allocate(size, align).unwrap();
        assert_eq!(addr % align, 0);
        for &(other_addr, other_size) in &live {
            assert!(addr + size <= other_addr || other_addr + other_size <= addr);
        }
        live.push((addr, size));
    }
}

#[test]
fn alignment_is_honoured() {
    let mut a = fresh_heap(0x1000, 16384);
    for &align in &[1usize, 2, 4, 8, 16, 32, 64, 128, 256, 512, 1024, 2048] {
        let addr = a.allocate(5, align).unwrap();
        assert_eq!(addr % align, 0);
    }
}

#[test]
fn mismatched_region_start_still_aligns() {
    // A backing region that starts unaligned: the first-fit carve pads up.
    let mut a = fresh_heap(0x1004, 4096);
    let addr = a.allocate(16, 16).unwrap();
    assert_eq!(addr, 0x1010);
    assert_eq!(addr % 16, 0);
}
