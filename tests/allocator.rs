use philos::allocator::bump::BumpAllocator;
use philos::allocator::fixed::{block_list_index, block_size, FixedAllocator};
use philos::allocator::free_list::{FreeListAllocator, Region};
use philos::allocator::{align_up, checked_align_up, heap_page_range, HEAP_SIZE, HEAP_START};

#[test]
fn align_up_rounds_to_multiple() {
    assert_eq!(align_up(0x1001, 0x1000), 0x2000);
    assert_eq!(align_up(0x2000, 0x1000), 0x2000);
    assert_eq!(align_up(13, 8), 16);
    assert_eq!(align_up(0, 64), 0);
    assert_eq!(align_up(7, 1), 7);
}

#[test]
fn checked_align_up_reports_overflow() {
    assert_eq!(checked_align_up(usize::MAX, 16), None);
    assert_eq!(checked_align_up(usize::MAX - 15, 16), Some(usize::MAX - 15));
    assert_eq!(checked_align_up(17, 16), Some(32));
}

#[test]
fn heap_window_is_twenty_five_pages() {
    let r = heap_page_range();
    assert_eq!(r.start, HEAP_START);
    assert_eq!(r.count, 25);
    assert_eq!(r.count as usize * 4096, HEAP_SIZE);
}

#[test]
fn bump_places_blocks_aligned_and_in_order() {
    let mut a = BumpAllocator::new();
    a.init(0x1000, 0x1000);
    assert_eq!(a.allocate(3, 1), Some(0x1000));
    assert_eq!(a.allocate(8, 16), Some(0x1010));
    assert_eq!(a.allocate(1, 256), Some(0x1100));
    assert_eq!(a.next(), 0x1101);
    assert_eq!(a.allocations(), 3);
}

#[test]
fn bump_alignment_contract() {
    let mut a = BumpAllocator::new();
    a.init(0x10_0001, 0x10_0000);
    let mut align: usize = 1;
    while align <= 2048 {
        let p = a.allocate(5, align).unwrap();
        assert_eq!(p % align, 0);
        align *= 2;
    }
}

#[test]
fn bump_reclaims_after_last_release() {
    let start = HEAP_START as usize;
    let mut a = BumpAllocator::new();
    a.init(start, HEAP_SIZE);
    let n = 5;
    for i in 0..n {
        assert!(a.allocate(10 + i, 8).is_some());
    }
    for _ in 0..n - 1 {
        a.deallocate();
        assert_ne!(a.next(), start);
    }
    a.deallocate();
    assert_eq!(a.next(), start);
    assert_eq!(a.allocations(), 0);
    assert_eq!(a.allocate(64, 8), Some(start));
}

#[test]
fn bump_exhaustion_leaves_cursor() {
    let start = HEAP_START as usize;
    let mut a = BumpAllocator::new();
    a.init(start, HEAP_SIZE);
    assert_eq!(a.allocate(HEAP_SIZE + 1, 1), None);
    assert_eq!(a.next(), start);
    assert_eq!(a.allocations(), 0);
    // a block must end before the heap's end
    assert_eq!(a.allocate(HEAP_SIZE, 1), None);
    assert_eq!(a.next(), start);
    assert_eq!(a.allocate(HEAP_SIZE - 1, 1), Some(start));
    assert_eq!(a.allocate(1, 1), None);
    assert_eq!(a.next(), start + HEAP_SIZE - 1);
}

#[test]
fn bump_empty_heap_refuses() {
    let mut a = BumpAllocator::new();
    assert_eq!(a.allocate(1, 1), None);
}

#[test]
fn free_list_first_fit_skips_small_region() {
    let small = 0x1_0000;
    let large = 0x2_0000;
    let mut f = FreeListAllocator::new();
    f.init(large, 128);
    f.add_free_region(small, 64);
    assert_eq!(
        f.free_regions(),
        vec![Region { start: small, size: 64 }, Region { start: large, size: 128 }]
    );
    let mut g = FreeListAllocator::new();
    g.init(large, 128);
    g.add_free_region(small, 64);
    assert_eq!(g.find_region(100, 8), Some((Region { start: large, size: 128 }, large)));
    assert_eq!(g.free_regions(), vec![Region { start: small, size: 64 }]);
    // what is left behind 100 bytes of the large region: 28 bytes, room for a node
    assert_eq!(large + 128 - (large + 100), 28);

    assert_eq!(f.allocate(100, 8), Some(large));
    assert_eq!(
        f.free_regions(),
        vec![Region { start: large + 104, size: 24 }, Region { start: small, size: 64 }]
    );
}

#[test]
fn free_list_refuses_sliver() {
    let mut f = FreeListAllocator::new();
    f.init(0x1000, 110);
    assert_eq!(f.allocate(100, 8), None);
    assert_eq!(f.free_regions(), vec![Region { start: 0x1000, size: 110 }]);
    let mut g = FreeListAllocator::new();
    g.init(0x1000, 120);
    assert_eq!(g.allocate(100, 8), Some(0x1000));
    assert_eq!(g.free_regions(), vec![Region { start: 0x1000 + 104, size: 16 }]);
}

#[test]
fn free_list_exact_fit_leaves_nothing() {
    let mut f = FreeListAllocator::new();
    f.init(0x1000, 64);
    assert_eq!(f.allocate(64, 8), Some(0x1000));
    assert_eq!(f.free_regions(), vec![]);
    assert_eq!(f.allocate(1, 1), None);
}

#[test]
fn free_list_normalizes_requests() {
    assert_eq!(FreeListAllocator::size_align(1, 1), Some((16, 8)));
    assert_eq!(FreeListAllocator::size_align(17, 4), Some((24, 8)));
    assert_eq!(FreeListAllocator::size_align(33, 32), Some((64, 32)));
    assert_eq!(FreeListAllocator::size_align(isize::MAX as usize, 8), None);
}

#[test]
fn free_list_align_from_region() {
    let r = Region { start: 0x1008, size: 0x100 };
    assert_eq!(FreeListAllocator::align_from_region(&r, 16, 16), Ok(0x1010));
    assert_eq!(FreeListAllocator::align_from_region(&r, 0x100, 8), Ok(0x1008));
    assert_eq!(FreeListAllocator::align_from_region(&r, 0x101, 8), Err(()));
    assert_eq!(FreeListAllocator::align_from_region(&r, 0xf8, 8), Err(()));
}

#[test]
fn free_list_alignment_contract() {
    let mut f = FreeListAllocator::new();
    f.init(0x10_0008, 0x10_0000);
    let mut align: usize = 1;
    while align <= 2048 {
        let p = f.allocate(24, align).unwrap();
        assert_eq!(p % align, 0);
        align *= 2;
    }
}

#[test]
fn free_list_round_trip() {
    let mut f = FreeListAllocator::new();
    f.init(0x4000, 0x1000);
    let p = f.allocate(200, 8).unwrap();
    let after = f.free_regions();
    f.deallocate(p, 200, 8);
    assert_eq!(f.free_regions()[0], Region { start: p, size: 200 });
    assert_eq!(f.allocate(200, 8), Some(p));
    assert_eq!(f.free_regions(), after);
}

#[test]
fn fixed_picks_smallest_class() {
    assert_eq!(block_list_index(8, 8), Some(0));
    assert_eq!(block_list_index(1, 1), Some(0));
    assert_eq!(block_list_index(9, 1), Some(1));
    assert_eq!(block_list_index(1, 64), Some(3));
    assert_eq!(block_list_index(200, 8), Some(5));
    assert_eq!(block_list_index(2048, 1), Some(8));
    assert_eq!(block_list_index(2049, 1), None);
    assert_eq!(block_size(0), 8);
    assert_eq!(block_size(8), 2048);
}

fn fixed_heap() -> FixedAllocator {
    let mut a = FixedAllocator::new();
    a.init(HEAP_START as usize, HEAP_SIZE);
    a
}

#[test]
fn fixed_class_round_trip() {
    for n in [8usize, 200, 2049] {
        let mut a = fixed_heap();
        let p = a.allocate(n, 8).unwrap();
        a.deallocate(p, n, 8);
        assert_eq!(a.allocate(n, 8), Some(p), "size {}", n);
    }
}

#[test]
fn fixed_reuses_freed_block_of_class() {
    let mut a = fixed_heap();
    let p = a.allocate(30, 8).unwrap();
    let q = a.allocate(30, 8).unwrap();
    assert_ne!(p, q);
    a.deallocate(p, 30, 8);
    // a request of the same class, even of another size, gets the freed block
    assert_eq!(a.allocate(17, 4), Some(p));
    let r = a.allocate(30, 8).unwrap();
    assert_ne!(r, p);
    assert_ne!(r, q);
}

#[test]
fn fixed_alignment_contract() {
    let mut a = fixed_heap();
    let mut align: usize = 1;
    while align <= 2048 {
        for size in [1usize, 7, 100, 3000] {
            let p = a.allocate(size, align).unwrap();
            assert_eq!(p % align, 0, "size {} align {}", size, align);
        }
        align *= 2;
    }
}

#[test]
fn fixed_empty_heap_refuses() {
    let mut a = FixedAllocator::new();
    assert_eq!(a.allocate(8, 8), None);
    assert_eq!(a.allocate(4096, 8), None);
}
