use philos::allocator::{HeapBacking, HeapBackingStep, HEAP_START};
use philos::memory::{BootInfoFrameAllocator, MemoryRegion};

fn region(start: u64, end: u64, usable: bool) -> MemoryRegion {
    MemoryRegion { start, end, usable }
}

#[test]
fn frames_come_from_usable_regions_in_order() {
    let map = vec![
        region(0x0000, 0x1000, false),
        region(0x1000, 0x3000, true),
        region(0x3000, 0x5000, false),
        region(0x5000, 0x6000, true),
    ];
    let mut f = BootInfoFrameAllocator::new(&map).unwrap();
    let mut seen = Vec::new();
    while let Some(frame) = f.allocate_frame() {
        assert_eq!(frame % 4096, 0);
        assert!(map.iter().any(|r| r.usable && r.start <= frame && frame + 4096 <= r.end));
        assert!(!seen.contains(&frame));
        seen.push(frame);
    }
    assert_eq!(seen, vec![0x1000, 0x2000, 0x5000]);
    assert_eq!(f.allocate_frame(), None);
    assert_eq!(f.allocate_frame(), None);
}

#[test]
fn only_whole_frames_inside_a_region_count() {
    let mut f = BootInfoFrameAllocator::new(&[region(0x1800, 0x3000, true)]).unwrap();
    assert_eq!(f.allocate_frame(), Some(0x2000));
    assert_eq!(f.allocate_frame(), None);
}

#[test]
fn region_without_whole_frame_gives_none() {
    let mut f = BootInfoFrameAllocator::new(&[region(0x1800, 0x2800, true)]).unwrap();
    assert_eq!(f.allocate_frame(), None);
}

#[test]
fn partial_last_frame_is_skipped() {
    let mut f = BootInfoFrameAllocator::new(&[region(0x1000, 0x2800, true), region(0x4000, 0x5000, true)]).unwrap();
    assert_eq!(f.allocate_frame(), Some(0x1000));
    assert_eq!(f.allocate_frame(), Some(0x4000));
    assert_eq!(f.allocate_frame(), None);
}

#[test]
fn adjacent_unaligned_regions_never_share_a_frame() {
    let mut f = BootInfoFrameAllocator::new(&[region(0x1000, 0x1800, true), region(0x1800, 0x2000, true)]).unwrap();
    assert_eq!(f.allocate_frame(), None);
    let mut g = BootInfoFrameAllocator::new(&[region(0x1000, 0x1800, true), region(0x1800, 0x3000, true)]).unwrap();
    assert_eq!(g.allocate_frame(), Some(0x2000));
    assert_eq!(g.allocate_frame(), None);
}

#[test]
fn too_long_memory_map_is_refused() {
    let map = vec![region(0, 0x1000, true); 65];
    assert!(BootInfoFrameAllocator::new(&map).is_none());
    assert!(BootInfoFrameAllocator::new(&map[..64]).is_some());
}

#[test]
fn empty_regions_contribute_nothing() {
    let mut f = BootInfoFrameAllocator::new(&[region(0x1000, 0x1000, true), region(0x9000, 0x8000, true)]).unwrap();
    assert_eq!(f.allocate_frame(), None);
}

#[test]
fn empty_frame_source_never_hands_out() {
    let mut f = BootInfoFrameAllocator::empty();
    for _ in 0..3 {
        assert_eq!(f.allocate_frame(), None);
    }
}

#[test]
fn heap_backing_maps_each_page_to_a_fresh_frame() {
    let mut frames = BootInfoFrameAllocator::new(&[region(0x10_0000, 0x20_0000, true)]).unwrap();
    let mut backing = HeapBacking::new();
    let mut k: u64 = 0;
    loop {
        match backing.step(&mut frames) {
            HeapBackingStep::MapPage { page, frame } => {
                assert_eq!(page, HEAP_START + k * 4096);
                assert_eq!(frame, 0x10_0000 + k * 4096);
                k += 1;
            }
            HeapBackingStep::Failed => panic!("frames ran out"),
            HeapBackingStep::Done => break,
        }
    }
    assert_eq!(k, 25);
    assert_eq!(backing.step(&mut frames), HeapBackingStep::Done);
    assert_eq!(frames.allocate_frame(), Some(0x10_0000 + 25 * 4096));
}

#[test]
fn heap_backing_fails_when_frames_run_out() {
    let mut frames = BootInfoFrameAllocator::new(&[region(0x10_0000, 0x10_3000, true)]).unwrap();
    let mut backing = HeapBacking::new();
    for _ in 0..3 {
        assert!(matches!(backing.step(&mut frames), HeapBackingStep::MapPage { .. }));
    }
    assert_eq!(backing.step(&mut frames), HeapBackingStep::Failed);
}
