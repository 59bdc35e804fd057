use crysalis::paging::{BootInfoFrameAllocator, MemoryRegion};

fn region(start: u64, end: u64, usable: bool) -> MemoryRegion {
    MemoryRegion { start, end, usable }
}

#[test]
fn frames_come_in_ascending_order() {
    let map = vec![
        region(0x0000, 0x4000, true),
        region(0x4000, 0x8000, false),
        region(0x8000, 0xA000, true),
    ];
    let mut frames = BootInfoFrameAllocator::init(map);
    assert_eq!(frames.allocate_frame(), Some(0x0000));
    assert_eq!(frames.allocate_frame(), Some(0x1000));
    assert_eq!(frames.allocate_frame(), Some(0x2000));
    assert_eq!(frames.allocate_frame(), Some(0x3000));
    // The reserved region contributes nothing.
    assert_eq!(frames.allocate_frame(), Some(0x8000));
    assert_eq!(frames.allocate_frame(), Some(0x9000));
    // Exhausted: deterministic, not retried.
    assert_eq!(frames.allocate_frame(), None);
    assert_eq!(frames.allocate_frame(), None);
}

#[test]
fn no_frame_is_returned_twice() {
    let map = vec![region(0x1000, 0x5000, true), region(0x7000, 0x9000, true)];
    let mut frames = BootInfoFrameAllocator::init(map);
    let mut seen = Vec::new();
    while let Some(f) = frames.allocate_frame() {
        assert!(!seen.contains(&f));
        if let Some(&last) = seen.last() {
            assert!(last < f);
        }
        seen.push(f);
    }
    assert_eq!(seen, vec![0x1000, 0x2000, 0x3000, 0x4000, 0x7000, 0x8000]);
}

#[test]
fn empty_map_yields_nothing() {
    let mut frames = BootInfoFrameAllocator::init(Vec::new());
    assert_eq!(frames.allocate_frame(), None);
}

#[test]
fn empty_region_yields_nothing() {
    let mut frames = BootInfoFrameAllocator::init(vec![region(0x1000, 0x1000, true)]);
    assert_eq!(frames.allocate_frame(), None);
}
