use rust_os::memory::{BootInfoFrameAllocator, EmptyFrameAllocator, MemoryRegion, MemoryRegionType};

fn usable(start: u64, end: u64) -> MemoryRegion {
    MemoryRegion { start, end, region_type: MemoryRegionType::Usable }
}

fn reserved(start: u64, end: u64) -> MemoryRegion {
    MemoryRegion { start, end, region_type: MemoryRegionType::Reserved }
}

#[test]
fn trivial_assertion() {
    assert_eq!(1, 1);
}

#[test]
fn empty_allocator_always_exhausted() {
    let mut alloc = EmptyFrameAllocator;
    assert_eq!(alloc.allocate_frame(), None);
    assert_eq!(alloc.allocate_frame(), None);
}

#[test]
fn empty_map_is_exhausted_at_once() {
    let mut alloc = BootInfoFrameAllocator::init(Vec::new());
    assert_eq!(alloc.allocate_frame(), None);
}

#[test]
fn reserved_regions_contribute_no_frames() {
    let map = vec![reserved(0x0, 0x10000), reserved(0x20000, 0x30000)];
    let mut alloc = BootInfoFrameAllocator::init(map);
    assert_eq!(alloc.allocate_frame(), None);
}

#[test]
fn exactly_n_frames_then_exhaustion() {
    // one usable region with exactly three 4 KiB frames
    let map = vec![reserved(0x0, 0x1000), usable(0x1000, 0x4000), reserved(0x4000, 0x8000)];
    let mut alloc = BootInfoFrameAllocator::init(map);
    assert_eq!(alloc.allocate_frame(), Some(0x1000));
    assert_eq!(alloc.allocate_frame(), Some(0x2000));
    assert_eq!(alloc.allocate_frame(), Some(0x3000));
    assert_eq!(alloc.allocate_frame(), None);
    assert_eq!(alloc.allocate_frame(), None);
}

#[test]
fn frames_span_regions_in_address_order() {
    let map = vec![usable(0x1000, 0x3000), reserved(0x3000, 0x10000), usable(0x10000, 0x12000)];
    let mut alloc = BootInfoFrameAllocator::init(map);
    assert_eq!(alloc.allocate_frame(), Some(0x1000));
    assert_eq!(alloc.allocate_frame(), Some(0x2000));
    assert_eq!(alloc.allocate_frame(), Some(0x10000));
    assert_eq!(alloc.allocate_frame(), Some(0x11000));
    assert_eq!(alloc.allocate_frame(), None);
}

#[test]
fn unaligned_region_end_truncates_last_frame() {
    // 0x1800 bytes round up to two frame steps; the dead tail is tolerated
    let map = vec![usable(0x1000, 0x2800)];
    let mut alloc = BootInfoFrameAllocator::init(map);
    assert_eq!(alloc.allocate_frame(), Some(0x1000));
    assert_eq!(alloc.allocate_frame(), Some(0x2000));
    assert_eq!(alloc.allocate_frame(), None);
}

#[test]
fn no_frame_is_ever_returned_twice() {
    let map = vec![usable(0x1000, 0x5000), reserved(0x5000, 0x7000), usable(0x8000, 0xb000)];
    let mut alloc = BootInfoFrameAllocator::init(map);
    let mut seen: Vec<u64> = Vec::new();
    while let Some(frame) = alloc.allocate_frame() {
        assert!(!seen.contains(&frame), "frame handed out twice");
        seen.push(frame);
    }
    assert_eq!(seen.len(), 7);
}
