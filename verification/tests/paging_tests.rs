use rust_os::memory::{
    create_example_mapping, init, BootInfoFrameAllocator, MemoryRegion, MemoryRegionType,
    VGA_TEXT_BUFFER_FRAME,
};
use rust_os::paging::{
    MapToError, OffsetPageTable, PageTable, PageTableEntry, PageTableFlags,
};

const PHYS_OFFSET: u64 = 0xffff_8000_0000_0000;
const L4_FRAME: u64 = 0x10_0000;

fn usable(start: u64, end: u64) -> MemoryRegion {
    MemoryRegion { start, end, region_type: MemoryRegionType::Usable }
}

fn boot_allocator() -> BootInfoFrameAllocator {
    BootInfoFrameAllocator::init(vec![usable(0x20_0000, 0x30_0000)])
}

fn present_writable() -> PageTableFlags {
    PageTableFlags { present: true, writable: true, huge_page: false }
}

#[test]
fn fresh_mapper_translates_nothing() {
    let mapper = init(PHYS_OFFSET, L4_FRAME);
    assert_eq!(mapper.translate_addr(0), None);
    assert_eq!(mapper.translate_addr(0xdeadbeeff000), None);
    assert_eq!(mapper.translate_addr(0xffff_ffff_ffff_ffff), None);
    assert_eq!(mapper.translate_addr(0x1000), None);
}

#[test]
fn example_mapping_translates_with_offset() {
    // map virtual page 0xdeadbeeff000 to the frame at 0xb8000
    let mut mapper = init(PHYS_OFFSET, L4_FRAME);
    let mut alloc = boot_allocator();
    create_example_mapping(0xdeadbeeff000, &mut mapper, &mut alloc);
    assert_eq!(mapper.translate_addr(0xdeadbeeff000 + 0x10), Some(0xb8010));
    assert_eq!(mapper.translate_addr(0xdeadbeeff000), Some(VGA_TEXT_BUFFER_FRAME));
    assert_eq!(mapper.translate_addr(0xdeadbeefffff), Some(0xb8fff));
}

#[test]
fn mapping_leaves_other_pages_unmapped() {
    let mut mapper = init(PHYS_OFFSET, L4_FRAME);
    let mut alloc = boot_allocator();
    create_example_mapping(0xdeadbeeff000, &mut mapper, &mut alloc);
    assert_eq!(mapper.translate_addr(0xdeadbeefe000), None);
    assert_eq!(mapper.translate_addr(0x1000), None);
    assert_eq!(mapper.translate_addr(0xdeadbef00000), None);
}

#[test]
fn map_to_uses_one_frame_per_missing_table() {
    let mut mapper = init(PHYS_OFFSET, L4_FRAME);
    let mut alloc = boot_allocator();
    let r = mapper.map_to(0x4000_0000_0000, 0x7000, present_writable(), &mut alloc);
    assert!(r.is_ok());
    // three intermediate tables were created from the allocator's frames
    assert_eq!(alloc.allocate_frame(), Some(0x20_3000));
    assert_eq!(mapper.translate_addr(0x4000_0000_0123), Some(0x7123));
}

#[test]
fn mapping_same_page_twice_is_a_conflict() {
    let mut mapper = init(PHYS_OFFSET, L4_FRAME);
    let mut alloc = boot_allocator();
    let first = mapper.map_to(0x5000, 0x7000, present_writable(), &mut alloc);
    assert!(first.is_ok());
    match mapper.map_to(0x5000, 0x8000, present_writable(), &mut alloc) {
        Err(e) => assert_eq!(e, MapToError::PageAlreadyMapped),
        Ok(_) => panic!("remapping an occupied page must fail"),
    }
    // the old mapping still stands
    assert_eq!(mapper.translate_addr(0x5000), Some(0x7000));
}

#[test]
fn exhausted_allocator_fails_mapping_without_a_halt() {
    let mut mapper = init(PHYS_OFFSET, L4_FRAME);
    let mut alloc = boot_allocator();
    while alloc.allocate_frame().is_some() {}
    match mapper.map_to(0xdeadbeeff000, 0xb8000, present_writable(), &mut alloc) {
        Err(e) => assert_eq!(e, MapToError::FrameAllocationFailed),
        Ok(_) => panic!("mapping must fail once the allocator is exhausted"),
    }
    assert_eq!(mapper.translate_addr(0xdeadbeeff000), None);
}

#[test]
fn partially_exhausted_allocator_still_fails_cleanly() {
    let mut mapper = init(PHYS_OFFSET, L4_FRAME);
    // only two frames: the third intermediate table cannot be allocated
    let mut alloc = BootInfoFrameAllocator::init(vec![usable(0x20_0000, 0x20_2000)]);
    match mapper.map_to(0x6000, 0x9000, present_writable(), &mut alloc) {
        Err(e) => assert_eq!(e, MapToError::FrameAllocationFailed),
        Ok(_) => panic!("mapping must fail once the allocator is exhausted"),
    }
    assert_eq!(mapper.translate_addr(0x6000), None);
}

#[test]
fn non_present_mapping_stays_unmapped() {
    let mut mapper = init(PHYS_OFFSET, L4_FRAME);
    let mut alloc = boot_allocator();
    let flags = PageTableFlags { present: false, writable: false, huge_page: false };
    let r = mapper.map_to(0xa000, 0xb000, flags, &mut alloc);
    assert!(r.is_ok());
    assert_eq!(mapper.translate_addr(0xa000), None);
}

#[test]
fn flush_token_names_the_mapped_page() {
    let mut mapper = init(PHYS_OFFSET, L4_FRAME);
    let mut alloc = boot_allocator();
    match mapper.map_to(0xc000, 0xd000, present_writable(), &mut alloc) {
        Ok(flush) => {
            assert_eq!(flush.page, 0xc000);
            flush.flush();
        },
        Err(_) => panic!("mapping must succeed"),
    }
}

fn empty_table(addr: u64) -> PageTable {
    let mut entries = Vec::new();
    for _ in 0..512 {
        entries.push(PageTableEntry::Unused);
    }
    PageTable { addr, entries }
}

#[test]
fn huge_page_blocks_subdivision() {
    // a level-4 slot already holds a huge-page entry for index 0
    let mut root = empty_table(L4_FRAME);
    root.entries[0] = PageTableEntry::Frame {
        frame_addr: 0x20_0000,
        flags: PageTableFlags { present: true, writable: true, huge_page: true },
    };
    let mut mapper = OffsetPageTable { physical_memory_offset: PHYS_OFFSET, tables: vec![root] };
    let mut alloc = boot_allocator();
    match mapper.map_to(0x5000, 0x7000, present_writable(), &mut alloc) {
        Err(e) => assert_eq!(e, MapToError::ParentEntryHugePage),
        Ok(_) => panic!("subdividing a huge page must fail"),
    }
    // the walker does not follow huge entries: the address stays unmapped
    assert_eq!(mapper.translate_addr(0x5000), None);
}
