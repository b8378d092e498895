use rust_os::memory::{
    get_free_memory_regions, heap_pages, memory_region_layout, pages_between, BootFrameAlloc,
    MemoryRegionInfo, RegionLayout, HEAP_SIZE, HEAP_START,
};

fn region(start: u64, end: u64, usable: bool) -> MemoryRegionInfo {
    MemoryRegionInfo { start_frame_number: start, end_frame_number: end, usable }
}

#[test]
fn free_regions_keep_order() {
    let map = vec![region(0, 1, false), region(1, 4, true), region(4, 9, false), region(16, 20, true)];
    assert_eq!(get_free_memory_regions(&map), vec![region(1, 4, true), region(16, 20, true)]);
    assert_eq!(get_free_memory_regions(&[]), vec![]);
}

#[test]
fn region_layout_in_bytes() {
    assert_eq!(
        memory_region_layout(&region(1, 4, true)),
        RegionLayout { start: 4096, end: 16384, size_kib: 12 }
    );
}

#[test]
fn frames_come_from_usable_regions_in_order() {
    let mut alloc = BootFrameAlloc::init(vec![region(1, 2, true), region(3, 9, false), region(10, 10, true)]);
    assert_eq!(alloc.allocate_frame(), Some(0x1000));
    assert_eq!(alloc.allocate_frame(), Some(0x2000));
    assert_eq!(alloc.allocate_frame(), Some(0xA000));
    assert_eq!(alloc.allocate_frame(), None);
    assert_eq!(alloc.allocate_frame(), None);
}

#[test]
fn empty_and_inverted_regions_give_no_frames() {
    let mut alloc = BootFrameAlloc::init(vec![region(5, 4, true)]);
    assert_eq!(alloc.allocate_frame(), None);
}

#[test]
fn pages_between_aligns_and_excludes_the_end_page() {
    assert_eq!(pages_between(4097, 3 * 4096 + 5), vec![4096, 8192]);
    assert_eq!(pages_between(8192, 8192), Vec::<u64>::new());
    assert_eq!(pages_between(9000, 100), Vec::<u64>::new());
    assert_eq!(
        pages_between(0x8000_0000_1234, 0x8000_0000_3000),
        vec![0xFFFF_8000_0000_1000, 0xFFFF_8000_0000_2000]
    );
}

#[test]
fn heap_pages_cover_all_but_the_last_heap_page() {
    let pages = heap_pages();
    assert_eq!(pages.len(), 127);
    assert_eq!(pages[0], HEAP_START);
    assert_eq!(*pages.last().unwrap(), HEAP_START + HEAP_SIZE - 2 * 4096);
}

#[test]
fn can_allocate_checks_addresses() {
    let mut alloc = BootFrameAlloc::init(vec![region(1, 1, true), region(1 << 40, 1 << 40, true)]);
    assert!(alloc.can_allocate());
    assert_eq!(alloc.allocate_frame(), Some(0x1000));
    assert!(!alloc.can_allocate());
    let mut small = BootFrameAlloc::init(vec![region(3, 3, true)]);
    assert!(small.can_allocate());
    assert_eq!(small.allocate_frame(), Some(0x3000));
    assert!(small.can_allocate());
    assert_eq!(small.allocate_frame(), None);
}
