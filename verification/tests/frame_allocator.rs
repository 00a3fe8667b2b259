use core_boot::memory::{MemoryDescriptor, MemoryMap, MemoryType};
use core_boot::pmm::{BitMapAllocator, PageFrameAllocatorError};

fn descriptor(phys_start: u64, num_pages: u64, kind: MemoryType) -> MemoryDescriptor {
    MemoryDescriptor { phys_start, phys_end: phys_start + num_pages * 4096, num_pages, kind }
}

fn map_of(descriptors: Vec<MemoryDescriptor>) -> MemoryMap {
    let first_addr = descriptors.iter().map(|d| d.phys_start).min().unwrap_or(u64::MAX);
    let last_addr = descriptors.iter().map(|d| d.phys_end).max().unwrap_or(0);
    MemoryMap {
        descriptors,
        first_addr,
        first_available_addr: first_addr,
        last_addr,
        last_available_addr: last_addr,
    }
}

#[test]
fn frames_come_lowest_first() {
    let map = map_of(vec![
        descriptor(0x0, 1, MemoryType::Reserved),
        descriptor(0x1000, 3, MemoryType::Available),
    ]);
    let mut allocator = BitMapAllocator::try_new(&map).unwrap();
    assert_eq!(allocator.request_page(), Ok(0x1000));
    assert_eq!(allocator.request_page(), Ok(0x2000));
    assert_eq!(allocator.request_page(), Ok(0x3000));
    assert_eq!(allocator.request_page(), Err(PageFrameAllocatorError::OutOfMemory));
    assert_eq!(allocator.request_page(), Err(PageFrameAllocatorError::OutOfMemory));
}

#[test]
fn only_available_regions_are_handed_out() {
    let map = map_of(vec![
        descriptor(0x0, 1, MemoryType::Reserved),
        descriptor(0x1000, 2, MemoryType::Available),
        descriptor(0x3000, 2, MemoryType::KernelCode),
        descriptor(0x5000, 1, MemoryType::KernelData),
        descriptor(0x6000, 1, MemoryType::Available),
        descriptor(0x7000, 4, MemoryType::KernelStack),
        descriptor(0xb000, 1, MemoryType::Available),
    ]);
    let mut allocator = BitMapAllocator::try_new(&map).unwrap();
    let mut frames = Vec::new();
    while let Ok(frame) = allocator.request_page() {
        frames.push(frame);
    }
    assert_eq!(frames, vec![0x1000, 0x2000, 0x6000, 0xb000]);
}

#[test]
fn exhaustion_after_as_many_frames_as_are_available() {
    let map = map_of(vec![descriptor(0x10_0000, 200, MemoryType::Available)]);
    let mut allocator = BitMapAllocator::try_new(&map).unwrap();
    for i in 0..200u64 {
        assert_eq!(allocator.request_page(), Ok(0x10_0000 + i * 4096));
    }
    assert_eq!(allocator.request_page(), Err(PageFrameAllocatorError::OutOfMemory));
}

#[test]
fn requesting_more_frames_than_there_are_fails() {
    let map = map_of(vec![descriptor(0x10_0000, 70, MemoryType::Available)]);
    let mut allocator = BitMapAllocator::try_new(&map).unwrap();
    assert_eq!(allocator.request_pages(71), Err(PageFrameAllocatorError::OutOfMemory));
    assert_eq!(allocator.request_page(), Err(PageFrameAllocatorError::OutOfMemory));
}

#[test]
fn requesting_all_frames_at_once() {
    let map = map_of(vec![
        descriptor(0x10_0000, 3, MemoryType::Available),
        descriptor(0x20_0000, 2, MemoryType::Available),
    ]);
    let mut allocator = BitMapAllocator::try_new(&map).unwrap();
    assert_eq!(allocator.request_pages(0), Ok(Vec::new()));
    assert_eq!(
        allocator.request_pages(5),
        Ok(vec![0x10_0000, 0x10_1000, 0x10_2000, 0x20_0000, 0x20_1000])
    );
    assert_eq!(allocator.request_pages(1), Err(PageFrameAllocatorError::OutOfMemory));
    assert_eq!(allocator.request_pages(0), Ok(Vec::new()));
}

#[test]
fn map_without_available_memory() {
    let map = map_of(vec![
        descriptor(0x0, 1, MemoryType::Reserved),
        descriptor(0x1000, 16, MemoryType::KernelCode),
    ]);
    assert!(matches!(BitMapAllocator::try_new(&map), Err(PageFrameAllocatorError::MemoryMapEmpty)));
    let empty = map_of(Vec::new());
    assert!(matches!(
        BitMapAllocator::try_new(&empty),
        Err(PageFrameAllocatorError::MemoryMapEmpty)
    ));
}

#[test]
fn frames_outside_the_bounds_are_left_out() {
    let mut map = map_of(vec![descriptor(0x1000, 8, MemoryType::Available)]);
    map.first_addr = 0x3000;
    map.last_addr = 0x6000;
    let mut allocator = BitMapAllocator::try_new(&map).unwrap();
    assert_eq!(allocator.request_pages(3), Ok(vec![0x3000, 0x4000, 0x5000]));
    assert_eq!(allocator.request_page(), Err(PageFrameAllocatorError::OutOfMemory));
}

#[test]
fn frames_are_whole_pages_of_a_region() {
    let mut map = map_of(vec![MemoryDescriptor {
        phys_start: 0x1800,
        phys_end: 0x4800,
        num_pages: 3,
        kind: MemoryType::Available,
    }]);
    map.first_addr = 0x1800;
    map.last_addr = 0x4800;
    let mut allocator = BitMapAllocator::try_new(&map).unwrap();
    assert_eq!(allocator.request_pages(2), Ok(vec![0x2000, 0x3000]));
    assert_eq!(allocator.request_page(), Err(PageFrameAllocatorError::OutOfMemory));
}

#[test]
fn overlapping_regions_offer_a_frame_once() {
    let map = map_of(vec![
        descriptor(0x1000, 4, MemoryType::Available),
        descriptor(0x3000, 4, MemoryType::Available),
    ]);
    let mut allocator = BitMapAllocator::try_new(&map).unwrap();
    assert_eq!(
        allocator.request_pages(6),
        Ok(vec![0x1000, 0x2000, 0x3000, 0x4000, 0x5000, 0x6000])
    );
    assert_eq!(allocator.request_page(), Err(PageFrameAllocatorError::OutOfMemory));
}
