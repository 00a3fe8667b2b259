use core_boot::address_space::{
    descriptor_capacity, kernel_stack_page_count, map_pages, set_up_address_space,
    set_up_address_space_within, BuildError, IdentityRange, KERNEL_STACK_SIZE,
};
use core_boot::memory::{KernelInfo, MemoryDescriptor, MemoryMap, MemoryType};
use core_boot::paging::manager::PageTableManager;
use core_boot::paging::{KERNEL_MAPPING_OFFSET, KERNEL_STACK_MAPPING_OFFSET};
use core_boot::pmm::BitMapAllocator;

fn descriptor(phys_start: u64, num_pages: u64, kind: MemoryType) -> MemoryDescriptor {
    MemoryDescriptor { phys_start, phys_end: phys_start + num_pages * 4096, num_pages, kind }
}

/// Two mebibytes of memory: the zero page, the kernel's code in four pages
/// from 0x2000 on, the boot information, the stack in four pages, and the
/// rest available.
fn memory_map() -> MemoryMap {
    MemoryMap {
        descriptors: vec![
            descriptor(0x0, 1, MemoryType::Reserved),
            descriptor(0x1000, 1, MemoryType::Available),
            descriptor(0x2000, 4, MemoryType::KernelCode),
            descriptor(0x6000, 1, MemoryType::KernelData),
            descriptor(0x7000, 4, MemoryType::KernelStack),
            descriptor(0xb000, 501, MemoryType::Available),
        ],
        first_addr: 0x0,
        first_available_addr: 0x1000,
        last_addr: 0x20_0000,
        last_available_addr: 0x20_0000,
    }
}

fn kernel_info() -> KernelInfo {
    KernelInfo {
        kernel_code_address: 0x2000,
        kernel_code_page_count: 4,
        kernel_stack_address: 0x7000,
        kernel_stack_page_count: 4,
        framebuffer_address: 0x8000_0000,
        framebuffer_page_count: 3,
        boot_info_address: 0x6000,
        descriptor_storage_address: 0,
        descriptor_storage_size: 0,
    }
}

fn built() -> core_boot::address_space::AddressSpace {
    match set_up_address_space(&memory_map(), kernel_info()) {
        Ok(space) => space,
        Err(error) => panic!("no address space: {:?}", error),
    }
}

fn error_of(map: &MemoryMap, info: KernelInfo) -> Option<BuildError> {
    match set_up_address_space(map, info) {
        Ok(_) => None,
        Err(error) => Some(error),
    }
}

#[test]
fn stack_size_in_pages() {
    assert_eq!(KERNEL_STACK_SIZE, 1024 * 1024);
    assert_eq!(kernel_stack_page_count(), 256);
}

#[test]
fn room_for_descriptors() {
    assert_eq!(descriptor_capacity(0), Some(8));
    assert_eq!(descriptor_capacity(40), Some(48));
    assert_eq!(descriptor_capacity(usize::MAX - 8), Some(usize::MAX));
    assert_eq!(descriptor_capacity(usize::MAX - 7), None);
}

#[test]
fn values_for_the_processor() {
    let space = built();
    assert_eq!(space.root_table, 0x1000);
    assert_eq!(space.root_table, space.tables.root_address());
    assert_eq!(space.stack_pointer, KERNEL_STACK_MAPPING_OFFSET + 4 * 4096);
    assert_eq!(space.boot_info_address, KERNEL_MAPPING_OFFSET + 0x2000 + 4 * 4096);
}

#[test]
fn physical_memory_is_mapped_at_its_own_addresses() {
    let space = built();
    let mut address = 0u64;
    while address < 0x20_0000 {
        assert_eq!(space.tables.translate(address), Some(address));
        address += 4096;
    }
    assert_eq!(space.tables.translate(0x20_0000), None);
}

#[test]
fn kernel_code_is_mapped_in_order_in_the_upper_half() {
    let space = built();
    for page in 0..4u64 {
        assert_eq!(
            space.tables.translate(KERNEL_MAPPING_OFFSET + 0x2000 + page * 4096),
            Some(0x2000 + page * 4096)
        );
    }
    assert_eq!(space.tables.translate(KERNEL_MAPPING_OFFSET + 0x1000), None);
    assert_eq!(space.tables.translate(KERNEL_MAPPING_OFFSET + 0x7000), None);
}

#[test]
fn boot_information_follows_the_kernel_code() {
    let space = built();
    assert_eq!(space.tables.translate(space.boot_info_address), Some(0x6000));
}

#[test]
fn stack_is_mapped_at_the_stack_offset() {
    let space = built();
    for page in 0..4u64 {
        assert_eq!(
            space.tables.translate(KERNEL_STACK_MAPPING_OFFSET + page * 4096),
            Some(0x7000 + page * 4096)
        );
    }
    assert_eq!(space.tables.translate(space.stack_pointer), None);
    assert_eq!(space.tables.translate(space.stack_pointer - 1), Some(0xa000));
}

#[test]
fn framebuffer_is_mapped_at_its_own_addresses() {
    let space = built();
    for page in 0..3u64 {
        let address = 0x8000_0000 + page * 4096;
        assert_eq!(space.tables.translate(address), Some(address));
    }
    assert_eq!(space.tables.translate(0x8000_3000), None);
}

#[test]
fn zero_page_is_not_writable() {
    let space = built();
    assert_eq!(space.tables.entry(0), Some(1));
    assert_eq!(space.tables.entry(0x1000), Some(0x1000 | 3));
}

#[test]
fn tables_lie_in_available_frames() {
    let space = built();
    let map = memory_map();
    let frames = space.tables.table_frames();
    // The root; below it one table for the lower half with two tables and
    // two more below them for physical memory and for the framebuffer, and
    // the same for the upper half with the kernel and the stack.
    assert_eq!(frames.len(), 11);
    for frame in frames.iter() {
        assert!(map.descriptors.iter().any(|d| d.kind == MemoryType::Available
            && d.phys_start <= *frame
            && *frame + 4096 <= d.phys_end));
        assert_eq!(space.tables.table(*frame).map(|table| table.entries().len()), Some(512));
    }
    assert_eq!(frames[0], 0x1000);
    assert_eq!(frames[1], 0xb000);
}

#[test]
fn empty_memory_map_is_refused() {
    let map = MemoryMap {
        descriptors: Vec::new(),
        first_addr: u64::MAX,
        first_available_addr: u64::MAX,
        last_addr: 0,
        last_available_addr: 0,
    };
    assert_eq!(error_of(&map, kernel_info()), Some(BuildError::MemoryMapEmpty));
    let mut used = memory_map();
    for descriptor in used.descriptors.iter_mut() {
        descriptor.kind = MemoryType::Reserved;
    }
    assert_eq!(error_of(&used, kernel_info()), Some(BuildError::MemoryMapEmpty));
}

#[test]
fn misaligned_regions_are_refused() {
    let mut info = kernel_info();
    info.kernel_code_address = 0x2800;
    assert_eq!(error_of(&memory_map(), info), Some(BuildError::AlignmentError));
    let mut info = kernel_info();
    info.boot_info_address = 0x6001;
    assert_eq!(error_of(&memory_map(), info), Some(BuildError::AlignmentError));
    let mut info = kernel_info();
    info.kernel_stack_address = 0x7fff;
    assert_eq!(error_of(&memory_map(), info), Some(BuildError::AlignmentError));
    let mut info = kernel_info();
    info.framebuffer_address = 0x8000_0010;
    assert_eq!(error_of(&memory_map(), info), Some(BuildError::AlignmentError));
    let mut map = memory_map();
    map.first_addr = 0x800;
    assert_eq!(error_of(&map, kernel_info()), Some(BuildError::AlignmentError));
}

#[test]
fn regions_that_do_not_fit_are_refused() {
    let mut info = kernel_info();
    info.kernel_code_address = 0x8000_0000;
    assert_eq!(error_of(&memory_map(), info), Some(BuildError::AddressOutOfRange));
    let mut info = kernel_info();
    info.framebuffer_address = 0x8000_0000_0000;
    assert_eq!(error_of(&memory_map(), info), Some(BuildError::AddressOutOfRange));
    let mut info = kernel_info();
    info.kernel_stack_page_count = 0x800_0000;
    assert_eq!(error_of(&memory_map(), info), Some(BuildError::AddressOutOfRange));
    let mut info = kernel_info();
    info.kernel_stack_address = 0xFFFF_FFFF_FFFF_F000;
    assert_eq!(error_of(&memory_map(), info), Some(BuildError::AddressOutOfRange));
}

#[test]
fn too_few_frames_for_the_tables() {
    let mut map = memory_map();
    map.descriptors[5] = descriptor(0xb000, 9, MemoryType::Available);
    map.descriptors.push(descriptor(0x14000, 492, MemoryType::Reserved));
    assert_eq!(error_of(&map, kernel_info()), Some(BuildError::AllocationFailure));
    map.descriptors[5] = descriptor(0xb000, 10, MemoryType::Available);
    map.descriptors[6] = descriptor(0x15000, 491, MemoryType::Reserved);
    assert_eq!(error_of(&map, kernel_info()), None);
}

#[test]
fn runs_of_pages() {
    let map = memory_map();
    let allocator = BitMapAllocator::try_new(&map).unwrap();
    let mut manager = match PageTableManager::try_new(allocator) {
        Ok(manager) => manager,
        Err(_) => panic!("no frame for the root table"),
    };
    assert_eq!(map_pages(&mut manager, 0x40_0000, 0x0, 3), Ok(()));
    assert_eq!(manager.entry(0x40_0000), Some(1));
    assert_eq!(manager.entry(0x40_1000), Some(0x1000 | 3));
    assert_eq!(manager.entry(0x40_2000), Some(0x2000 | 3));
    assert_eq!(manager.entry(0x40_3000), Some(0));
    assert_eq!(map_pages(&mut manager, 0x80_0000, 0x5000, 0), Ok(()));
    assert_eq!(manager.translate(0x80_0000), None);
}

#[test]
fn only_available_memory_at_its_own_addresses() {
    let mut map = memory_map();
    map.first_available_addr = 0xb000;
    map.last_available_addr = 0x10_0000;
    let space =
        match set_up_address_space_within(&map, kernel_info(), IdentityRange::AvailableMemory) {
            Ok(space) => space,
            Err(error) => panic!("no address space: {:?}", error),
        };
    assert_eq!(space.root_table, 0xb000);
    assert_eq!(space.tables.translate(0x0), None);
    assert_eq!(space.tables.translate(0xa000), None);
    assert_eq!(space.tables.translate(0xb000), Some(0xb000));
    assert_eq!(space.tables.translate(0xf_f000), Some(0xf_f000));
    assert_eq!(space.tables.translate(0x10_0000), None);
    assert_eq!(space.tables.translate(KERNEL_MAPPING_OFFSET + 0x2000), Some(0x2000));
    for frame in space.tables.table_frames().iter() {
        assert!(0xb000 <= *frame && *frame < 0x10_0000);
    }
}

#[test]
fn all_memory_is_the_range_by_default() {
    let map = memory_map();
    let space = match set_up_address_space_within(&map, kernel_info(), IdentityRange::AllMemory) {
        Ok(space) => space,
        Err(error) => panic!("no address space: {:?}", error),
    };
    let same = built();
    assert_eq!(space.root_table, same.root_table);
    assert_eq!(space.tables.table_frames(), same.tables.table_frames());
    assert_eq!(space.tables.translate(0x0), Some(0x0));
    assert_eq!(space.tables.translate(0x1f_f000), Some(0x1f_f000));
}
