use core_boot::firmware::{all_valid, FirmwareDescriptor, FirmwareMemoryType};
use core_boot::memory::{page_count, page_aligned, region_end, KernelInfo, MemoryType, PAGE_SIZE};
use core_boot::translate::{classify, translate};
use core_boot::memory::MemoryMap;

fn info(code: u64, code_pages: u64, stack: u64, stack_pages: u64, boot_info: u64) -> KernelInfo {
    KernelInfo {
        kernel_code_address: code,
        kernel_code_page_count: code_pages,
        kernel_stack_address: stack,
        kernel_stack_page_count: stack_pages,
        framebuffer_address: 0,
        framebuffer_page_count: 0,
        boot_info_address: boot_info,
        descriptor_storage_address: 0,
        descriptor_storage_size: 0,
    }
}

fn region(phys_start: u64, page_count: u64, ty: FirmwareMemoryType) -> FirmwareDescriptor {
    FirmwareDescriptor { phys_start, page_count, ty }
}

#[test]
fn page_count_rounds_up() {
    assert_eq!(page_count(0), 0);
    assert_eq!(page_count(1), 1);
    assert_eq!(page_count(4095), 1);
    assert_eq!(page_count(4096), 1);
    assert_eq!(page_count(4097), 2);
    assert_eq!(page_count(1024 * 1024), 256);
    assert_eq!(page_count(u64::MAX), 0x10_0000_0000_0000);
}

#[test]
fn page_count_covers_the_size() {
    for size in [0u64, 1, 4095, 4096, 4097, 8191, 8192, 123_456_789] {
        let pages = page_count(size);
        assert!(pages * PAGE_SIZE >= size);
        assert!(pages * PAGE_SIZE < size + PAGE_SIZE);
    }
}

#[test]
fn page_alignment() {
    assert!(page_aligned(0));
    assert!(page_aligned(0x1000));
    assert!(!page_aligned(0x1001));
    assert!(!page_aligned(0xfff));
    assert!(page_aligned(0xFFFF_FFFF_8000_0000));
}

#[test]
fn region_end_does_not_overflow() {
    assert_eq!(region_end(0x1000, 2), 0x3000);
    assert_eq!(region_end(u64::MAX, u64::MAX), u64::MAX as u128 + u64::MAX as u128 * 4096);
}

#[test]
fn memory_type_codes() {
    assert_eq!(MemoryType::Reserved.code(), 0);
    assert_eq!(MemoryType::Available.code(), 1);
    assert_eq!(MemoryType::KernelCode.code(), 2);
    assert_eq!(MemoryType::KernelStack.code(), 3);
    assert_eq!(MemoryType::KernelData.code(), 4);
}

#[test]
fn firmware_types_from_numbers() {
    assert_eq!(FirmwareMemoryType::from_raw(0), FirmwareMemoryType::Reserved);
    assert_eq!(FirmwareMemoryType::from_raw(2), FirmwareMemoryType::LoaderData);
    assert_eq!(FirmwareMemoryType::from_raw(3), FirmwareMemoryType::BootServicesCode);
    assert_eq!(FirmwareMemoryType::from_raw(4), FirmwareMemoryType::BootServicesData);
    assert_eq!(FirmwareMemoryType::from_raw(7), FirmwareMemoryType::Conventional);
    assert_eq!(FirmwareMemoryType::from_raw(14), FirmwareMemoryType::PersistentMemory);
    assert_eq!(FirmwareMemoryType::from_raw(15), FirmwareMemoryType::Other(15));
    assert_eq!(FirmwareMemoryType::from_raw(0x8000_0001), FirmwareMemoryType::Other(0x8000_0001));
}

#[test]
fn usable_firmware_types() {
    assert!(FirmwareMemoryType::Conventional.is_usable());
    assert!(FirmwareMemoryType::BootServicesCode.is_usable());
    assert!(FirmwareMemoryType::BootServicesData.is_usable());
    assert!(!FirmwareMemoryType::LoaderData.is_usable());
    assert!(!FirmwareMemoryType::Reserved.is_usable());
    assert!(!FirmwareMemoryType::Mmio.is_usable());
    assert!(!FirmwareMemoryType::Other(7).is_usable());
}

#[test]
fn descriptor_validity() {
    assert!(region(0, 1, FirmwareMemoryType::Conventional).is_valid());
    assert!(region(u64::MAX - 4096, 1, FirmwareMemoryType::Conventional).is_valid());
    assert!(!region(u64::MAX - 4095, 1, FirmwareMemoryType::Conventional).is_valid());
    assert!(!region(0, u64::MAX, FirmwareMemoryType::Conventional).is_valid());
    assert!(all_valid(&vec![region(0, 1, FirmwareMemoryType::Conventional)]));
    assert!(!all_valid(&vec![
        region(0, 1, FirmwareMemoryType::Conventional),
        region(0x1000, u64::MAX, FirmwareMemoryType::Conventional),
    ]));
    assert!(all_valid(&Vec::new()));
}

#[test]
fn zero_page_is_reserved() {
    let info = info(0x2000, 2, 0x100000, 4, 0x3000);
    let map = translate(&vec![region(0, 1, FirmwareMemoryType::Reserved)], &info);
    assert_eq!(map.descriptors.len(), 1);
    assert_eq!(map.descriptors[0].kind, MemoryType::Reserved);
    assert_eq!(map.descriptors[0].phys_start, 0);
    assert_eq!(map.descriptors[0].phys_end, 0x1000);
    assert_eq!(map.descriptors[0].num_pages, 1);
}

#[test]
fn zero_page_is_reserved_whatever_firmware_says() {
    let info = info(0, 4, 0, 4, 0);
    for ty in [
        FirmwareMemoryType::Conventional,
        FirmwareMemoryType::BootServicesCode,
        FirmwareMemoryType::LoaderData,
        FirmwareMemoryType::Mmio,
    ] {
        assert_eq!(classify(&region(0, 1, ty), &info), MemoryType::Reserved);
        assert_eq!(classify(&region(0x800, 64, ty), &info), MemoryType::Reserved);
    }
}

#[test]
fn region_with_the_kernel_code_is_kernel_code() {
    let info = info(0x20_0000, 16, 0x40_0000, 4, 0x50_0000);
    let exact = region(0x20_0000, 16, FirmwareMemoryType::LoaderData);
    assert_eq!(classify(&exact, &info), MemoryType::KernelCode);
    let wider = region(0x10_0000, 512, FirmwareMemoryType::Conventional);
    assert_eq!(classify(&wider, &info), MemoryType::KernelCode);
    let part = region(0x20_0000, 15, FirmwareMemoryType::LoaderData);
    assert_eq!(classify(&part, &info), MemoryType::Reserved);
    let later = region(0x20_1000, 64, FirmwareMemoryType::Conventional);
    assert_eq!(classify(&later, &info), MemoryType::Available);
}

#[test]
fn classification_by_priority() {
    let mut info = info(0x20_0000, 16, 0x40_0000, 4, 0x50_0000);
    info.descriptor_storage_address = 0x60_0000;
    info.descriptor_storage_size = 0x800;
    let stack = region(0x40_0000, 4, FirmwareMemoryType::LoaderData);
    assert_eq!(classify(&stack, &info), MemoryType::KernelStack);
    let boot_info = region(0x50_0000, 1, FirmwareMemoryType::LoaderData);
    assert_eq!(classify(&boot_info, &info), MemoryType::KernelData);
    let storage = region(0x60_0000, 1, FirmwareMemoryType::LoaderData);
    assert_eq!(classify(&storage, &info), MemoryType::KernelData);
    let everything = region(0x1000, 0x1000, FirmwareMemoryType::Conventional);
    assert_eq!(classify(&everything, &info), MemoryType::KernelData);
    let code_and_stack = region(0x20_0000, 0x204, FirmwareMemoryType::Conventional);
    assert_eq!(classify(&code_and_stack, &info), MemoryType::KernelCode);
    let free = region(0x70_0000, 16, FirmwareMemoryType::BootServicesData);
    assert_eq!(classify(&free, &info), MemoryType::Available);
    let runtime = region(0x70_0000, 16, FirmwareMemoryType::RuntimeServicesData);
    assert_eq!(classify(&runtime, &info), MemoryType::Reserved);
}

#[test]
fn one_mebibyte_scenario() {
    let info = info(0x2000, 2, 0x100000, 4, 0x3000);
    let firmware_map = vec![
        region(0x0, 1, FirmwareMemoryType::Conventional),
        region(0x1000, 255, FirmwareMemoryType::Conventional),
    ];
    let map = translate(&firmware_map, &info);
    assert_eq!(map.descriptors.len(), 2);
    assert_eq!(map.descriptors[0].kind, MemoryType::Reserved);
    assert_eq!(map.descriptors[0].phys_start, 0x0);
    assert_eq!(map.descriptors[0].phys_end, 0x1000);
    // The second region holds the boot information and the kernel's code;
    // the boot information is looked for first and decides for the region.
    assert_eq!(map.descriptors[1].kind, MemoryType::KernelData);
    assert_eq!(map.descriptors[1].phys_start, 0x1000);
    assert_eq!(map.descriptors[1].phys_end, 0x100000);
    assert_eq!(map.descriptors[1].num_pages, 255);
    assert_eq!(map.first_addr, 0x0);
    assert_eq!(map.last_addr, 0x100000);
    assert_eq!(map.first_available_addr, 0x1000);
    assert_eq!(map.last_available_addr, 0x100000);
}

#[test]
fn one_mebibyte_scenario_with_a_region_for_each_use() {
    let info = info(0x2000, 1, 0x100000, 4, 0x3000);
    let firmware_map = vec![
        region(0x0, 1, FirmwareMemoryType::Conventional),
        region(0x1000, 1, FirmwareMemoryType::Conventional),
        region(0x2000, 1, FirmwareMemoryType::LoaderData),
        region(0x3000, 1, FirmwareMemoryType::LoaderData),
        region(0x4000, 252, FirmwareMemoryType::Conventional),
        region(0x100000, 4, FirmwareMemoryType::LoaderData),
    ];
    let map = translate(&firmware_map, &info);
    let kinds: Vec<MemoryType> = map.descriptors.iter().map(|d| d.kind).collect();
    assert_eq!(
        kinds,
        vec![
            MemoryType::Reserved,
            MemoryType::Available,
            MemoryType::KernelCode,
            MemoryType::KernelData,
            MemoryType::Available,
            MemoryType::KernelStack,
        ]
    );
    assert_eq!(map.first_addr, 0x0);
    assert_eq!(map.last_addr, 0x104000);
    assert_eq!(map.first_available_addr, 0x1000);
    assert_eq!(map.last_available_addr, 0x100000);
}

#[test]
fn boot_information_wins_over_kernel_code() {
    let info = info(0x2000, 2, 0x100000, 4, 0x3000);
    let both = region(0x2000, 2, FirmwareMemoryType::LoaderData);
    assert_eq!(classify(&both, &info), MemoryType::KernelData);
}

#[test]
fn empty_firmware_map() {
    let info = info(0x2000, 2, 0x100000, 4, 0x3000);
    let map = translate(&Vec::new(), &info);
    assert_eq!(map.descriptors.len(), 0);
    assert_eq!(map.first_addr, u64::MAX);
    assert_eq!(map.first_available_addr, u64::MAX);
    assert_eq!(map.last_addr, 0);
    assert_eq!(map.last_available_addr, 0);
}

#[test]
fn bounds_of_available_memory_skip_unusable_regions() {
    let info = info(0x2000, 2, 0x100000, 4, 0x3000);
    let firmware_map = vec![
        region(0x10_0000, 16, FirmwareMemoryType::Mmio),
        region(0x20_0000, 16, FirmwareMemoryType::BootServicesCode),
        region(0x8000, 8, FirmwareMemoryType::AcpiReclaim),
        region(0x40_0000, 2, FirmwareMemoryType::Conventional),
        region(0x80_0000, 2, FirmwareMemoryType::RuntimeServicesCode),
    ];
    let map = translate(&firmware_map, &info);
    assert_eq!(map.first_addr, 0x8000);
    assert_eq!(map.last_addr, 0x80_2000);
    assert_eq!(map.first_available_addr, 0x20_0000);
    assert_eq!(map.last_available_addr, 0x40_2000);
    assert_eq!(map.descriptors[2].phys_start, 0x8000);
    assert_eq!(map.descriptors[2].phys_end, 0x10000);
    assert_eq!(map.descriptors[2].num_pages, 8);
}

#[test]
fn recording_one_region_at_a_time() {
    let info = info(0x2000, 2, 0x100000, 4, 0x3000);
    let mut map = MemoryMap::new(Vec::with_capacity(4));
    assert_eq!(map.descriptors.len(), 0);
    map.record(&region(0x5000, 3, FirmwareMemoryType::Conventional), &info);
    assert_eq!(map.descriptors.len(), 1);
    assert_eq!(map.descriptors[0].kind, MemoryType::Available);
    assert_eq!(map.first_addr, 0x5000);
    assert_eq!(map.last_addr, 0x8000);
    map.record(&region(0x1000, 1, FirmwareMemoryType::Reserved), &info);
    assert_eq!(map.descriptors.len(), 2);
    assert_eq!(map.first_addr, 0x1000);
    assert_eq!(map.first_available_addr, 0x5000);
    assert_eq!(map.last_available_addr, 0x8000);
    assert_eq!(map.last_addr, 0x8000);
}
