//! Classification of the firmware's memory map by what the kernel uses each
//! region for.
use vstd::prelude::*;

use crate::firmware::FirmwareDescriptor;
use crate::memory::{region_end, KernelInfo, MemoryDescriptor, MemoryMap, MemoryType, PAGE_SIZE};

verus! {

/// What the kernel uses the region `descriptor` for. The first rule that
/// applies decides: a region that starts in the zero page is reserved; one
/// that holds the descriptor storage or the boot-info page is kernel data;
/// one that holds the kernel's code is kernel code; one that holds its stack
/// is kernel stack; any other is available where firmware calls it usable,
/// and reserved where not.
pub open spec fn classification(descriptor: FirmwareDescriptor, info: KernelInfo) -> MemoryType {
    if descriptor.phys_start < 0x1000 {
        MemoryType::Reserved
    } else if descriptor.contains(
        info.descriptor_storage_address as int,
        info.descriptor_storage_end(),
    ) || descriptor.contains(info.boot_info_address as int, info.boot_info_end()) {
        MemoryType::KernelData
    } else if descriptor.contains(info.kernel_code_address as int, info.kernel_code_end()) {
        MemoryType::KernelCode
    } else if descriptor.contains(info.kernel_stack_address as int, info.kernel_stack_end()) {
        MemoryType::KernelStack
    } else if descriptor.ty.is_usable() {
        MemoryType::Available
    } else {
        MemoryType::Reserved
    }
}

/// The descriptor that the kernel gets for a firmware descriptor.
pub open spec fn translated(descriptor: FirmwareDescriptor, info: KernelInfo) -> MemoryDescriptor
    recommends
        descriptor.is_valid(),
{
    MemoryDescriptor {
        phys_start: descriptor.phys_start,
        phys_end: descriptor.end() as u64,
        num_pages: descriptor.page_count,
        kind: classification(descriptor, info),
    }
}

/// A descriptor enters the bounds of available memory where firmware calls
/// it usable and it does not start at address zero, whatever the kernel uses
/// it for.
pub open spec fn counts_as_available(descriptor: FirmwareDescriptor) -> bool {
    descriptor.phys_start != 0 && descriptor.ty.is_usable()
}

/// `value` is the lowest start among the first `n` descriptors (`u64::MAX`
/// where there is none), taken over the ones that count as available if
/// `available_only` is set, and over all of them if not.
pub open spec fn is_lowest_start(
    firmware_map: Seq<FirmwareDescriptor>,
    n: int,
    available_only: bool,
    value: u64,
) -> bool {
    &&& forall|i: int|
        0 <= i < n && (!available_only || counts_as_available(#[trigger] firmware_map[i]))
            ==> value <= firmware_map[i].phys_start
    &&& value == u64::MAX || exists|i: int|
        0 <= i < n && (!available_only || counts_as_available(#[trigger] firmware_map[i]))
            && firmware_map[i].phys_start == value
}

/// `value` is the highest end among the first `n` descriptors (zero where
/// there is none), taken over the ones that count as available if
/// `available_only` is set, and over all of them if not.
pub open spec fn is_highest_end(
    firmware_map: Seq<FirmwareDescriptor>,
    n: int,
    available_only: bool,
    value: u64,
) -> bool {
    &&& forall|i: int|
        0 <= i < n && (!available_only || counts_as_available(#[trigger] firmware_map[i]))
            ==> firmware_map[i].end() <= value
    &&& value == 0 || exists|i: int|
        0 <= i < n && (!available_only || counts_as_available(#[trigger] firmware_map[i]))
            && firmware_map[i].end() == value
}

/// `map` is the kernel's memory map for the first `n` descriptors of
/// `firmware_map`: one descriptor for each, in the same order, and the four
/// bounds.
pub open spec fn translates(
    firmware_map: Seq<FirmwareDescriptor>,
    n: int,
    info: KernelInfo,
    map: MemoryMap,
) -> bool {
    &&& map.descriptors@.len() == n
    &&& forall|i: int|
        0 <= i < n ==> map.descriptors@[i] == translated(#[trigger] firmware_map[i], info)
    &&& is_lowest_start(firmware_map, n, false, map.first_addr)
    &&& is_lowest_start(firmware_map, n, true, map.first_available_addr)
    &&& is_highest_end(firmware_map, n, false, map.last_addr)
    &&& is_highest_end(firmware_map, n, true, map.last_available_addr)
}

/// A region that starts in the zero page is reserved, whatever firmware
/// calls it and wherever the kernel lies.
pub proof fn lemma_zero_page_reserved(descriptor: FirmwareDescriptor, info: KernelInfo)
    requires
        descriptor.phys_start < 0x1000,
    ensures
        classification(descriptor, info) == MemoryType::Reserved,
        translated(descriptor, info).kind == MemoryType::Reserved,
{
}

/// A region above the zero page that holds all of the kernel's code is
/// kernel code, unless it also holds the boot information or the descriptor
/// storage, which come first.
pub proof fn lemma_kernel_code_region(descriptor: FirmwareDescriptor, info: KernelInfo)
    requires
        descriptor.phys_start >= 0x1000,
        descriptor.contains(info.kernel_code_address as int, info.kernel_code_end()),
    ensures
        classification(descriptor, info) == if descriptor.contains(
            info.descriptor_storage_address as int,
            info.descriptor_storage_end(),
        ) || descriptor.contains(info.boot_info_address as int, info.boot_info_end()) {
            MemoryType::KernelData
        } else {
            MemoryType::KernelCode
        },
{
}

/// Decides what the kernel uses the region `descriptor` for.
pub fn classify(descriptor: &FirmwareDescriptor, info: &KernelInfo) -> (kind: MemoryType)
    ensures
        kind == classification(*descriptor, *info),
{
    let start: u128 = descriptor.phys_start as u128;
    let end: u128 = region_end(descriptor.phys_start, descriptor.page_count);
    let storage_start: u128 = info.descriptor_storage_address as u128;
    let storage_end: u128 = storage_start + info.descriptor_storage_size as u128;
    let boot_info_start: u128 = info.boot_info_address as u128;
    let boot_info_end: u128 = boot_info_start + PAGE_SIZE as u128;
    let code_start: u128 = info.kernel_code_address as u128;
    let code_end: u128 = region_end(info.kernel_code_address, info.kernel_code_page_count);
    let stack_start: u128 = info.kernel_stack_address as u128;
    let stack_end: u128 = region_end(info.kernel_stack_address, info.kernel_stack_page_count);
    if descriptor.phys_start < 0x1000 {
        MemoryType::Reserved
    } else if (start <= storage_start && end >= storage_end) || (start <= boot_info_start && end
        >= boot_info_end) {
        MemoryType::KernelData
    } else if start <= code_start && end >= code_end {
        MemoryType::KernelCode
    } else if start <= stack_start && end >= stack_end {
        MemoryType::KernelStack
    } else if descriptor.ty.is_usable() {
        MemoryType::Available
    } else {
        MemoryType::Reserved
    }
}

impl MemoryMap {
    /// A memory map without regions that keeps its descriptors in
    /// `storage`, which is emptied. The bounds start at the far ends of the
    /// address space, so that the first region recorded sets them.
    pub fn new(storage: Vec<MemoryDescriptor>) -> (map: MemoryMap)
        ensures
            map.descriptors@.len() == 0,
            map.first_addr == u64::MAX,
            map.first_available_addr == u64::MAX,
            map.last_addr == 0,
            map.last_available_addr == 0,
    {
        let mut descriptors = storage;
        descriptors.clear();
        MemoryMap {
            descriptors,
            first_addr: u64::MAX,
            first_available_addr: u64::MAX,
            last_addr: 0,
            last_available_addr: 0,
        }
    }

    /// Appends the kernel's descriptor for `descriptor` and widens the bounds
    /// by its region.
    pub fn record(&mut self, descriptor: &FirmwareDescriptor, info: &KernelInfo)
        requires
            descriptor.is_valid(),
        ensures
            final(self).descriptors@ == old(self).descriptors@.push(translated(*descriptor, *info)),
            final(self).first_addr == if descriptor.phys_start < old(self).first_addr {
                descriptor.phys_start
            } else {
                old(self).first_addr
            },
            final(self).last_addr == if descriptor.end() > old(self).last_addr {
                descriptor.end() as u64
            } else {
                old(self).last_addr
            },
            final(self).first_available_addr == if counts_as_available(*descriptor)
                && descriptor.phys_start < old(self).first_available_addr {
                descriptor.phys_start
            } else {
                old(self).first_available_addr
            },
            final(self).last_available_addr == if counts_as_available(*descriptor)
                && descriptor.end() > old(self).last_available_addr {
                descriptor.end() as u64
            } else {
                old(self).last_available_addr
            },
    {
        let phys_end: u64 = descriptor.phys_start + descriptor.page_count * PAGE_SIZE;
        if descriptor.phys_start < self.first_addr {
            self.first_addr = descriptor.phys_start;
        }
        if descriptor.phys_start != 0 && descriptor.ty.is_usable() {
            if descriptor.phys_start < self.first_available_addr {
                self.first_available_addr = descriptor.phys_start;
            }
            if phys_end > self.last_available_addr {
                self.last_available_addr = phys_end;
            }
        }
        if phys_end > self.last_addr {
            self.last_addr = phys_end;
        }
        let kind = classify(descriptor, info);
        self.descriptors.push(
            MemoryDescriptor {
                phys_start: descriptor.phys_start,
                phys_end,
                num_pages: descriptor.page_count,
                kind,
            },
        );
    }
}

/// Builds the kernel's memory map from the firmware's: every region is
/// classified by [`classification`], and the bounds are taken over all
/// regions and over the available ones.
pub fn translate(firmware_map: &Vec<FirmwareDescriptor>, info: &KernelInfo) -> (map: MemoryMap)
    requires
        forall|i: int| 0 <= i < firmware_map.len() ==> (#[trigger] firmware_map[i]).is_valid(),
    ensures
        translates(firmware_map@, firmware_map.len() as int, *info, map),
{
    let mut map = MemoryMap::new(Vec::with_capacity(firmware_map.len()));
    let mut i: usize = 0;
    while i < firmware_map.len()
        invariant
            i <= firmware_map.len(),
            forall|j: int| 0 <= j < firmware_map.len() ==> (#[trigger] firmware_map[j]).is_valid(),
            translates(firmware_map@, i as int, *info, map),
        decreases firmware_map.len() - i,
    {
        map.record(&firmware_map[i], info);
        i += 1;
    }
    map
}

} // verus!
