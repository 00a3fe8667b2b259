//! What firmware reports about physical memory, as plain values.
use vstd::prelude::*;

use crate::memory::{region_end, PhysicalAddress, PAGE_SIZE};

verus! {

/// The use that firmware has recorded for a region of memory.
#[derive(Clone, Copy, Debug, PartialEq, Eq, Structural)]
pub enum FirmwareMemoryType {
    Reserved,
    LoaderCode,
    LoaderData,
    BootServicesCode,
    BootServicesData,
    RuntimeServicesCode,
    RuntimeServicesData,
    Conventional,
    Unusable,
    AcpiReclaim,
    AcpiNonVolatile,
    Mmio,
    MmioPortSpace,
    PalCode,
    PersistentMemory,
    /// A type outside the ones firmware is required to know, by its number.
    Other(u32),
}

impl FirmwareMemoryType {
    /// The type that firmware writes as the number `raw`.
    pub open spec fn spec_from_raw(raw: u32) -> FirmwareMemoryType {
        if raw == 0 {
            FirmwareMemoryType::Reserved
        } else if raw == 1 {
            FirmwareMemoryType::LoaderCode
        } else if raw == 2 {
            FirmwareMemoryType::LoaderData
        } else if raw == 3 {
            FirmwareMemoryType::BootServicesCode
        } else if raw == 4 {
            FirmwareMemoryType::BootServicesData
        } else if raw == 5 {
            FirmwareMemoryType::RuntimeServicesCode
        } else if raw == 6 {
            FirmwareMemoryType::RuntimeServicesData
        } else if raw == 7 {
            FirmwareMemoryType::Conventional
        } else if raw == 8 {
            FirmwareMemoryType::Unusable
        } else if raw == 9 {
            FirmwareMemoryType::AcpiReclaim
        } else if raw == 10 {
            FirmwareMemoryType::AcpiNonVolatile
        } else if raw == 11 {
            FirmwareMemoryType::Mmio
        } else if raw == 12 {
            FirmwareMemoryType::MmioPortSpace
        } else if raw == 13 {
            FirmwareMemoryType::PalCode
        } else if raw == 14 {
            FirmwareMemoryType::PersistentMemory
        } else {
            FirmwareMemoryType::Other(raw)
        }
    }

    /// The type that firmware writes as the number `raw`.
    #[verifier::when_used_as_spec(spec_from_raw)]
    pub fn from_raw(raw: u32) -> (ty: FirmwareMemoryType)
        ensures
            ty == Self::spec_from_raw(raw),
    {
        match raw {
            0 => FirmwareMemoryType::Reserved,
            1 => FirmwareMemoryType::LoaderCode,
            2 => FirmwareMemoryType::LoaderData,
            3 => FirmwareMemoryType::BootServicesCode,
            4 => FirmwareMemoryType::BootServicesData,
            5 => FirmwareMemoryType::RuntimeServicesCode,
            6 => FirmwareMemoryType::RuntimeServicesData,
            7 => FirmwareMemoryType::Conventional,
            8 => FirmwareMemoryType::Unusable,
            9 => FirmwareMemoryType::AcpiReclaim,
            10 => FirmwareMemoryType::AcpiNonVolatile,
            11 => FirmwareMemoryType::Mmio,
            12 => FirmwareMemoryType::MmioPortSpace,
            13 => FirmwareMemoryType::PalCode,
            14 => FirmwareMemoryType::PersistentMemory,
            _ => FirmwareMemoryType::Other(raw),
        }
    }

    /// Memory of this type is free for the kernel once boot services have
    /// ended: conventional memory and what the boot services held.
    pub open spec fn spec_is_usable(self) -> bool {
        self == FirmwareMemoryType::Conventional
            || self == FirmwareMemoryType::BootServicesCode
            || self == FirmwareMemoryType::BootServicesData
    }

    /// Whether memory of this type is free for the kernel.
    #[verifier::when_used_as_spec(spec_is_usable)]
    pub fn is_usable(self) -> (usable: bool)
        ensures
            usable == self.spec_is_usable(),
    {
        match self {
            FirmwareMemoryType::Conventional => true,
            FirmwareMemoryType::BootServicesCode => true,
            FirmwareMemoryType::BootServicesData => true,
            _ => false,
        }
    }
}

/// One entry of the firmware's memory map: `page_count` pages from
/// `phys_start` on.
#[derive(Clone, Copy, Debug, PartialEq, Eq, Structural)]
pub struct FirmwareDescriptor {
    pub phys_start: PhysicalAddress,
    pub page_count: u64,
    pub ty: FirmwareMemoryType,
}

impl FirmwareDescriptor {
    /// The first address behind the region.
    pub open spec fn end(self) -> int {
        self.phys_start + self.page_count * PAGE_SIZE
    }

    /// The region ends within the 64-bit address space.
    pub open spec fn spec_is_valid(&self) -> bool {
        self.end() <= u64::MAX
    }

    /// Whether the region ends within the 64-bit address space.
    #[verifier::when_used_as_spec(spec_is_valid)]
    pub fn is_valid(&self) -> (valid: bool)
        ensures
            valid == self.spec_is_valid(),
    {
        region_end(self.phys_start, self.page_count) <= u64::MAX as u128
    }

    /// The region holds all of `[start, end)`. The test takes the start as
    /// part of a region and the end as the first address behind it.
    pub open spec fn contains(self, start: int, end: int) -> bool {
        self.phys_start <= start && self.end() >= end
    }
}

/// Whether every descriptor of `firmware_map` ends within the address space.
pub fn all_valid(firmware_map: &Vec<FirmwareDescriptor>) -> (valid: bool)
    ensures
        valid == (forall|i: int|
            0 <= i < firmware_map.len() ==> (#[trigger] firmware_map[i]).is_valid()),
{
    let mut i: usize = 0;
    while i < firmware_map.len()
        invariant
            i <= firmware_map.len(),
            forall|j: int| 0 <= j < i ==> (#[trigger] firmware_map[j]).is_valid(),
        decreases firmware_map.len() - i,
    {
        if !firmware_map[i].is_valid() {
            return false;
        }
        i += 1;
    }
    true
}

} // verus!
