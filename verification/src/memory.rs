//! Addresses, page arithmetic and the kernel-owned memory map.
use vstd::prelude::*;

verus! {

/// An address in physical memory.
pub type PhysicalAddress = u64;

/// An address as a program uses it, before translation.
pub type VirtualAddress = u64;

/// Size of a page and of a physical frame in bytes.
pub const PAGE_SIZE: u64 = 4096;

/// Whether `address` lies on a page boundary.
pub open spec fn is_page_aligned(address: u64) -> bool {
    address % PAGE_SIZE == 0
}

/// Number of pages needed to hold `size` bytes, as a mathematical integer.
pub open spec fn pages_for(size: int) -> int {
    (size + PAGE_SIZE - 1) / (PAGE_SIZE as int)
}

/// Number of pages needed to hold `size` bytes: `size / 4096`, rounded up.
pub fn page_count(size: u64) -> (count: u64)
    ensures
        count == pages_for(size as int),
        count * PAGE_SIZE >= size,
        count * PAGE_SIZE < size + PAGE_SIZE,
{
    let full: u64 = size / PAGE_SIZE;
    if size % PAGE_SIZE == 0 {
        full
    } else {
        full + 1
    }
}

/// The pages for `size` bytes hold all of them, and less than a page is left
/// over: the number of pages is `size / 4096`, rounded up.
pub proof fn lemma_pages_cover(size: int)
    requires
        0 <= size,
    ensures
        pages_for(size) * PAGE_SIZE >= size,
        pages_for(size) * PAGE_SIZE < size + PAGE_SIZE,
        size % (PAGE_SIZE as int) == 0 ==> pages_for(size) == size / (PAGE_SIZE as int),
        size % (PAGE_SIZE as int) != 0 ==> pages_for(size) == size / (PAGE_SIZE as int) + 1,
{
}

/// The first address behind `pages` pages from `start` on. The sum is taken
/// in 128 bits, where it cannot overflow.
pub fn region_end(start: u64, pages: u64) -> (end: u128)
    ensures
        end == start + pages * PAGE_SIZE,
{
    assert(pages * 4096 <= u64::MAX * 4096) by (nonlinear_arith)
        requires
            pages <= u64::MAX,
    ;
    start as u128 + pages as u128 * 4096
}

/// Exec form of [`is_page_aligned`].
pub fn page_aligned(address: u64) -> (aligned: bool)
    ensures
        aligned == is_page_aligned(address),
{
    address % PAGE_SIZE == 0
}

/// What a region of physical memory is used for once the kernel runs.
#[derive(Clone, Copy, Debug, PartialEq, Eq, Structural)]
pub enum MemoryType {
    Reserved,
    Available,
    KernelCode,
    KernelStack,
    KernelData,
}

impl MemoryType {
    /// The tag of this kind in the record that the kernel reads.
    pub open spec fn spec_code(self) -> u8 {
        match self {
            MemoryType::Reserved => 0,
            MemoryType::Available => 1,
            MemoryType::KernelCode => 2,
            MemoryType::KernelStack => 3,
            MemoryType::KernelData => 4,
        }
    }

    /// The tag of this kind in the record that the kernel reads.
    #[verifier::when_used_as_spec(spec_code)]
    pub fn code(self) -> (tag: u8)
        ensures
            tag == self.spec_code(),
    {
        match self {
            MemoryType::Reserved => 0,
            MemoryType::Available => 1,
            MemoryType::KernelCode => 2,
            MemoryType::KernelStack => 3,
            MemoryType::KernelData => 4,
        }
    }
}

/// One region of physical memory, `[phys_start, phys_end)`.
#[derive(Clone, Copy, Debug, PartialEq, Eq, Structural)]
pub struct MemoryDescriptor {
    pub phys_start: PhysicalAddress,
    pub phys_end: PhysicalAddress,
    pub num_pages: u64,
    pub kind: MemoryType,
}

/// The regions of physical memory in the order in which firmware reported
/// them, with the bounds of all of them and of the usable ones.
#[derive(Clone, Debug)]
pub struct MemoryMap {
    pub descriptors: Vec<MemoryDescriptor>,
    pub first_addr: PhysicalAddress,
    pub first_available_addr: PhysicalAddress,
    pub last_addr: PhysicalAddress,
    pub last_available_addr: PhysicalAddress,
}

/// Where the loader has put the kernel and what it hands to it. The record
/// lives only while the address space is built and the memory map is
/// classified.
#[derive(Clone, Copy, Debug)]
pub struct KernelInfo {
    pub kernel_code_address: PhysicalAddress,
    pub kernel_code_page_count: u64,
    pub kernel_stack_address: PhysicalAddress,
    pub kernel_stack_page_count: u64,
    pub framebuffer_address: PhysicalAddress,
    pub framebuffer_page_count: u64,
    pub boot_info_address: PhysicalAddress,
    /// Start of the memory that holds the descriptors of the memory map.
    pub descriptor_storage_address: PhysicalAddress,
    /// Size of that memory in bytes.
    pub descriptor_storage_size: u64,
}

impl KernelInfo {
    /// The first address behind the kernel's code.
    pub open spec fn kernel_code_end(self) -> int {
        self.kernel_code_address + self.kernel_code_page_count * PAGE_SIZE
    }

    /// The first address behind the frames of the kernel's stack.
    pub open spec fn kernel_stack_end(self) -> int {
        self.kernel_stack_address + self.kernel_stack_page_count * PAGE_SIZE
    }

    /// The first address behind the pages of the framebuffer.
    pub open spec fn framebuffer_end(self) -> int {
        self.framebuffer_address + self.framebuffer_page_count * PAGE_SIZE
    }

    /// The first address behind the page of the boot information.
    pub open spec fn boot_info_end(self) -> int {
        self.boot_info_address + PAGE_SIZE
    }

    /// The first address behind the descriptor storage.
    pub open spec fn descriptor_storage_end(self) -> int {
        self.descriptor_storage_address + self.descriptor_storage_size
    }
}

} // verus!
