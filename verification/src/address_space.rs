//! The address space that the kernel starts in: all of physical memory
//! mapped at its own addresses, the kernel's code and the boot information
//! in the upper half, the stack at its fixed place, and the framebuffer.
use vstd::prelude::*;

use crate::memory::{
    is_page_aligned, page_aligned, page_count, pages_for, region_end, KernelInfo,
    MemoryDescriptor, MemoryMap, PhysicalAddress, VirtualAddress, PAGE_SIZE,
};
use crate::paging::manager::{MappingError, PageFrameAllocator, PageTableManager};
use crate::paging::mapping::{
    flags_for, is_canonical, last_match, lemma_last_match_concat, lemma_last_match_push,
    lemma_overlay_concat, lemma_paths_of_concat, lemma_paths_of_finite, lemma_paths_of_push,
    lemma_run_match, overlay, paths_of, present, run, run_match, Mapping,
};
use crate::paging::{
    entry_address, entry_flags, lemma_entry_round_trip, lemma_same_page_symmetric, same_page,
    table_paths_for, PageEntryFlags, KERNEL_MAPPING_OFFSET, KERNEL_STACK_MAPPING_OFFSET,
};
use crate::pmm::{
    available_frames, descriptor_offers, frame_is_available, spanned_frames, BitMapAllocator,
    PageFrameAllocatorError,
};

verus! {

/// Size of the kernel's stack in bytes.
pub const KERNEL_STACK_SIZE: u64 = 0x10_0000;

/// The first address behind the lower half of the address space.
pub const LOWER_HALF_END: u64 = 0x8000_0000_0000;

/// Number of descriptors that the storage of the memory map has room for
/// beyond the entries that firmware reported before, in case its map grows.
pub const MEMORY_MAP_PADDING: usize = 8;

/// Number of pages of the kernel's stack.
pub fn kernel_stack_page_count() -> (pages: u64)
    ensures
        pages == pages_for(KERNEL_STACK_SIZE as int),
        pages == 256,
{
    page_count(KERNEL_STACK_SIZE)
}

/// Number of descriptors to make room for when firmware's memory map has
/// `entry_count` entries; `None` where that number does not fit.
pub fn descriptor_capacity(entry_count: usize) -> (capacity: Option<usize>)
    ensures
        capacity == if entry_count + MEMORY_MAP_PADDING <= usize::MAX {
            Some((entry_count + MEMORY_MAP_PADDING) as usize)
        } else {
            None::<usize>
        },
{
    entry_count.checked_add(MEMORY_MAP_PADDING)
}

/// Why no address space could be built.
#[derive(Clone, Copy, Debug, PartialEq, Eq, Structural)]
pub enum BuildError {
    /// The memory map holds no available frame.
    MemoryMapEmpty,
    /// There are fewer available frames than the tables need.
    AllocationFailure,
    /// An address to be mapped does not lie on a page boundary.
    AlignmentError,
    /// A region does not fit where it is to be mapped.
    AddressOutOfRange,
}

/// The tables of an address space, with the three values that the processor
/// is started with.
pub struct AddressSpace {
    /// Physical address of the root table.
    pub root_table: PhysicalAddress,
    /// Virtual address behind the highest page of the kernel's stack.
    pub stack_pointer: VirtualAddress,
    /// Virtual address of the boot information.
    pub boot_info_address: VirtualAddress,
    /// The tables, which are to be written to the frames that they name.
    pub tables: PageTableManager<BitMapAllocator>,
}

/// Number of pages from the lowest to the highest address of `map`.
pub open spec fn identity_pages(map: MemoryMap) -> int {
    pages_for(map.last_addr - map.first_addr)
}

/// Virtual address of the boot information: the page behind the kernel's
/// code in the upper half.
pub open spec fn boot_info_virtual_address(info: KernelInfo) -> int {
    KERNEL_MAPPING_OFFSET + info.kernel_code_end()
}

/// Every address that starts a run of mappings lies on a page boundary.
pub open spec fn layout_is_aligned(map: MemoryMap, info: KernelInfo) -> bool {
    &&& is_page_aligned(map.first_addr)
    &&& is_page_aligned(info.kernel_code_address)
    &&& is_page_aligned(info.boot_info_address)
    &&& is_page_aligned(info.kernel_stack_address)
    &&& is_page_aligned(info.framebuffer_address)
}

/// Physical memory and the framebuffer lie in the lower half of the address
/// space, the kernel's code and the boot information fit above the kernel
/// offset, and the stack fits between its offset and the kernel offset.
pub open spec fn layout_fits(map: MemoryMap, info: KernelInfo) -> bool {
    &&& map.first_addr <= map.last_addr
    &&& map.last_addr <= LOWER_HALF_END
    &&& info.framebuffer_end() <= LOWER_HALF_END
    &&& boot_info_virtual_address(info) + PAGE_SIZE <= u64::MAX + 1
    &&& KERNEL_STACK_MAPPING_OFFSET + info.kernel_stack_page_count * PAGE_SIZE
        <= KERNEL_MAPPING_OFFSET
    &&& info.kernel_stack_end() <= u64::MAX + 1
}

/// The mappings of physical memory at its own addresses.
pub open spec fn identity_plan(map: MemoryMap) -> Seq<Mapping> {
    run(map.first_addr, map.first_addr, identity_pages(map))
}

/// The mappings of the kernel's code in the upper half.
pub open spec fn kernel_code_plan(info: KernelInfo) -> Seq<Mapping> {
    run(
        (KERNEL_MAPPING_OFFSET + info.kernel_code_address) as u64,
        info.kernel_code_address,
        info.kernel_code_page_count as int,
    )
}

/// The mapping of the boot information.
pub open spec fn boot_info_plan(info: KernelInfo) -> Seq<Mapping> {
    run(boot_info_virtual_address(info) as u64, info.boot_info_address, 1)
}

/// The mappings of the kernel's stack.
pub open spec fn stack_plan(info: KernelInfo) -> Seq<Mapping> {
    run(KERNEL_STACK_MAPPING_OFFSET, info.kernel_stack_address, info.kernel_stack_page_count as int)
}

/// The mappings of the framebuffer at its own addresses.
pub open spec fn framebuffer_plan(info: KernelInfo) -> Seq<Mapping> {
    run(info.framebuffer_address, info.framebuffer_address, info.framebuffer_page_count as int)
}

/// Every mapping of the address space, in the order in which the mappings
/// are entered. Where two of them name the same page, the later one stays.
pub open spec fn plan(map: MemoryMap, info: KernelInfo) -> Seq<Mapping> {
    identity_plan(map) + kernel_code_plan(info) + boot_info_plan(info) + stack_plan(info)
        + framebuffer_plan(info)
}

/// Number of tables that the address space consists of: the root and one
/// table for every index path that a mapping needs.
pub open spec fn tables_needed(map: MemoryMap, info: KernelInfo) -> nat {
    set![Seq::<int>::empty()].union(paths_of(plan(map, info))).len()
}

/// Why no address space can be built for `map` and `info`, if there is a
/// reason.
pub open spec fn build_error(map: MemoryMap, info: KernelInfo) -> Option<BuildError> {
    if spanned_frames(map) >= usize::MAX {
        Some(BuildError::AllocationFailure)
    } else if available_frames(map).is_empty() {
        Some(BuildError::MemoryMapEmpty)
    } else if !layout_is_aligned(map, info) {
        Some(BuildError::AlignmentError)
    } else if !layout_fits(map, info) {
        Some(BuildError::AddressOutOfRange)
    } else if tables_needed(map, info) > available_frames(map).len() {
        Some(BuildError::AllocationFailure)
    } else {
        None
    }
}

/// The frame that the page of `address` is mapped to in the address space
/// for `map` and `info`.
pub open spec fn planned_translation(
    map: MemoryMap,
    info: KernelInfo,
    address: VirtualAddress,
) -> Option<PhysicalAddress> {
    match overlay(plan(map, info), None, address) {
        Some(entry) => Some(entry_address(entry)),
        None => None,
    }
}

/// The paths of a run include the paths of each shorter run from the same
/// start.
proof fn lemma_run_paths_grow(
    virtual_start: VirtualAddress,
    physical_start: PhysicalAddress,
    shorter: int,
    pages: int,
)
    requires
        0 <= shorter <= pages,
    ensures
        paths_of(run(virtual_start, physical_start, shorter)).subset_of(
            paths_of(run(virtual_start, physical_start, pages)),
        ),
    decreases pages - shorter,
{
    if shorter < pages {
        let whole = run(virtual_start, physical_start, pages);
        assert(whole.drop_last() =~= run(virtual_start, physical_start, pages - 1));
        lemma_run_paths_grow(virtual_start, physical_start, shorter, pages - 1);
    }
}

/// Enters the mappings of `run(virtual_start, physical_start, pages)` in
/// turn. Fails with `AllocationFailure` exactly if the frame source holds
/// fewer frames than the run needs new tables.
pub fn map_pages<A: PageFrameAllocator>(
    manager: &mut PageTableManager<A>,
    virtual_start: VirtualAddress,
    physical_start: PhysicalAddress,
    pages: u64,
) -> (result: Result<(), MappingError>)
    requires
        old(manager).inv(),
        is_page_aligned(virtual_start),
        is_page_aligned(physical_start),
        virtual_start + pages * PAGE_SIZE <= u64::MAX + 1,
        physical_start + pages * PAGE_SIZE <= u64::MAX + 1,
    ensures
        final(manager).inv(),
        final(manager).root_table() == old(manager).root_table(),
        final(manager).frame_source().available().subset_of(
            old(manager).frame_source().available(),
        ),
        final(manager).memory().dom() == old(manager).memory().dom().union(
            old(manager).frame_source().available().difference(
                final(manager).frame_source().available(),
            ),
        ),
        result is Ok <==> old(manager).table_paths().union(
            paths_of(run(virtual_start, physical_start, pages as int)),
        ).len() - old(manager).table_paths().len() <= old(manager).frame_source().available().len(),
        result is Err ==> result == Err::<(), MappingError>(MappingError::AllocationFailure),
        result is Ok ==> {
            &&& final(manager).table_paths() == old(manager).table_paths().union(
                paths_of(run(virtual_start, physical_start, pages as int)),
            )
            &&& final(manager).frame_source().available().len()
                + final(manager).table_paths().len()
                == old(manager).frame_source().available().len()
                + old(manager).table_paths().len()
            &&& forall|address: VirtualAddress|
                final(manager).mapped_entry(address) == overlay(
                    run(virtual_start, physical_start, pages as int),
                    old(manager).mapped_entry(address),
                    address,
                )
        },
{
    let ghost start = *manager;
    let ghost whole = run(virtual_start, physical_start, pages as int);
    let mut i: u64 = 0;
    proof {
        start.lemma_missing_tables(virtual_start);
        lemma_paths_of_finite(whole);
        assert(start.table_paths().union(paths_of(run(virtual_start, physical_start, 0)))
            =~= start.table_paths());
        assert(start.memory().dom() =~= start.memory().dom().union(
            start.frame_source().available().difference(start.frame_source().available()),
        ));
    }
    while i < pages
        invariant
            i <= pages,
            manager.inv(),
            start == *old(manager),
            start.inv(),
            is_page_aligned(virtual_start),
            is_page_aligned(physical_start),
            virtual_start + pages * PAGE_SIZE <= u64::MAX + 1,
            physical_start + pages * PAGE_SIZE <= u64::MAX + 1,
            whole == run(virtual_start, physical_start, pages as int),
            manager.root_table() == start.root_table(),
            manager.frame_source().available().subset_of(start.frame_source().available()),
            manager.memory().dom() == start.memory().dom().union(
                start.frame_source().available().difference(manager.frame_source().available()),
            ),
            start.table_paths().finite(),
            manager.table_paths() == start.table_paths().union(
                paths_of(run(virtual_start, physical_start, i as int)),
            ),
            manager.frame_source().available().len() == start.frame_source().available().len() - (
            manager.table_paths().len() - start.table_paths().len()),
            forall|address: VirtualAddress|
                manager.mapped_entry(address) == overlay(
                    run(virtual_start, physical_start, i as int),
                    start.mapped_entry(address),
                    address,
                ),
        decreases pages - i,
    {
        assert(i * 4096 < pages * 4096) by (nonlinear_arith)
            requires
                i < pages,
        ;
        let virtual_address: u64 = virtual_start + i * PAGE_SIZE;
        let physical_address: u64 = physical_start + i * PAGE_SIZE;
        let flags = if physical_address < PAGE_SIZE {
            PageEntryFlags::read_only()
        } else {
            PageEntryFlags::default()
        };
        let ghost entered = run(virtual_start, physical_start, i as int);
        let ghost next = run(virtual_start, physical_start, i + 1);
        let ghost mapping = Mapping { virtual_address, physical_address, flags };
        let ghost before = *manager;
        proof {
            assert(next =~= entered.push(mapping));
            lemma_paths_of_push(entered, mapping);
            before.lemma_missing_tables(virtual_address);
            lemma_run_paths_grow(virtual_start, physical_start, i + 1, pages as int);
            lemma_paths_of_finite(whole);
            vstd::set_lib::lemma_len_subset(
                before.table_paths().union(table_paths_for(virtual_address)),
                start.table_paths().union(paths_of(whole)),
            );
        }
        let outcome = manager.map_memory(virtual_address, physical_address, flags);
        proof {
            assert(manager.memory().dom() =~= start.memory().dom().union(
                start.frame_source().available().difference(manager.frame_source().available()),
            ));
        }
        match outcome {
            Ok(()) => {},
            Err(error) => {
                return Err(error);
            },
        }
        proof {
            assert(manager.table_paths() =~= start.table_paths().union(paths_of(next)));
            assert forall|address: VirtualAddress|
                manager.mapped_entry(address) == overlay(
                    next,
                    start.mapped_entry(address),
                    address,
                ) by {
                lemma_last_match_push(entered, mapping, address);
                lemma_same_page_symmetric(address, virtual_address);
            }
        }
        i += 1;
    }
    Ok(())
}

/// The mapping that `plan` ends with for the page that starts at `address`:
/// the framebuffer's if there is one, else the stack's, the boot
/// information's, the kernel code's or that of physical memory.
pub open spec fn plan_match(map: MemoryMap, info: KernelInfo, address: VirtualAddress) -> Option<
    Mapping,
> {
    let framebuffer = run_match(
        info.framebuffer_address,
        info.framebuffer_address,
        info.framebuffer_page_count as int,
        address,
    );
    let stack = run_match(
        KERNEL_STACK_MAPPING_OFFSET,
        info.kernel_stack_address,
        info.kernel_stack_page_count as int,
        address,
    );
    let boot_info = run_match(
        boot_info_virtual_address(info) as u64,
        info.boot_info_address,
        1,
        address,
    );
    let code = run_match(
        (KERNEL_MAPPING_OFFSET + info.kernel_code_address) as u64,
        info.kernel_code_address,
        info.kernel_code_page_count as int,
        address,
    );
    let identity = run_match(map.first_addr, map.first_addr, identity_pages(map), address);
    if framebuffer is Some {
        framebuffer
    } else if stack is Some {
        stack
    } else if boot_info is Some {
        boot_info
    } else if code is Some {
        code
    } else {
        identity
    }
}

/// For a page-aligned canonical address, the last mapping of the plan is
/// the one that [`plan_match`] names.
pub proof fn lemma_plan_match(map: MemoryMap, info: KernelInfo, address: VirtualAddress)
    requires
        layout_is_aligned(map, info),
        layout_fits(map, info),
        is_page_aligned(address),
        is_canonical(address),
    ensures
        last_match(plan(map, info), address) == plan_match(map, info, address),
{
    let identity = identity_plan(map);
    let code = kernel_code_plan(info);
    let boot_info = boot_info_plan(info);
    let stack = stack_plan(info);
    let framebuffer = framebuffer_plan(info);
    lemma_last_match_concat(identity + code + boot_info + stack, framebuffer, address);
    lemma_last_match_concat(identity + code + boot_info, stack, address);
    lemma_last_match_concat(identity + code, boot_info, address);
    lemma_last_match_concat(identity, code, address);
    let pages = identity_pages(map);
    assert(0 <= pages && map.first_addr + pages * PAGE_SIZE <= LOWER_HALF_END);
    assert forall|i: int| 0 <= i < pages implies is_canonical(
        (map.first_addr + #[trigger] (i * PAGE_SIZE)) as u64,
    ) by {}
    lemma_run_match(map.first_addr, map.first_addr, pages, address);
    let code_start = (KERNEL_MAPPING_OFFSET + info.kernel_code_address) as u64;
    assert forall|i: int| 0 <= i < info.kernel_code_page_count implies is_canonical(
        (code_start + #[trigger] (i * PAGE_SIZE)) as u64,
    ) by {}
    lemma_run_match(
        code_start,
        info.kernel_code_address,
        info.kernel_code_page_count as int,
        address,
    );
    let boot_info_start = boot_info_virtual_address(info) as u64;
    assert forall|i: int| 0 <= i < 1 implies is_canonical(
        (boot_info_start + #[trigger] (i * PAGE_SIZE)) as u64,
    ) by {}
    lemma_run_match(boot_info_start, info.boot_info_address, 1, address);
    assert forall|i: int| 0 <= i < info.kernel_stack_page_count implies is_canonical(
        (KERNEL_STACK_MAPPING_OFFSET + #[trigger] (i * PAGE_SIZE)) as u64,
    ) by {}
    lemma_run_match(
        KERNEL_STACK_MAPPING_OFFSET,
        info.kernel_stack_address,
        info.kernel_stack_page_count as int,
        address,
    );
    assert forall|i: int| 0 <= i < info.framebuffer_page_count implies is_canonical(
        (info.framebuffer_address + #[trigger] (i * PAGE_SIZE)) as u64,
    ) by {}
    lemma_run_match(
        info.framebuffer_address,
        info.framebuffer_address,
        info.framebuffer_page_count as int,
        address,
    );
}

/// A mapping made with [`flags_for`] translates its page to its frame.
proof fn lemma_mapping_translates(mapping: Mapping)
    requires
        is_page_aligned(mapping.physical_address),
        mapping.flags == flags_for(mapping.physical_address),
    ensures
        present(mapping.entry()) == Some(mapping.entry()),
        entry_address(mapping.entry()) == mapping.physical_address,
        entry_flags(mapping.entry()) == mapping.flags,
{
    lemma_entry_round_trip(mapping.physical_address, mapping.flags);
}

/// Every page of physical memory is mapped to the frame at its own address:
/// the address space maps each page-aligned address between the lowest and
/// the highest address of the memory map to itself.
pub proof fn lemma_identity_map_complete(map: MemoryMap, info: KernelInfo, address: PhysicalAddress)
    requires
        layout_is_aligned(map, info),
        layout_fits(map, info),
        is_page_aligned(address),
        map.first_addr <= address < map.last_addr,
    ensures
        planned_translation(map, info, address) == Some(address),
{
    lemma_plan_match(map, info, address);
    let mapping = Mapping {
        virtual_address: address,
        physical_address: address,
        flags: flags_for(address),
    };
    assert(plan_match(map, info, address) == Some(mapping));
    lemma_mapping_translates(mapping);
}

/// The kernel's code stays in one piece and in order in the upper half: the
/// address space maps the page `i` pages above the kernel offset plus the
/// code's physical address to the frame `i` frames above that address.
pub proof fn lemma_kernel_code_contiguous(map: MemoryMap, info: KernelInfo, i: int)
    requires
        layout_is_aligned(map, info),
        layout_fits(map, info),
        0 <= i < info.kernel_code_page_count,
    ensures
        planned_translation(
            map,
            info,
            (KERNEL_MAPPING_OFFSET + info.kernel_code_address + i * PAGE_SIZE) as u64,
        ) == Some((info.kernel_code_address + i * PAGE_SIZE) as u64),
{
    let address = (KERNEL_MAPPING_OFFSET + info.kernel_code_address + i * PAGE_SIZE) as u64;
    let frame = (info.kernel_code_address + i * PAGE_SIZE) as u64;
    lemma_plan_match(map, info, address);
    let mapping = Mapping {
        virtual_address: address,
        physical_address: frame,
        flags: flags_for(frame),
    };
    assert(plan_match(map, info, address) == Some(mapping));
    lemma_mapping_translates(mapping);
}

/// The boot information is mapped in the page behind the kernel's code.
pub proof fn lemma_boot_info_mapped(map: MemoryMap, info: KernelInfo)
    requires
        layout_is_aligned(map, info),
        layout_fits(map, info),
    ensures
        planned_translation(map, info, boot_info_virtual_address(info) as u64) == Some(
            info.boot_info_address,
        ),
{
    let address = boot_info_virtual_address(info) as u64;
    lemma_plan_match(map, info, address);
    let mapping = Mapping {
        virtual_address: address,
        physical_address: info.boot_info_address,
        flags: flags_for(info.boot_info_address),
    };
    assert(plan_match(map, info, address) == Some(mapping));
    lemma_mapping_translates(mapping);
}

/// The kernel's stack is mapped in order from the stack offset on.
pub proof fn lemma_stack_mapped(map: MemoryMap, info: KernelInfo, i: int)
    requires
        layout_is_aligned(map, info),
        layout_fits(map, info),
        0 <= i < info.kernel_stack_page_count,
    ensures
        planned_translation(map, info, (KERNEL_STACK_MAPPING_OFFSET + i * PAGE_SIZE) as u64)
            == Some((info.kernel_stack_address + i * PAGE_SIZE) as u64),
{
    let address = (KERNEL_STACK_MAPPING_OFFSET + i * PAGE_SIZE) as u64;
    let frame = (info.kernel_stack_address + i * PAGE_SIZE) as u64;
    lemma_plan_match(map, info, address);
    let mapping = Mapping {
        virtual_address: address,
        physical_address: frame,
        flags: flags_for(frame),
    };
    assert(plan_match(map, info, address) == Some(mapping));
    lemma_mapping_translates(mapping);
}

/// The framebuffer is mapped at its own addresses.
pub proof fn lemma_framebuffer_mapped(map: MemoryMap, info: KernelInfo, i: int)
    requires
        layout_is_aligned(map, info),
        layout_fits(map, info),
        0 <= i < info.framebuffer_page_count,
    ensures
        planned_translation(map, info, (info.framebuffer_address + i * PAGE_SIZE) as u64)
            == Some((info.framebuffer_address + i * PAGE_SIZE) as u64),
{
    let address = (info.framebuffer_address + i * PAGE_SIZE) as u64;
    lemma_plan_match(map, info, address);
    let mapping = Mapping {
        virtual_address: address,
        physical_address: address,
        flags: flags_for(address),
    };
    assert(plan_match(map, info, address) == Some(mapping));
    lemma_mapping_translates(mapping);
}

/// No mapping of a plan makes the zero page writable.
pub proof fn lemma_zero_page_read_only(plan: Seq<Mapping>, address: VirtualAddress)
    requires
        forall|i: int|
            0 <= i < plan.len() ==> (#[trigger] plan[i]).flags == flags_for(
                plan[i].physical_address,
            ) && is_page_aligned(plan[i].physical_address),
    ensures
        match overlay(plan, None, address) {
            Some(entry) => entry_address(entry) < PAGE_SIZE ==> !entry_flags(entry).writable,
            None => true,
        },
    decreases plan.len(),
{
    if plan.len() > 0 {
        if same_page(plan.last().virtual_address, address) {
            lemma_entry_round_trip(plan.last().physical_address, plan.last().flags);
        } else {
            lemma_zero_page_read_only(plan.drop_last(), address);
        }
    }
}

/// The set that holds only the path of the root table.
pub open spec fn root_path() -> Set<Seq<int>> {
    set![Seq::<int>::empty()]
}

proof fn lemma_needed_grows(done: Seq<Mapping>, rest: Seq<Mapping>)
    ensures
        root_path().union(paths_of(done + rest)).finite(),
        root_path().union(paths_of(done)).len() <= root_path().union(
            paths_of(done + rest),
        ).len(),
{
    lemma_paths_of_concat(done, rest);
    lemma_paths_of_finite(done + rest);
    vstd::set_lib::lemma_len_subset(
        root_path().union(paths_of(done)),
        root_path().union(paths_of(done + rest)),
    );
}

/// Enters one more run of mappings into tables that hold the mappings of
/// `done`.
fn enter(
    manager: &mut PageTableManager<BitMapAllocator>,
    virtual_start: VirtualAddress,
    physical_start: PhysicalAddress,
    pages: u64,
    Ghost(done): Ghost<Seq<Mapping>>,
    Ghost(all): Ghost<Set<PhysicalAddress>>,
) -> (result: Result<(), MappingError>)
    requires
        old(manager).inv(),
        all.finite(),
        old(manager).frame_source().available().subset_of(all),
        old(manager).memory().dom() == all.difference(old(manager).frame_source().available()),
        is_page_aligned(virtual_start),
        is_page_aligned(physical_start),
        virtual_start + pages * PAGE_SIZE <= u64::MAX + 1,
        physical_start + pages * PAGE_SIZE <= u64::MAX + 1,
        old(manager).table_paths() == root_path().union(paths_of(done)),
        old(manager).frame_source().available().len() + old(manager).table_paths().len()
            == all.len(),
        forall|address: VirtualAddress|
            old(manager).mapped_entry(address) == overlay(done, None, address),
    ensures
        final(manager).inv(),
        final(manager).root_table() == old(manager).root_table(),
        final(manager).frame_source().available().subset_of(all),
        final(manager).memory().dom() == all.difference(
            final(manager).frame_source().available(),
        ),
        result is Ok <==> root_path().union(
            paths_of(done + run(virtual_start, physical_start, pages as int)),
        ).len() <= all.len(),
        result is Ok ==> {
            let entered = done + run(virtual_start, physical_start, pages as int);
            &&& final(manager).table_paths() == root_path().union(paths_of(entered))
            &&& final(manager).frame_source().available().len() + final(manager).table_paths().len()
                == all.len()
            &&& forall|address: VirtualAddress|
                final(manager).mapped_entry(address) == overlay(entered, None, address)
        },
{
    let ghost more = run(virtual_start, physical_start, pages as int);
    proof {
        lemma_paths_of_concat(done, more);
        assert(root_path().union(paths_of(done)).union(paths_of(more)) =~= root_path().union(
            paths_of(done + more),
        ));
        old(manager).lemma_missing_tables(virtual_start);
        assert forall|address: VirtualAddress|
            overlay(done + more, None, address) == overlay(
                more,
                overlay(done, None, address),
                address,
            ) by {
            lemma_overlay_concat(done, more, None, address);
        }
    }
    let result = map_pages(manager, virtual_start, physical_start, pages);
    proof {
        assert(manager.memory().dom() =~= all.difference(manager.frame_source().available()));
    }
    result
}

/// What the tables of an address space for `map` and `info` translate: every
/// page of physical memory and of the framebuffer to the frame at its own
/// address, the pages from the kernel offset plus the code's address on to
/// the frames of the code in their order, the page behind them to the boot
/// information, and the pages from the stack offset on to the frames of the
/// stack in their order; and no mapping makes the zero page writable.
pub open spec fn maps_the_layout(
    tables: PageTableManager<BitMapAllocator>,
    map: MemoryMap,
    info: KernelInfo,
) -> bool {
    &&& forall|address: VirtualAddress|
        #![trigger tables.translation(address)]
        is_page_aligned(address) && map.first_addr <= address && address < map.last_addr
            ==> tables.translation(address) == Some(address)
    &&& forall|i: int|
        0 <= i < info.kernel_code_page_count ==> tables.translation(
            (KERNEL_MAPPING_OFFSET + info.kernel_code_address + #[trigger] (i * PAGE_SIZE)) as u64,
        ) == Some((info.kernel_code_address + i * PAGE_SIZE) as u64)
    &&& tables.translation(boot_info_virtual_address(info) as u64) == Some(info.boot_info_address)
    &&& forall|i: int|
        0 <= i < info.kernel_stack_page_count ==> tables.translation(
            (KERNEL_STACK_MAPPING_OFFSET + #[trigger] (i * PAGE_SIZE)) as u64,
        ) == Some((info.kernel_stack_address + i * PAGE_SIZE) as u64)
    &&& forall|i: int|
        0 <= i < info.framebuffer_page_count ==> tables.translation(
            (info.framebuffer_address + #[trigger] (i * PAGE_SIZE)) as u64,
        ) == Some((info.framebuffer_address + i * PAGE_SIZE) as u64)
    &&& forall|address: VirtualAddress|
        match #[trigger] tables.mapped_entry(address) {
            Some(entry) => entry_address(entry) < PAGE_SIZE ==> !entry_flags(entry).writable,
            None => true,
        }
}

/// Tables that hold the mappings of the plan translate the layout.
pub proof fn lemma_plan_maps_the_layout(
    tables: PageTableManager<BitMapAllocator>,
    map: MemoryMap,
    info: KernelInfo,
)
    requires
        layout_is_aligned(map, info),
        layout_fits(map, info),
        forall|address: VirtualAddress|
            tables.mapped_entry(address) == overlay(plan(map, info), None, address),
    ensures
        maps_the_layout(tables, map, info),
        forall|address: VirtualAddress|
            tables.translation(address) == planned_translation(map, info, address),
{
    assert forall|address: VirtualAddress|
        #![trigger tables.translation(address)]
        is_page_aligned(address) && map.first_addr <= address && address
            < map.last_addr implies tables.translation(address) == Some(address) by {
        lemma_identity_map_complete(map, info, address);
    }
    assert forall|i: int| 0 <= i < info.kernel_code_page_count implies tables.translation(
        (KERNEL_MAPPING_OFFSET + info.kernel_code_address + #[trigger] (i * PAGE_SIZE)) as u64,
    ) == Some((info.kernel_code_address + i * PAGE_SIZE) as u64) by {
        lemma_kernel_code_contiguous(map, info, i);
    }
    lemma_boot_info_mapped(map, info);
    assert forall|i: int| 0 <= i < info.kernel_stack_page_count implies tables.translation(
        (KERNEL_STACK_MAPPING_OFFSET + #[trigger] (i * PAGE_SIZE)) as u64,
    ) == Some((info.kernel_stack_address + i * PAGE_SIZE) as u64) by {
        lemma_stack_mapped(map, info, i);
    }
    assert forall|i: int| 0 <= i < info.framebuffer_page_count implies tables.translation(
        (info.framebuffer_address + #[trigger] (i * PAGE_SIZE)) as u64,
    ) == Some((info.framebuffer_address + i * PAGE_SIZE) as u64) by {
        lemma_framebuffer_mapped(map, info, i);
    }
    assert forall|address: VirtualAddress|
        match #[trigger] tables.mapped_entry(address) {
            Some(entry) => entry_address(entry) < PAGE_SIZE ==> !entry_flags(entry).writable,
            None => true,
        } by {
        lemma_plan_flags(map, info);
        lemma_zero_page_read_only(plan(map, info), address);
    }
}

/// Enters every mapping of the plan into tables that hold only a root.
fn enter_plan(
    manager: &mut PageTableManager<BitMapAllocator>,
    memory_map: &MemoryMap,
    info: KernelInfo,
    Ghost(all): Ghost<Set<PhysicalAddress>>,
) -> (result: Result<(), MappingError>)
    requires
        old(manager).inv(),
        layout_is_aligned(*memory_map, info),
        layout_fits(*memory_map, info),
        all.finite(),
        old(manager).frame_source().available().subset_of(all),
        old(manager).memory().dom() == all.difference(old(manager).frame_source().available()),
        old(manager).table_paths() == root_path(),
        old(manager).frame_source().available().len() == all.len() - 1,
        forall|address: VirtualAddress| old(manager).mapped_entry(address) is None,
    ensures
        final(manager).inv(),
        final(manager).root_table() == old(manager).root_table(),
        final(manager).frame_source().available().subset_of(all),
        final(manager).memory().dom() == all.difference(final(manager).frame_source().available()),
        result is Ok <==> tables_needed(*memory_map, info) <= all.len(),
        result is Ok ==> {
            &&& final(manager).frame_source().available().len() == all.len() - tables_needed(
                *memory_map,
                info,
            )
            &&& forall|address: VirtualAddress|
                final(manager).mapped_entry(address) == overlay(
                    plan(*memory_map, info),
                    None,
                    address,
                )
        },
{
    let ghost identity = identity_plan(*memory_map);
    let ghost code = kernel_code_plan(info);
    let ghost boot_info = boot_info_plan(info);
    let ghost stack = stack_plan(info);
    let ghost framebuffer = framebuffer_plan(info);
    let ghost whole = plan(*memory_map, info);
    let ghost nothing = Seq::<Mapping>::empty();
    proof {
        assert(root_path().union(paths_of(nothing)) =~= root_path());
        assert(nothing + identity =~= identity);
        lemma_needed_grows(identity, code + boot_info + stack + framebuffer);
        assert(identity + (code + boot_info + stack + framebuffer) =~= whole);
    }
    let identity_count = page_count(memory_map.last_addr - memory_map.first_addr);
    enter(
        manager,
        memory_map.first_addr,
        memory_map.first_addr,
        identity_count,
        Ghost(nothing),
        Ghost(all),
    )?;
    proof {
        lemma_needed_grows(identity + code, boot_info + stack + framebuffer);
        assert((identity + code) + (boot_info + stack + framebuffer) =~= whole);
    }
    let code_start: u64 = KERNEL_MAPPING_OFFSET + info.kernel_code_address;
    enter(
        manager,
        code_start,
        info.kernel_code_address,
        info.kernel_code_page_count,
        Ghost(identity),
        Ghost(all),
    )?;
    proof {
        lemma_needed_grows(identity + code + boot_info, stack + framebuffer);
        assert((identity + code + boot_info) + (stack + framebuffer) =~= whole);
    }
    let boot_info_address: u64 = code_start + info.kernel_code_page_count * PAGE_SIZE;
    enter(
        manager,
        boot_info_address,
        info.boot_info_address,
        1,
        Ghost(identity + code),
        Ghost(all),
    )?;
    proof {
        lemma_needed_grows(identity + code + boot_info + stack, framebuffer);
    }
    enter(
        manager,
        KERNEL_STACK_MAPPING_OFFSET,
        info.kernel_stack_address,
        info.kernel_stack_page_count,
        Ghost(identity + code + boot_info),
        Ghost(all),
    )?;
    enter(
        manager,
        info.framebuffer_address,
        info.framebuffer_address,
        info.framebuffer_page_count,
        Ghost(identity + code + boot_info + stack),
        Ghost(all),
    )
}

/// `space` is the address space for `map` and `info`: its root table lies
/// in the lowest available frame, its tables lie in available frames, as
/// many as the plan needs, and they hold the mappings of the plan and no
/// others.
pub open spec fn is_address_space_for(
    space: AddressSpace,
    map: MemoryMap,
    info: KernelInfo,
) -> bool {
    &&& space.tables.inv()
    &&& space.root_table == space.tables.root_table()
    &&& available_frames(map).contains(space.root_table)
    &&& forall|frame: PhysicalAddress|
        available_frames(map).contains(frame) ==> space.root_table <= frame
    &&& space.stack_pointer == KERNEL_STACK_MAPPING_OFFSET + info.kernel_stack_page_count
        * PAGE_SIZE
    &&& space.boot_info_address == boot_info_virtual_address(info)
    &&& space.tables.frame_source().available().subset_of(available_frames(map))
    &&& space.tables.frame_source().available().len() == available_frames(map).len()
        - tables_needed(map, info)
    &&& space.tables.memory().dom() == available_frames(map).difference(
        space.tables.frame_source().available(),
    )
    &&& space.tables.memory().dom().len() == tables_needed(map, info)
    &&& forall|address: VirtualAddress|
        space.tables.mapped_entry(address) == overlay(plan(map, info), None, address)
    &&& maps_the_layout(space.tables, map, info)
}

/// `result` is what building the address space for `map` and `info` gives:
/// the error that [`build_error`] names, or the address space if it names
/// none.
pub open spec fn is_build_result(
    map: MemoryMap,
    info: KernelInfo,
    result: Result<AddressSpace, BuildError>,
) -> bool {
    match result {
        Ok(space) => build_error(map, info) is None && is_address_space_for(space, map, info),
        Err(error) => build_error(map, info) == Some(error),
    }
}

/// The part of physical memory that is mapped at its own addresses.
#[derive(Clone, Copy, Debug, PartialEq, Eq, Structural)]
pub enum IdentityRange {
    /// From the lowest to the highest address of the memory map.
    AllMemory,
    /// From the lowest to the highest address of available memory.
    AvailableMemory,
}

/// The memory map whose bounds are those of `range`.
pub open spec fn within(map: MemoryMap, range: IdentityRange) -> MemoryMap {
    match range {
        IdentityRange::AllMemory => map,
        IdentityRange::AvailableMemory => MemoryMap {
            descriptors: map.descriptors,
            first_addr: map.first_available_addr,
            first_available_addr: map.first_available_addr,
            last_addr: map.last_available_addr,
            last_available_addr: map.last_available_addr,
        },
    }
}

/// Builds the address space for the kernel that `kernel_info` describes on
/// a machine with the memory of `memory_map`: a root table in the lowest
/// available frame, then in turn the mappings of all physical memory at its
/// own addresses, of the kernel's code at the kernel offset, of the boot
/// information in the page behind the code, of the stack at the stack
/// offset, and of the framebuffer at its own addresses. The frames for the
/// tables come from the available regions of `memory_map`.
///
/// Fails exactly where [`build_error`] names a reason, and with that reason.
pub fn set_up_address_space(memory_map: &MemoryMap, kernel_info: KernelInfo) -> (space: Result<
    AddressSpace,
    BuildError,
>)
    ensures
        is_build_result(*memory_map, kernel_info, space),
{
    let mut pmm = match BitMapAllocator::try_new(memory_map) {
        Ok(pmm) => pmm,
        Err(PageFrameAllocatorError::MemoryMapEmpty) => {
            return Err(BuildError::MemoryMapEmpty);
        },
        Err(PageFrameAllocatorError::OutOfMemory) => {
            return Err(BuildError::AllocationFailure);
        },
    };
    let info = kernel_info;
    if !page_aligned(memory_map.first_addr) || !page_aligned(info.kernel_code_address)
        || !page_aligned(info.boot_info_address) || !page_aligned(info.kernel_stack_address)
        || !page_aligned(info.framebuffer_address) {
        return Err(BuildError::AlignmentError);
    }
    let code_end: u128 = region_end(info.kernel_code_address, info.kernel_code_page_count);
    let stack_top: u128 = region_end(KERNEL_STACK_MAPPING_OFFSET, info.kernel_stack_page_count);
    if memory_map.first_addr > memory_map.last_addr || memory_map.last_addr > LOWER_HALF_END
        || region_end(info.framebuffer_address, info.framebuffer_page_count)
        > LOWER_HALF_END as u128 || KERNEL_MAPPING_OFFSET as u128 + code_end + PAGE_SIZE as u128
        > 0x1_0000_0000_0000_0000 || stack_top > KERNEL_MAPPING_OFFSET as u128 || region_end(
        info.kernel_stack_address,
        info.kernel_stack_page_count,
    ) > 0x1_0000_0000_0000_0000 {
        return Err(BuildError::AddressOutOfRange);
    }
    let ghost all = available_frames(*memory_map);
    proof {
        pmm.lemma_free_frames_finite();
    }
    let root = match pmm.request_page() {
        Ok(root) => root,
        Err(_) => {
            return Err(BuildError::AllocationFailure);
        },
    };
    let mut manager = PageTableManager::new(root, pmm);
    proof {
        assert(manager.memory().dom() =~= all.difference(manager.frame_source().available()));
    }
    match enter_plan(&mut manager, memory_map, info, Ghost(all)) {
        Ok(()) => {},
        Err(_) => {
            return Err(BuildError::AllocationFailure);
        },
    }
    let stack_pointer: u64 = KERNEL_STACK_MAPPING_OFFSET + info.kernel_stack_page_count * PAGE_SIZE;
    let boot_info_address: u64 = KERNEL_MAPPING_OFFSET + info.kernel_code_address
        + info.kernel_code_page_count * PAGE_SIZE;
    let space = AddressSpace {
        root_table: root,
        stack_pointer,
        boot_info_address,
        tables: manager,
    };
    proof {
        let left = space.tables.frame_source().available();
        vstd::set_lib::lemma_len_subset(left, all);
        assert(all.difference(left).union(left) =~= all);
        vstd::set_lib::lemma_set_disjoint_lens(all.difference(left), left);
        lemma_plan_maps_the_layout(space.tables, *memory_map, info);
    }
    Ok(space)
}

/// Every mapping of the plan has the flags that [`flags_for`] gives for its
/// frame, and a page-aligned frame.
proof fn lemma_plan_flags(map: MemoryMap, info: KernelInfo)
    requires
        layout_is_aligned(map, info),
        layout_fits(map, info),
    ensures
        forall|i: int|
            0 <= i < plan(map, info).len() ==> (#[trigger] plan(map, info)[i]).flags == flags_for(
                plan(map, info)[i].physical_address,
            ) && is_page_aligned(plan(map, info)[i].physical_address),
{
    let whole = plan(map, info);
    let identity = identity_plan(map);
    let code = kernel_code_plan(info);
    let boot_info = boot_info_plan(info);
    let stack = stack_plan(info);
    let framebuffer = framebuffer_plan(info);
    assert(0 <= identity_pages(map) && map.first_addr + identity_pages(map) * PAGE_SIZE
        <= LOWER_HALF_END);
    assert forall|i: int| 0 <= i < whole.len() implies (#[trigger] whole[i]).flags == flags_for(
        whole[i].physical_address,
    ) && is_page_aligned(whole[i].physical_address) by {
        let a = identity.len();
        let b = a + code.len();
        let c = b + boot_info.len();
        let d = c + stack.len();
        if i < a {
            assert(whole[i] == identity[i]);
        } else if i < b {
            assert(whole[i] == code[i - a]);
        } else if i < c {
            assert(whole[i] == boot_info[i - b]);
        } else if i < d {
            assert(whole[i] == stack[i - c]);
        } else {
            assert(whole[i] == framebuffer[i - d]);
        }
    }
}

/// Builds the address space as [`set_up_address_space`] does, with the part
/// of physical memory given by `range` mapped at its own addresses. The
/// frames for the tables come from that part too.
pub fn set_up_address_space_within(
    memory_map: &MemoryMap,
    kernel_info: KernelInfo,
    range: IdentityRange,
) -> (space: Result<AddressSpace, BuildError>)
    ensures
        is_build_result(within(*memory_map, range), kernel_info, space),
{
    match range {
        IdentityRange::AllMemory => set_up_address_space(memory_map, kernel_info),
        IdentityRange::AvailableMemory => {
            let mut descriptors: Vec<MemoryDescriptor> = Vec::new();
            let mut i: usize = 0;
            while i < memory_map.descriptors.len()
                invariant
                    i <= memory_map.descriptors.len(),
                    descriptors@ == memory_map.descriptors@.take(i as int),
                decreases memory_map.descriptors.len() - i,
            {
                descriptors.push(memory_map.descriptors[i]);
                i += 1;
                assert(descriptors@ =~= memory_map.descriptors@.take(i as int));
            }
            assert(descriptors@ =~= memory_map.descriptors@);
            let narrowed = MemoryMap {
                descriptors,
                first_addr: memory_map.first_available_addr,
                first_available_addr: memory_map.first_available_addr,
                last_addr: memory_map.last_available_addr,
                last_available_addr: memory_map.last_available_addr,
            };
            proof {
                lemma_same_descriptors(narrowed, within(*memory_map, range), kernel_info);
            }
            set_up_address_space(&narrowed, kernel_info)
        },
    }
}

/// What is said of a memory map here depends on its descriptors only by
/// what they hold.
proof fn lemma_same_descriptors(a: MemoryMap, b: MemoryMap, info: KernelInfo)
    requires
        a.descriptors@ == b.descriptors@,
        a.first_addr == b.first_addr,
        a.last_addr == b.last_addr,
    ensures
        available_frames(a) == available_frames(b),
        spanned_frames(a) == spanned_frames(b),
        plan(a, info) == plan(b, info),
        build_error(a, info) == build_error(b, info),
        forall|result: Result<AddressSpace, BuildError>|
            is_build_result(a, info, result) ==> #[trigger] is_build_result(b, info, result),
{
    assert forall|address: PhysicalAddress|
        frame_is_available(a, address) == frame_is_available(
            b,
            address,
        ) by {
        if frame_is_available(a, address) {
            let j = choose|j: int|
                0 <= j < a.descriptors@.len() && descriptor_offers(
                    #[trigger] a.descriptors@[j],
                    address,
                );
            assert(descriptor_offers(b.descriptors@[j], address));
        }
        if frame_is_available(b, address) {
            let j = choose|j: int|
                0 <= j < b.descriptors@.len() && descriptor_offers(
                    #[trigger] b.descriptors@[j],
                    address,
                );
            assert(descriptor_offers(a.descriptors@[j], address));
        }
    }
    assert(available_frames(a) =~= available_frames(b));
    assert(plan(a, info) == plan(b, info));
    assert forall|result: Result<AddressSpace, BuildError>|
        is_build_result(a, info, result) implies #[trigger] is_build_result(b, info, result) by {
        if let Ok(space) = result {
            assert(maps_the_layout(space.tables, b, info));
        }
    }
}

} // verus!
