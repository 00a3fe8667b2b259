//! Lists of mappings and what tables hold once every mapping of a list has
//! been entered in turn.
use vstd::prelude::*;

use crate::memory::{is_page_aligned, PhysicalAddress, VirtualAddress, PAGE_SIZE};
use crate::paging::{
    entry_is_present, entry_value, lemma_same_page, same_page, table_paths_for, PageEntryFlags,
};

verus! {

/// One page of virtual memory and the frame and flags that it is to get.
#[derive(Clone, Copy, Debug, PartialEq, Eq, Structural)]
pub struct Mapping {
    pub virtual_address: VirtualAddress,
    pub physical_address: PhysicalAddress,
    pub flags: PageEntryFlags,
}

impl Mapping {
    /// The entry that stands for this mapping in a table of the last level.
    pub open spec fn entry(self) -> u64 {
        entry_value(self.physical_address, self.flags)
    }
}

/// The flags with which a frame is mapped: present and writable, but never
/// writable where the frame is the zero page.
pub open spec fn flags_for(physical_address: PhysicalAddress) -> PageEntryFlags {
    if physical_address < PAGE_SIZE {
        PageEntryFlags::spec_read_only()
    } else {
        PageEntryFlags::supervisor()
    }
}

/// `pages` pages in a row from `virtual_start` on, mapped to the frames in a
/// row from `physical_start` on in the same order.
pub open spec fn run(
    virtual_start: VirtualAddress,
    physical_start: PhysicalAddress,
    pages: int,
) -> Seq<Mapping> {
    Seq::new(
        pages as nat,
        |i: int|
            Mapping {
                virtual_address: (virtual_start + i * PAGE_SIZE) as u64,
                physical_address: (physical_start + i * PAGE_SIZE) as u64,
                flags: flags_for((physical_start + i * PAGE_SIZE) as u64),
            },
    )
}

/// The last mapping of `plan` for the page of `address`.
pub open spec fn last_match(plan: Seq<Mapping>, address: VirtualAddress) -> Option<Mapping>
    decreases plan.len(),
{
    if plan.len() == 0 {
        None
    } else if same_page(plan.last().virtual_address, address) {
        Some(plan.last())
    } else {
        last_match(plan.drop_last(), address)
    }
}

/// `entry` where it is present.
pub open spec fn present(entry: u64) -> Option<u64> {
    if entry_is_present(entry) {
        Some(entry)
    } else {
        None
    }
}

/// The entry that maps `address` once the mappings of `plan` have been
/// entered in turn into tables in which `before` mapped it.
pub open spec fn overlay(
    plan: Seq<Mapping>,
    before: Option<u64>,
    address: VirtualAddress,
) -> Option<u64> {
    match last_match(plan, address) {
        Some(mapping) => present(mapping.entry()),
        None => before,
    }
}

/// The index paths of the tables below the root that the mappings of `plan`
/// need.
pub open spec fn paths_of(plan: Seq<Mapping>) -> Set<Seq<int>>
    decreases plan.len(),
{
    if plan.len() == 0 {
        Set::empty()
    } else {
        paths_of(plan.drop_last()).union(table_paths_for(plan.last().virtual_address))
    }
}

/// An address in the lower or in the upper half of the address space, where
/// the bits above bit 47 repeat it.
pub open spec fn is_canonical(address: VirtualAddress) -> bool {
    address < 0x8000_0000_0000 || address >= 0xFFFF_8000_0000_0000
}

/// Two page-aligned canonical addresses lie in the same page only if they
/// are equal.
pub proof fn lemma_canonical_pages(a: VirtualAddress, b: VirtualAddress)
    requires
        is_canonical(a),
        is_canonical(b),
        is_page_aligned(a),
        is_page_aligned(b),
    ensures
        same_page(a, b) <==> a == b,
{
    lemma_same_page(a, b);
    assert((a < 0x8000_0000_0000 || a >= 0xFFFF_8000_0000_0000) && (b < 0x8000_0000_0000 || b
        >= 0xFFFF_8000_0000_0000) && a % 4096 == 0 && b % 4096 == 0 ==> (((a >> 12)
        & 0xF_FFFF_FFFF == (b >> 12) & 0xF_FFFF_FFFF) <==> a == b)) by (bit_vector);
}

/// One more mapping adds the paths of its tables.
pub proof fn lemma_paths_of_push(plan: Seq<Mapping>, mapping: Mapping)
    ensures
        paths_of(plan.push(mapping)) == paths_of(plan).union(
            table_paths_for(mapping.virtual_address),
        ),
{
    assert(plan.push(mapping).drop_last() =~= plan);
}

/// The mappings of a plan need finitely many tables.
pub proof fn lemma_paths_of_finite(plan: Seq<Mapping>)
    ensures
        paths_of(plan).finite(),
    decreases plan.len(),
{
    if plan.len() > 0 {
        lemma_paths_of_finite(plan.drop_last());
    }
}

/// Two plans in a row need the tables of both.
pub proof fn lemma_paths_of_concat(a: Seq<Mapping>, b: Seq<Mapping>)
    ensures
        paths_of(a + b) == paths_of(a).union(paths_of(b)),
    decreases b.len(),
{
    if b.len() == 0 {
        assert(a + b =~= a);
        assert(paths_of(a).union(paths_of(b)) =~= paths_of(a));
    } else {
        assert((a + b).drop_last() =~= a + b.drop_last());
        assert((a + b).last() == b.last());
        lemma_paths_of_concat(a, b.drop_last());
        assert(paths_of(a + b) =~= paths_of(a).union(paths_of(b)));
    }
}

/// A mapping at the end of a plan is the last one for its page and leaves
/// the other pages as they were.
pub proof fn lemma_last_match_push(plan: Seq<Mapping>, mapping: Mapping, address: VirtualAddress)
    ensures
        last_match(plan.push(mapping), address) == if same_page(
            mapping.virtual_address,
            address,
        ) {
            Some(mapping)
        } else {
            last_match(plan, address)
        },
{
    assert(plan.push(mapping).drop_last() =~= plan);
}

/// In two plans in a row the last mapping for a page is that of the second
/// plan, or else that of the first.
pub proof fn lemma_last_match_concat(a: Seq<Mapping>, b: Seq<Mapping>, address: VirtualAddress)
    ensures
        last_match(a + b, address) == match last_match(b, address) {
            Some(mapping) => Some(mapping),
            None => last_match(a, address),
        },
    decreases b.len(),
{
    if b.len() == 0 {
        assert(a + b =~= a);
    } else {
        assert((a + b).drop_last() =~= a + b.drop_last());
        assert((a + b).last() == b.last());
        lemma_last_match_concat(a, b.drop_last(), address);
    }
}

/// Entering `b` after `a` gives what entering `b` gives in the tables that
/// entering `a` left.
pub proof fn lemma_overlay_concat(
    a: Seq<Mapping>,
    b: Seq<Mapping>,
    before: Option<u64>,
    address: VirtualAddress,
)
    ensures
        overlay(a + b, before, address) == overlay(b, overlay(a, before, address), address),
{
    lemma_last_match_concat(a, b, address);
}

/// The mapping of a run for the page that starts at `address`, if the run
/// has one.
pub open spec fn run_match(
    virtual_start: VirtualAddress,
    physical_start: PhysicalAddress,
    pages: int,
    address: VirtualAddress,
) -> Option<Mapping> {
    if virtual_start <= address && address < virtual_start + pages * PAGE_SIZE {
        Some(
            Mapping {
                virtual_address: address,
                physical_address: (physical_start + (address - virtual_start)) as u64,
                flags: flags_for((physical_start + (address - virtual_start)) as u64),
            },
        )
    } else {
        None
    }
}

/// In a run of canonical pages, the last mapping for a page-aligned
/// canonical address is the one at its place in the run, if it has one.
pub proof fn lemma_run_match(
    virtual_start: VirtualAddress,
    physical_start: PhysicalAddress,
    pages: int,
    address: VirtualAddress,
)
    requires
        0 <= pages,
        is_page_aligned(virtual_start),
        is_page_aligned(address),
        is_canonical(address),
        virtual_start + pages * PAGE_SIZE <= u64::MAX + 1,
        forall|i: int|
            0 <= i < pages ==> is_canonical((virtual_start + #[trigger] (i * PAGE_SIZE)) as u64),
    ensures
        last_match(run(virtual_start, physical_start, pages), address) == run_match(
            virtual_start,
            physical_start,
            pages,
            address,
        ),
    decreases pages,
{
    let whole = run(virtual_start, physical_start, pages);
    if pages > 0 {
        let rest = run(virtual_start, physical_start, pages - 1);
        assert(whole.drop_last() =~= rest);
        let last = whole.last();
        let k = pages - 1;
        assert(last.virtual_address == virtual_start + k * PAGE_SIZE);
        assert(is_canonical((virtual_start + k * PAGE_SIZE) as u64));
        lemma_canonical_pages(last.virtual_address, address);
        assert forall|i: int| 0 <= i < pages - 1 implies is_canonical(
            (virtual_start + #[trigger] (i * PAGE_SIZE)) as u64,
        ) by {}
        lemma_run_match(virtual_start, physical_start, pages - 1, address);
        if last.virtual_address != address && virtual_start <= address && address < virtual_start
            + pages * PAGE_SIZE {
            assert(address < virtual_start + k * PAGE_SIZE);
        }
    }
}

} // verus!
