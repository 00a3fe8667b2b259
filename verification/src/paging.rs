//! The layout of four-level page tables: how a virtual address selects an
//! entry at each level, what an entry holds, and what a walk of the tables
//! in memory finds for an address.
use vstd::prelude::*;

use crate::memory::{is_page_aligned, PhysicalAddress, VirtualAddress};

pub mod manager;
pub mod mapping;

verus! {

/// Number of entries in a page table.
pub const ENTRY_COUNT: usize = 512;

/// Number of table levels between the root and a page.
pub const LEVELS: usize = 4;

/// Added to a physical address to get the virtual address at which the
/// kernel's code and the boot information are mapped.
pub const KERNEL_MAPPING_OFFSET: u64 = 0xFFFF_FFFF_8000_0000;

/// Virtual address of the lowest page of the kernel's stack.
pub const KERNEL_STACK_MAPPING_OFFSET: u64 = 0xFFFF_FF80_0000_0000;

/// The bit of an entry that says whether it is in use.
pub const ENTRY_PRESENT: u64 = 1;

/// The bit of an entry that allows writes through it.
pub const ENTRY_WRITABLE: u64 = 2;

/// The bit of an entry that allows access from user mode.
pub const ENTRY_USER: u64 = 4;

/// The bit of an entry that turns caching off for what it maps.
pub const ENTRY_CACHE_DISABLED: u64 = 16;

/// The bits of an entry that hold the address of a frame.
pub const ENTRY_ADDRESS_MASK: u64 = 0xFFFF_FFFF_FFFF_F000;

/// A page table: 512 entries, which take up one page.
pub struct PageTable {
    entries: Vec<u64>,
}

impl View for PageTable {
    type V = Seq<u64>;

    closed spec fn view(&self) -> Seq<u64> {
        self.entries@
    }
}

impl PageTable {
    #[verifier::type_invariant]
    spec fn is_complete(&self) -> bool {
        self.entries@.len() == ENTRY_COUNT
    }

    /// A table whose entries are all zero.
    pub fn new() -> (table: PageTable)
        ensures
            table@ == Seq::new(512, |i: int| 0u64),
    {
        let entries: Vec<u64> = vec![0u64; ENTRY_COUNT];
        assert(entries@ =~= Seq::new(512, |i: int| 0u64));
        PageTable { entries }
    }

    /// The entry at `index`.
    pub fn get(&self, index: usize) -> (entry: u64)
        requires
            index < ENTRY_COUNT,
        ensures
            self@.len() == ENTRY_COUNT,
            entry == self@[index as int],
    {
        proof {
            use_type_invariant(self);
        }
        self.entries[index]
    }

    /// The entry that `address` selects where the table stands at `level`.
    pub fn entry_for(&self, address: VirtualAddress, level: usize) -> (entry: u64)
        requires
            level < LEVELS,
        ensures
            entry == self@[table_index(address, level as int)],
    {
        self.get(index_of(address, level))
    }

    /// Puts `entry` at `index`.
    pub fn set(&mut self, index: usize, entry: u64)
        requires
            index < ENTRY_COUNT,
        ensures
            final(self)@ == old(self)@.update(index as int, entry),
            final(self)@.len() == ENTRY_COUNT,
    {
        proof {
            use_type_invariant(&*self);
        }
        self.entries[index] = entry;
    }

    /// All entries in their order.
    pub fn entries(&self) -> (entries: &Vec<u64>)
        ensures
            entries@ == self@,
            entries@.len() == ENTRY_COUNT,
    {
        proof {
            use_type_invariant(self);
        }
        &self.entries
    }
}

/// What an entry holds beside an address.
#[derive(Clone, Copy, Debug, PartialEq, Eq, Structural)]
pub struct PageEntryFlags {
    pub present: bool,
    pub writable: bool,
    pub user: bool,
    pub cacheable: bool,
}

impl PageEntryFlags {
    /// The flags as the low bits of an entry.
    pub open spec fn spec_bits(self) -> u64 {
        ((if self.present {
            ENTRY_PRESENT
        } else {
            0
        }) + (if self.writable {
            ENTRY_WRITABLE
        } else {
            0
        }) + (if self.user {
            ENTRY_USER
        } else {
            0
        }) + (if self.cacheable {
            0
        } else {
            ENTRY_CACHE_DISABLED
        })) as u64
    }

    /// The flags as the low bits of an entry.
    #[verifier::when_used_as_spec(spec_bits)]
    pub fn bits(self) -> (bits: u64)
        ensures
            bits == self.spec_bits(),
    {
        let present: u64 = if self.present {
            ENTRY_PRESENT
        } else {
            0
        };
        let writable: u64 = if self.writable {
            ENTRY_WRITABLE
        } else {
            0
        };
        let user: u64 = if self.user {
            ENTRY_USER
        } else {
            0
        };
        let cache: u64 = if self.cacheable {
            0
        } else {
            ENTRY_CACHE_DISABLED
        };
        present + writable + user + cache
    }

    /// Present and writable, for the supervisor only, cached.
    pub open spec fn supervisor() -> PageEntryFlags {
        PageEntryFlags { present: true, writable: true, user: false, cacheable: true }
    }

    /// Present, for the supervisor only, cached, and not writable.
    pub open spec fn spec_read_only() -> PageEntryFlags {
        PageEntryFlags { present: true, writable: false, user: false, cacheable: true }
    }

    /// Present, for the supervisor only, cached, and not writable.
    #[verifier::when_used_as_spec(spec_read_only)]
    pub fn read_only() -> (flags: PageEntryFlags)
        ensures
            flags == Self::spec_read_only(),
    {
        PageEntryFlags { present: true, writable: false, user: false, cacheable: true }
    }
}

impl Default for PageEntryFlags {
    fn default() -> (flags: PageEntryFlags)
        ensures
            flags == PageEntryFlags::supervisor(),
    {
        PageEntryFlags { present: true, writable: true, user: false, cacheable: true }
    }
}

/// The index that `address` selects in the table at `level`. Level 0 is the
/// root, level 3 the table whose entries map pages.
pub open spec fn table_index(address: VirtualAddress, level: int) -> int {
    if level == 0 {
        ((address >> 39) & 0x1ff) as int
    } else if level == 1 {
        ((address >> 30) & 0x1ff) as int
    } else if level == 2 {
        ((address >> 21) & 0x1ff) as int
    } else {
        ((address >> 12) & 0x1ff) as int
    }
}

/// Two addresses select the same entry at every level.
pub open spec fn same_page(a: VirtualAddress, b: VirtualAddress) -> bool {
    forall|level: int| 0 <= level < 4 ==> table_index(a, level) == table_index(b, level)
}

/// The 36 bits of an address that select its entries.
pub open spec fn page_number(address: VirtualAddress) -> u64 {
    (address >> 12) & 0xF_FFFF_FFFF
}

/// The entry is in use.
pub open spec fn entry_is_present(entry: u64) -> bool {
    entry & ENTRY_PRESENT == ENTRY_PRESENT
}

/// The address of the frame or table that the entry refers to.
pub open spec fn entry_address(entry: u64) -> PhysicalAddress {
    entry & ENTRY_ADDRESS_MASK
}

/// The flags that the entry holds.
pub open spec fn entry_flags(entry: u64) -> PageEntryFlags {
    PageEntryFlags {
        present: entry & ENTRY_PRESENT == ENTRY_PRESENT,
        writable: entry & ENTRY_WRITABLE == ENTRY_WRITABLE,
        user: entry & ENTRY_USER == ENTRY_USER,
        cacheable: entry & ENTRY_CACHE_DISABLED == 0,
    }
}

/// The entry that maps a page to the frame at `address` with `flags`.
pub open spec fn entry_value(address: PhysicalAddress, flags: PageEntryFlags) -> u64 {
    address | flags.bits()
}

/// The table that the entry at `index` of `table` refers to, where that
/// entry is present. `memory` holds the entries of each table by the address
/// of its frame.
pub open spec fn next_table(
    memory: Map<PhysicalAddress, Seq<u64>>,
    table: PhysicalAddress,
    index: int,
) -> Option<PhysicalAddress> {
    if memory.dom().contains(table) && entry_is_present(memory[table][index]) {
        Some(entry_address(memory[table][index]))
    } else {
        None
    }
}

/// The table of the second level that a walk from `root` reaches for
/// `address`.
pub open spec fn second_table(
    memory: Map<PhysicalAddress, Seq<u64>>,
    root: PhysicalAddress,
    address: VirtualAddress,
) -> Option<PhysicalAddress> {
    next_table(memory, root, table_index(address, 0))
}

/// The table of the third level that a walk from `root` reaches for
/// `address`.
pub open spec fn third_table(
    memory: Map<PhysicalAddress, Seq<u64>>,
    root: PhysicalAddress,
    address: VirtualAddress,
) -> Option<PhysicalAddress> {
    match second_table(memory, root, address) {
        Some(table) => next_table(memory, table, table_index(address, 1)),
        None => None,
    }
}

/// The table of the last level that a walk from `root` reaches for
/// `address`.
pub open spec fn last_table(
    memory: Map<PhysicalAddress, Seq<u64>>,
    root: PhysicalAddress,
    address: VirtualAddress,
) -> Option<PhysicalAddress> {
    match third_table(memory, root, address) {
        Some(table) => next_table(memory, table, table_index(address, 2)),
        None => None,
    }
}

/// The entry of the last level that a walk from `root` ends at for
/// `address`, whatever it holds; `None` where a table on the way is missing.
pub open spec fn walk(
    memory: Map<PhysicalAddress, Seq<u64>>,
    root: PhysicalAddress,
    address: VirtualAddress,
) -> Option<u64> {
    match last_table(memory, root, address) {
        Some(table) => if memory.dom().contains(table) {
            Some(memory[table][table_index(address, 3)])
        } else {
            None
        },
        None => None,
    }
}

/// The indices that `address` selects in the first `length` levels.
pub open spec fn index_path(address: VirtualAddress, length: int) -> Seq<int> {
    Seq::new(length as nat, |level: int| table_index(address, level))
}

/// The index paths of the three tables below the root on the way to the
/// entry for `address`.
pub open spec fn table_paths_for(address: VirtualAddress) -> Set<Seq<int>> {
    set![index_path(address, 1), index_path(address, 2), index_path(address, 3)]
}

/// Computes [`table_index`].
pub fn index_of(address: VirtualAddress, level: usize) -> (index: usize)
    requires
        level < LEVELS,
    ensures
        index == table_index(address, level as int),
        index < ENTRY_COUNT,
{
    let slice: u64 = if level == 0 {
        (address >> 39) & 0x1ff
    } else if level == 1 {
        (address >> 30) & 0x1ff
    } else if level == 2 {
        (address >> 21) & 0x1ff
    } else {
        (address >> 12) & 0x1ff
    };
    assert(slice < 512) by {
        lemma_index_bound(address);
        assert(slice == table_index(address, level as int));
    }
    slice as usize
}

/// Computes [`entry_value`].
pub fn make_entry(address: PhysicalAddress, flags: PageEntryFlags) -> (entry: u64)
    ensures
        entry == entry_value(address, flags),
{
    address | flags.bits()
}

/// Takes an entry apart into the address of its frame and its flags.
pub fn decode_entry(entry: u64) -> (parts: (PhysicalAddress, PageEntryFlags))
    ensures
        parts.0 == entry_address(entry),
        parts.1 == entry_flags(entry),
{
    (
        entry & ENTRY_ADDRESS_MASK,
        PageEntryFlags {
            present: entry & ENTRY_PRESENT == ENTRY_PRESENT,
            writable: entry & ENTRY_WRITABLE == ENTRY_WRITABLE,
            user: entry & ENTRY_USER == ENTRY_USER,
            cacheable: entry & ENTRY_CACHE_DISABLED == 0,
        },
    )
}

/// Every index is below the number of entries of a table.
pub proof fn lemma_index_bound(address: VirtualAddress)
    ensures
        forall|level: int| 0 <= #[trigger] table_index(address, level) < 512,
{
    assert((address >> 39) & 0x1ff < 512) by (bit_vector);
    assert((address >> 30) & 0x1ff < 512) by (bit_vector);
    assert((address >> 21) & 0x1ff < 512) by (bit_vector);
    assert((address >> 12) & 0x1ff < 512) by (bit_vector);
}

/// Two addresses select the same entries exactly if they agree in the 36
/// bits above the offset within a page.
pub proof fn lemma_same_page(a: VirtualAddress, b: VirtualAddress)
    ensures
        same_page(a, b) <==> page_number(a) == page_number(b),
{
    assert(((a >> 39) & 0x1ff == (b >> 39) & 0x1ff && (a >> 30) & 0x1ff == (b >> 30) & 0x1ff && (a
        >> 21) & 0x1ff == (b >> 21) & 0x1ff && (a >> 12) & 0x1ff == (b >> 12) & 0x1ff) <==> (a
        >> 12) & 0xF_FFFF_FFFF == (b >> 12) & 0xF_FFFF_FFFF) by (bit_vector);
    if page_number(a) == page_number(b) {
        assert forall|level: int| 0 <= level < 4 implies table_index(a, level) == table_index(
            b,
            level,
        ) by {}
    }
    if same_page(a, b) {
        assert(table_index(a, 0) == table_index(b, 0));
        assert(table_index(a, 1) == table_index(b, 1));
        assert(table_index(a, 2) == table_index(b, 2));
        assert(table_index(a, 3) == table_index(b, 3));
    }
}

/// Sharing a page does not depend on the order of the two addresses.
pub proof fn lemma_same_page_symmetric(a: VirtualAddress, b: VirtualAddress)
    ensures
        same_page(a, b) == same_page(b, a),
{
    lemma_same_page(a, b);
    lemma_same_page(b, a);
}

/// An entry made of a page-aligned address and flags gives both back.
pub proof fn lemma_entry_round_trip(address: PhysicalAddress, flags: PageEntryFlags)
    requires
        is_page_aligned(address),
    ensures
        entry_address(entry_value(address, flags)) == address,
        entry_flags(entry_value(address, flags)) == flags,
        entry_is_present(entry_value(address, flags)) == flags.present,
{
    let bits = flags.bits();
    assert(address & 0xfff == 0) by (bit_vector)
        requires
            address % 4096 == 0,
    ;
    assert(bits < 32 && (bits & 1 == 1 <==> flags.present) && (bits & 2 == 2 <==> flags.writable)
        && (bits & 4 == 4 <==> flags.user) && (bits & 16 == 0 <==> flags.cacheable)) by {
        lemma_flag_bits(flags);
    }
    assert((address | bits) & 0xFFFF_FFFF_FFFF_F000 == address && ((address | bits) & 1 == bits & 1)
        && ((address | bits) & 2 == bits & 2) && ((address | bits) & 4 == bits & 4) && ((address
        | bits) & 16 == bits & 16)) by (bit_vector)
        requires
            address & 0xfff == 0,
            bits < 32,
    ;
}

/// The bits of flags, one by one.
pub proof fn lemma_flag_bits(flags: PageEntryFlags)
    ensures
        flags.bits() < 32,
        flags.bits() & 1 == 1 <==> flags.present,
        flags.bits() & 2 == 2 <==> flags.writable,
        flags.bits() & 4 == 4 <==> flags.user,
        flags.bits() & 16 == 0 <==> flags.cacheable,
{
    let p: u64 = if flags.present { 1 } else { 0 };
    let w: u64 = if flags.writable { 2 } else { 0 };
    let u: u64 = if flags.user { 4 } else { 0 };
    let c: u64 = if flags.cacheable { 0 } else { 16 };
    let bits: u64 = (p + w + u + c) as u64;
    assert(bits == flags.bits());
    assert((bits & 1 == 1 <==> p == 1) && (bits & 2 == 2 <==> w == 2) && (bits & 4 == 4 <==> u == 4)
        && (bits & 16 == 0 <==> c == 0)) by (bit_vector)
        requires
            bits == p + w + u + c,
            p == 0 || p == 1,
            w == 0 || w == 2,
            u == 0 || u == 4,
            c == 0 || c == 16,
    ;
}

} // verus!
