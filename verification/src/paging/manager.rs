//! Builds and changes a tree of page tables, taking frames for new tables
//! from a frame source.
use std::collections::HashMap;
use vstd::prelude::*;

use crate::memory::{is_page_aligned, page_aligned, PhysicalAddress, VirtualAddress};
use crate::paging::{
    entry_address, entry_flags, entry_is_present, entry_value, index_of, index_path, last_table,
    lemma_entry_round_trip, lemma_index_bound, make_entry, next_table, same_page, second_table,
    table_index, table_paths_for, third_table, walk, PageEntryFlags, PageTable,
    ENTRY_ADDRESS_MASK, ENTRY_COUNT, ENTRY_PRESENT,
};
use crate::pmm::PageFrameAllocatorError;

verus! {

/// A source of physical frames. Each frame is handed out once.
pub trait PageFrameAllocator: Sized {
    /// What holds of the source between calls.
    spec fn inv(&self) -> bool;

    /// The frames that the source can still hand out.
    spec fn available(&self) -> Set<PhysicalAddress>;

    /// The source holds finitely many frames.
    proof fn lemma_available_finite(&self)
        requires
            self.inv(),
        ensures
            self.available().finite(),
    ;

    /// Hands out a frame that was available and is no longer, or fails when
    /// none is left.
    fn request_page(&mut self) -> (frame: Result<PhysicalAddress, PageFrameAllocatorError>)
        requires
            old(self).inv(),
        ensures
            final(self).inv(),
            match frame {
                Ok(address) => {
                    &&& old(self).available().contains(address)
                    &&& is_page_aligned(address)
                    &&& final(self).available() == old(self).available().remove(address)
                },
                Err(_) => {
                    &&& old(self).available().is_empty()
                    &&& final(self).available() == old(self).available()
                },
            },
    ;
}

/// Why an address could not be mapped.
#[derive(Clone, Copy, Debug, PartialEq, Eq, Structural)]
pub enum MappingError {
    /// The frame source had no frame for a table that was missing.
    AllocationFailure,
    /// The virtual or the physical address does not lie on a page boundary.
    AlignmentError,
}

/// A tree of page tables with the source of the frames for its tables. Each
/// table is kept by the address of the frame that it is to occupy.
pub struct PageTableManager<A> {
    root: PhysicalAddress,
    tables: HashMap<PhysicalAddress, PageTable>,
    frames: Vec<PhysicalAddress>,
    allocator: A,
    /// For each table, the indices that lead to it from the root.
    paths: Ghost<Map<PhysicalAddress, Seq<int>>>,
    /// For each such path, the table that it leads to.
    table_of: Ghost<Map<Seq<int>, PhysicalAddress>>,
}

/// What the entry for the path `path` holds in the table above it.
spec fn link_entry(table_of: Map<Seq<int>, PhysicalAddress>, path: Seq<int>) -> u64 {
    if table_of.dom().contains(path) {
        entry_value(table_of[path], PageEntryFlags::supervisor())
    } else {
        0
    }
}

proof fn lemma_link_entry(table_of: Map<Seq<int>, PhysicalAddress>, path: Seq<int>)
    requires
        table_of.dom().contains(path) ==> is_page_aligned(table_of[path]),
    ensures
        entry_is_present(link_entry(table_of, path)) == table_of.dom().contains(path),
        table_of.dom().contains(path) ==> entry_address(link_entry(table_of, path))
            == table_of[path],
{
    if table_of.dom().contains(path) {
        lemma_entry_round_trip(table_of[path], PageEntryFlags::supervisor());
    } else {
        assert(0u64 & 1 != 1) by (bit_vector);
    }
}

proof fn lemma_push_equal(a: Seq<int>, x: int, b: Seq<int>, y: int)
    requires
        a.push(x) == b.push(y),
    ensures
        a == b,
        x == y,
{
    assert(a.push(x).drop_last() =~= a);
    assert(b.push(y).drop_last() =~= b);
    assert(a.push(x).last() == x);
    assert(b.push(y).last() == y);
}

proof fn lemma_index_path_step(address: VirtualAddress, length: int)
    requires
        0 <= length,
    ensures
        index_path(address, length + 1) == index_path(address, length).push(
            table_index(address, length),
        ),
        index_path(address, 0) == Seq::<int>::empty(),
        index_path(address, length).len() == length,
{
    assert(index_path(address, length + 1) =~= index_path(address, length).push(
        table_index(address, length),
    ));
    assert(index_path(address, 0) =~= Seq::<int>::empty());
}

/// Two addresses share a page exactly if they select the same table of the
/// last level and the same entry in it.
proof fn lemma_same_page_paths(a: VirtualAddress, b: VirtualAddress)
    ensures
        same_page(a, b) <==> index_path(a, 3) == index_path(b, 3) && table_index(a, 3)
            == table_index(b, 3),
{
    if same_page(a, b) {
        assert(index_path(a, 3) =~= index_path(b, 3));
    }
    if index_path(a, 3) == index_path(b, 3) && table_index(a, 3) == table_index(b, 3) {
        assert forall|level: int| 0 <= level < 4 implies table_index(a, level) == table_index(
            b,
            level,
        ) by {
            if level < 3 {
                assert(index_path(a, 3)[level] == table_index(a, level));
                assert(index_path(b, 3)[level] == table_index(b, level));
            }
        }
    }
}

impl<A: PageFrameAllocator> PageTableManager<A> {
    /// The entries of every table, by the address of its frame.
    pub closed spec fn memory(&self) -> Map<PhysicalAddress, Seq<u64>> {
        Map::new(
            |frame: PhysicalAddress| self.tables@.dom().contains(frame),
            |frame: PhysicalAddress| self.tables@[frame]@,
        )
    }

    /// The address of the frame of the root table.
    pub closed spec fn root_table(&self) -> PhysicalAddress {
        self.root
    }

    /// The frame source.
    pub closed spec fn frame_source(&self) -> A {
        self.allocator
    }

    /// The index paths under which a table exists: the empty path for the
    /// root, and one path for every table below it.
    pub closed spec fn table_paths(&self) -> Set<Seq<int>> {
        self.table_of@.dom()
    }

    /// The entry of the last level that a walk from the root ends at for
    /// `address`.
    pub open spec fn leaf_entry(&self, address: VirtualAddress) -> Option<u64> {
        walk(self.memory(), self.root_table(), address)
    }

    /// The entry that maps `address`: the one that a walk from the root ends
    /// at, where it is present.
    pub open spec fn mapped_entry(&self, address: VirtualAddress) -> Option<u64> {
        match self.leaf_entry(address) {
            Some(entry) => if entry_is_present(entry) {
                Some(entry)
            } else {
                None
            },
            None => None,
        }
    }

    /// The frame that the page of `address` is mapped to.
    pub open spec fn translation(&self, address: VirtualAddress) -> Option<PhysicalAddress> {
        match self.mapped_entry(address) {
            Some(entry) => Some(entry_address(entry)),
            None => None,
        }
    }

    /// The number of tables that do not exist yet on the way to the entry
    /// for `address`.
    pub open spec fn missing_tables(&self, address: VirtualAddress) -> nat {
        let paths = self.table_paths();
        ((if paths.contains(index_path(address, 1)) {
            0nat
        } else {
            1nat
        }) + (if paths.contains(index_path(address, 2)) {
            0nat
        } else {
            1nat
        }) + (if paths.contains(index_path(address, 3)) {
            0nat
        } else {
            1nat
        })) as nat
    }

    /// What holds of the tables between calls: the root exists; every table
    /// has 512 entries and lies in a page-aligned frame that the frame source
    /// no longer offers; the tables form a tree of three levels below the
    /// root, in which every entry above the last level is either zero or
    /// refers to the one table below it.
    pub closed spec fn inv(&self) -> bool {
        let tables = self.tables@;
        let paths = self.paths@;
        let table_of = self.table_of@;
        &&& self.allocator.inv()
        &&& tables.dom().contains(self.root)
        &&& paths.dom() == tables.dom()
        &&& table_of.dom().finite()
        &&& paths[self.root] == Seq::<int>::empty()
        &&& forall|t: PhysicalAddress| #[trigger]
            tables.dom().contains(t) ==> {
                &&& tables[t]@.len() == ENTRY_COUNT
                &&& is_page_aligned(t)
                &&& !self.allocator.available().contains(t)
                &&& paths[t].len() <= 3
                &&& table_of.dom().contains(paths[t])
                &&& table_of[paths[t]] == t
            }
        &&& forall|q: Seq<int>| #[trigger]
            table_of.dom().contains(q) ==> {
                &&& tables.dom().contains(table_of[q])
                &&& paths[table_of[q]] == q
                &&& q.len() > 0 ==> table_of.dom().contains(q.drop_last()) && 0 <= q.last() < 512
            }
        &&& forall|t: PhysicalAddress, i: int|
            tables.dom().contains(t) && paths[t].len() < 3 && 0 <= i < 512
                ==> #[trigger] tables[t]@[i] == link_entry(table_of, paths[t].push(i))
        &&& self.frames@.len() > 0
        &&& self.frames@[0] == self.root
        &&& forall|j: int, k: int|
            0 <= j < k < self.frames@.len() ==> self.frames@[j] != self.frames@[k]
        &&& forall|k: int|
            0 <= k < self.frames@.len() ==> tables.dom().contains(#[trigger] self.frames@[k])
        &&& forall|t: PhysicalAddress|
            tables.dom().contains(t) ==> exists|k: int|
                0 <= k < self.frames@.len() && #[trigger] self.frames@[k] == t
    }

    /// A tree that holds only an empty root table, in the frame at `root`,
    /// which `allocator` has handed out before.
    pub fn new(root: PhysicalAddress, allocator: A) -> (manager: Self)
        requires
            allocator.inv(),
            is_page_aligned(root),
            !allocator.available().contains(root),
        ensures
            manager.inv(),
            manager.root_table() == root,
            manager.frame_source() == allocator,
            manager.table_paths() == set![Seq::<int>::empty()],
            manager.memory() == Map::<PhysicalAddress, Seq<u64>>::empty().insert(
                root,
                Seq::new(512, |i: int| 0u64),
            ),
            forall|address: VirtualAddress| manager.mapped_entry(address) is None,
    {
        let mut tables: HashMap<PhysicalAddress, PageTable> = HashMap::new();
        tables.insert(root, PageTable::new());
        let mut frames: Vec<PhysicalAddress> = Vec::new();
        frames.push(root);
        let ghost empty = Seq::<int>::empty();
        let manager = PageTableManager {
            root,
            tables,
            frames,
            allocator,
            paths: Ghost(Map::<PhysicalAddress, Seq<int>>::empty().insert(root, empty)),
            table_of: Ghost(Map::<Seq<int>, PhysicalAddress>::empty().insert(empty, root)),
        };
        proof {
            assert(manager.table_of@.dom() =~= set![empty]);
            assert(manager.paths@.dom() =~= manager.tables@.dom());
            assert(manager.frames@[0] == root);
            assert forall|t: PhysicalAddress, i: int|
                manager.tables@.dom().contains(t) && manager.paths@[t].len() < 3 && 0 <= i
                    < 512 implies #[trigger] manager.tables@[t]@[i] == link_entry(
                manager.table_of@,
                manager.paths@[t].push(i),
            ) by {
                assert(manager.paths@[t].push(i).len() == 1);
            }
            assert(manager.inv());
            assert(manager.memory() =~= Map::<PhysicalAddress, Seq<u64>>::empty().insert(
                root,
                Seq::new(512, |i: int| 0u64),
            ));
            assert forall|address: VirtualAddress| manager.mapped_entry(address) is None by {
                manager.lemma_walk(address);
                assert(index_path(address, 3).len() == 3);
            }
        }
        manager
    }

    /// A tree that holds only an empty root table, in a frame taken from
    /// `allocator`. Fails exactly if `allocator` has no frame left.
    pub fn try_new(allocator: A) -> (manager: Result<Self, MappingError>)
        requires
            allocator.inv(),
        ensures
            manager is Ok <==> !allocator.available().is_empty(),
            match manager {
                Ok(manager) => {
                    &&& manager.inv()
                    &&& allocator.available().contains(manager.root_table())
                    &&& manager.frame_source().available() == allocator.available().remove(
                        manager.root_table(),
                    )
                    &&& manager.table_paths() == set![Seq::<int>::empty()]
                    &&& manager.memory() == Map::<PhysicalAddress, Seq<u64>>::empty().insert(
                        manager.root_table(),
                        Seq::new(512, |i: int| 0u64),
                    )
                    &&& forall|address: VirtualAddress| manager.mapped_entry(address) is None
                },
                Err(error) => error == MappingError::AllocationFailure,
            },
    {
        let mut allocator = allocator;
        match allocator.request_page() {
            Ok(root) => Ok(PageTableManager::new(root, allocator)),
            Err(_) => Err(MappingError::AllocationFailure),
        }
    }

    /// The address of the frame of the root table.
    pub fn root_address(&self) -> (root: PhysicalAddress)
        ensures
            root == self.root_table(),
    {
        self.root
    }

    /// The table below `table` at `index`, which is made where it is
    /// missing.
    fn descend(&mut self, table: PhysicalAddress, index: usize) -> (child: Result<
        PhysicalAddress,
        MappingError,
    >)
        requires
            old(self).inv(),
            old(self).tables@.dom().contains(table),
            old(self).paths@[table].len() < 3,
            index < ENTRY_COUNT,
        ensures
            final(self).inv(),
            final(self).root == old(self).root,
            child is Err <==> !old(self).table_of@.dom().contains(
                old(self).paths@[table].push(index as int),
            ) && old(self).allocator.available().is_empty(),
            child is Err ==> child == Err::<PhysicalAddress, MappingError>(
                MappingError::AllocationFailure,
            ) && final(self).table_of@ == old(self).table_of@
                && final(self).allocator.available().is_empty(),
            final(self).allocator.available().subset_of(old(self).allocator.available()),
            final(self).tables@.dom() == old(self).tables@.dom().union(
                old(self).allocator.available().difference(final(self).allocator.available()),
            ),
            match child {
                Ok(child) => {
                    &&& final(self).tables@.dom().contains(child)
                    &&& final(self).paths@[child] == old(self).paths@[table].push(index as int)
                    &&& final(self).table_of@.dom() == old(self).table_of@.dom().insert(
                        old(self).paths@[table].push(index as int),
                    )
                    &&& old(self).has_child(table, index as int)
                        ==> final(self).allocator.available().len()
                        == old(self).allocator.available().len()
                    &&& !old(self).has_child(table, index as int)
                        ==> final(self).allocator.available().len() + 1
                        == old(self).allocator.available().len()
                },
                Err(_) => true,
            },
            forall|address: VirtualAddress|
                final(self).mapped_entry(address) == old(self).mapped_entry(address),
    {
        let ghost path = self.paths@[table].push(index as int);
        proof {
            self.allocator.lemma_available_finite();
            self.lemma_step(table, index as int);
            lemma_link_entry(self.table_of@, path);
            assert(self.tables@[table]@[index as int] == link_entry(self.table_of@, path));
        }
        let entry: u64 = match self.tables.get(&table) {
            Some(entries) => entries.get(index),
            None => {
                proof {
                    assert(false);
                }
                0
            },
        };
        if entry & ENTRY_PRESENT == ENTRY_PRESENT {
            assert(self.tables@.dom() =~= self.tables@.dom().union(
                self.allocator.available().difference(self.allocator.available()),
            ));
            return Ok(entry & ENTRY_ADDRESS_MASK);
        }
        let frame = match self.allocator.request_page() {
            Ok(frame) => frame,
            Err(_) => {
                proof {
                    assert forall|address: VirtualAddress|
                        self.mapped_entry(address) == old(self).mapped_entry(address) by {
                        assert(self.memory() =~= old(self).memory());
                    }
                    assert(self.tables@.dom() =~= old(self).tables@.dom().union(
                        old(self).allocator.available().difference(self.allocator.available()),
                    ));
                }
                return Err(MappingError::AllocationFailure);
            },
        };
        let mut entries: PageTable = match self.tables.remove(&table) {
            Some(entries) => entries,
            None => {
                proof {
                    assert(false);
                }
                PageTable::new()
            },
        };
        entries.set(index, make_entry(frame, PageEntryFlags::default()));
        self.tables.insert(table, entries);
        self.tables.insert(frame, PageTable::new());
        self.frames.push(frame);
        proof {
            self.paths@ = self.paths@.insert(frame, path);
            self.table_of@ = self.table_of@.insert(path, frame);
            old(self).lemma_descend_keeps(*self, table, index as int, frame);
            assert(self.tables@.dom() =~= old(self).tables@.dom().union(
                old(self).allocator.available().difference(self.allocator.available()),
            ));
        }
        Ok(frame)
    }

    /// Writes `value` into the entry at `index` of `table`, a table of the
    /// last level.
    fn set_leaf(&mut self, table: PhysicalAddress, index: usize, value: u64)
        requires
            old(self).inv(),
            old(self).tables@.dom().contains(table),
            old(self).paths@[table].len() == 3,
            index < ENTRY_COUNT,
        ensures
            final(self).inv(),
            final(self).root == old(self).root,
            final(self).table_of@ == old(self).table_of@,
            final(self).allocator == old(self).allocator,
            final(self).tables@.dom() == old(self).tables@.dom(),
            forall|address: VirtualAddress|
                final(self).leaf_entry(address) == if table_index(address, 3) == index
                    && index_path(address, 3) == old(self).paths@[table] {
                    Some(value)
                } else {
                    old(self).leaf_entry(address)
                },
    {
        let mut entries: PageTable = match self.tables.remove(&table) {
            Some(entries) => entries,
            None => {
                proof {
                    assert(false);
                }
                PageTable::new()
            },
        };
        entries.set(index, value);
        self.tables.insert(table, entries);
        proof {
            assert(self.tables@.dom() =~= old(self).tables@.dom());
            assert forall|t: PhysicalAddress| #[trigger]
                self.tables@.dom().contains(t) implies {
                &&& self.tables@[t]@.len() == ENTRY_COUNT
                &&& is_page_aligned(t)
                &&& !self.allocator.available().contains(t)
                &&& self.paths@[t].len() <= 3
                &&& self.table_of@.dom().contains(self.paths@[t])
                &&& self.table_of@[self.paths@[t]] == t
            } by {
                assert(old(self).tables@.dom().contains(t));
            }
            assert forall|t: PhysicalAddress, i: int|
                self.tables@.dom().contains(t) && self.paths@[t].len() < 3 && 0 <= i
                    < 512 implies #[trigger] self.tables@[t]@[i] == link_entry(
                self.table_of@,
                self.paths@[t].push(i),
            ) by {
                assert(t != table);
                assert(old(self).tables@[t]@[i] == link_entry(
                    old(self).table_of@,
                    old(self).paths@[t].push(i),
                ));
            }
            assert(self.frames@ == old(self).frames@);
            assert forall|t: PhysicalAddress| self.tables@.dom().contains(t) implies exists|k: int|
                0 <= k < self.frames@.len() && #[trigger] self.frames@[k] == t by {
                assert(old(self).tables@.dom().contains(t));
                let k = choose|k: int|
                    0 <= k < old(self).frames@.len() && #[trigger] old(self).frames@[k] == t;
                assert(self.frames@[k] == t);
            }
            assert(self.inv());
            assert forall|address: VirtualAddress|
                self.leaf_entry(address) == if index_path(address, 3) == old(self).paths@[table]
                    && table_index(address, 3) == index {
                    Some(value)
                } else {
                    old(self).leaf_entry(address)
                } by {
                self.lemma_walk(address);
                old(self).lemma_walk(address);
                lemma_index_bound(address);
                let leaf = index_path(address, 3);
                if self.table_of@.dom().contains(leaf) {
                    let t = self.table_of@[leaf];
                    assert(old(self).paths@[t] == leaf);
                    assert(old(self).tables@.dom().contains(t));
                    if t != table {
                        assert(self.tables@[t] == old(self).tables@[t]);
                    }
                }
            }
        }
    }

    /// Maps the page of `virtual_addr` to the frame at `physical_addr` with
    /// `flags`, whether or not the page was mapped before. Tables that are
    /// missing on the way are made, each in a frame from the frame source
    /// and filled with zeros.
    ///
    /// Fails with `AlignmentError`, and changes nothing, exactly if one of
    /// the addresses is not page-aligned. Otherwise it fails with
    /// `AllocationFailure` exactly if the frame source holds fewer frames than
    /// tables are missing. No other page's mapping changes in any case.
    pub fn map_memory(
        &mut self,
        virtual_addr: VirtualAddress,
        physical_addr: PhysicalAddress,
        flags: PageEntryFlags,
    ) -> (result: Result<(), MappingError>)
        requires
            old(self).inv(),
        ensures
            final(self).inv(),
            final(self).root_table() == old(self).root_table(),
            result == Err::<(), MappingError>(MappingError::AlignmentError) <==> !(is_page_aligned(
                virtual_addr,
            ) && is_page_aligned(physical_addr)),
            result == Err::<(), MappingError>(MappingError::AllocationFailure) <==> is_page_aligned(
                virtual_addr,
            ) && is_page_aligned(physical_addr) && old(self).missing_tables(virtual_addr)
                > old(self).frame_source().available().len(),
            result == Err::<(), MappingError>(MappingError::AlignmentError) ==> {
                &&& final(self).memory() == old(self).memory()
                &&& final(self).table_paths() == old(self).table_paths()
                &&& final(self).frame_source() == old(self).frame_source()
            },
            result == Err::<(), MappingError>(MappingError::AllocationFailure) ==> {
                &&& final(self).frame_source().available().is_empty()
                &&& old(self).table_paths().subset_of(final(self).table_paths())
                &&& final(self).table_paths().subset_of(
                    old(self).table_paths().union(table_paths_for(virtual_addr)),
                )
            },
            final(self).frame_source().available().subset_of(
                old(self).frame_source().available(),
            ),
            final(self).memory().dom() == old(self).memory().dom().union(
                old(self).frame_source().available().difference(
                    final(self).frame_source().available(),
                ),
            ),
            result is Ok ==> {
                &&& final(self).table_paths() == old(self).table_paths().union(
                    table_paths_for(virtual_addr),
                )
                &&& final(self).frame_source().available().len() + old(self).missing_tables(
                    virtual_addr,
                ) == old(self).frame_source().available().len()
                &&& final(self).leaf_entry(virtual_addr) == Some(entry_value(physical_addr, flags))
                &&& forall|address: VirtualAddress|
                    same_page(address, virtual_addr) ==> final(self).leaf_entry(address) == Some(
                        entry_value(physical_addr, flags),
                    )
                &&& entry_address(entry_value(physical_addr, flags)) == physical_addr
                &&& entry_flags(entry_value(physical_addr, flags)) == flags
            },
            forall|address: VirtualAddress|
                result is Err || !same_page(address, virtual_addr) ==> final(self).mapped_entry(
                    address,
                ) == old(self).mapped_entry(address),
    {
        if !page_aligned(virtual_addr) || !page_aligned(physical_addr) {
            proof {
                self.lemma_tables_grow(*self);
            }
            return Err(MappingError::AlignmentError);
        }
        let ghost first_path = index_path(virtual_addr, 1);
        let ghost second_path = index_path(virtual_addr, 2);
        let ghost third_path = index_path(virtual_addr, 3);
        proof {
            lemma_index_path_step(virtual_addr, 0);
            lemma_index_path_step(virtual_addr, 1);
            lemma_index_path_step(virtual_addr, 2);
            lemma_entry_round_trip(physical_addr, flags);
            self.allocator.lemma_available_finite();
            assert(second_path.drop_last() =~= first_path);
            assert(third_path.drop_last() =~= second_path);
            if self.table_of@.dom().contains(third_path) {
                assert(self.table_of@.dom().contains(third_path.drop_last()));
            }
            if self.table_of@.dom().contains(second_path) {
                assert(self.table_of@.dom().contains(second_path.drop_last()));
            }
        }
        let first = match self.descend(self.root, index_of(virtual_addr, 0)) {
            Ok(table) => table,
            Err(error) => {
                proof {
                    old(self).lemma_tables_grow(*self);
                }
                return Err(error);
            },
        };
        proof {
            self.allocator.lemma_available_finite();
        }
        let second = match self.descend(first, index_of(virtual_addr, 1)) {
            Ok(table) => table,
            Err(error) => {
                proof {
                    old(self).lemma_tables_grow(*self);
                }
                return Err(error);
            },
        };
        proof {
            self.allocator.lemma_available_finite();
        }
        let third = match self.descend(second, index_of(virtual_addr, 2)) {
            Ok(table) => table,
            Err(error) => {
                proof {
                    old(self).lemma_tables_grow(*self);
                }
                return Err(error);
            },
        };
        let ghost before_leaf = *self;
        self.set_leaf(third, index_of(virtual_addr, 3), make_entry(physical_addr, flags));
        proof {
            old(self).lemma_tables_grow(*self);
            assert(self.table_of@.dom() =~= old(self).table_of@.dom().union(
                table_paths_for(virtual_addr),
            ));
            assert forall|address: VirtualAddress|
                same_page(address, virtual_addr) implies self.leaf_entry(address) == Some(
                entry_value(physical_addr, flags),
            ) by {
                lemma_same_page_paths(address, virtual_addr);
            }
            assert(same_page(virtual_addr, virtual_addr));
            assert forall|address: VirtualAddress|
                !same_page(address, virtual_addr) implies self.mapped_entry(address)
                == before_leaf.mapped_entry(address) by {
                lemma_same_page_paths(address, virtual_addr);
                assert(before_leaf.mapped_entry(address) == old(self).mapped_entry(address));
            }
        }
        Ok(())
    }

    /// Walks the tables for `address` and returns the entry of the last
    /// level that the walk ends at.
    pub fn entry(&self, address: VirtualAddress) -> (entry: Option<u64>)
        requires
            self.inv(),
        ensures
            entry == self.leaf_entry(address),
    {
        let mut table: PhysicalAddress = self.root;
        let mut level: usize = 0;
        while level < 3
            invariant
                self.inv(),
                level <= 3,
                level == 0 ==> table == self.root,
                level == 1 ==> second_table(self.memory(), self.root, address) == Some(table),
                level == 2 ==> third_table(self.memory(), self.root, address) == Some(table),
                level == 3 ==> last_table(self.memory(), self.root, address) == Some(table),
            decreases 3 - level,
        {
            let index = index_of(address, level);
            let next: u64 = match self.tables.get(&table) {
                Some(entries) => {
                    assert(self.tables@.dom().contains(table));
                    entries.get(index)
                },
                None => {
                    return None;
                },
            };
            if next & ENTRY_PRESENT != ENTRY_PRESENT {
                return None;
            }
            table = next & ENTRY_ADDRESS_MASK;
            level += 1;
        }
        match self.tables.get(&table) {
            Some(entries) => {
                assert(self.tables@.dom().contains(table));
                Some(entries.entry_for(address, 3))
            },
            None => None,
        }
    }

    /// The frame that the page of `address` is mapped to, if it is mapped.
    pub fn translate(&self, address: VirtualAddress) -> (frame: Option<PhysicalAddress>)
        requires
            self.inv(),
        ensures
            frame == self.translation(address),
    {
        match self.entry(address) {
            Some(entry) => if entry & ENTRY_PRESENT == ENTRY_PRESENT {
                Some(entry & ENTRY_ADDRESS_MASK)
            } else {
                None
            },
            None => None,
        }
    }

    /// The frames that hold a table, each once: the root's first and then in
    /// the order in which the tables were made.
    pub fn table_frames(&self) -> (frames: &Vec<PhysicalAddress>)
        requires
            self.inv(),
        ensures
            frames@.len() > 0,
            frames@[0] == self.root_table(),
            forall|j: int, k: int| 0 <= j < k < frames@.len() ==> frames@[j] != frames@[k],
            forall|frame: PhysicalAddress|
                self.memory().dom().contains(frame) <==> frames@.contains(frame),
    {
        proof {
            assert forall|frame: PhysicalAddress|
                self.memory().dom().contains(frame) <==> self.frames@.contains(frame) by {
                if self.frames@.contains(frame) {
                    let k = choose|k: int| 0 <= k < self.frames@.len() && self.frames@[k] == frame;
                    assert(self.tables@.dom().contains(self.frames@[k]));
                }
            }
        }
        &self.frames
    }

    /// The table in `frame`, if there is one.
    pub fn table(&self, frame: PhysicalAddress) -> (table: Option<&PageTable>)
        requires
            self.inv(),
        ensures
            match table {
                Some(table) => self.memory().dom().contains(frame) && table@
                    == self.memory()[frame],
                None => !self.memory().dom().contains(frame),
            },
    {
        let table = self.tables.get(&frame);
        proof {
            if table is Some {
                assert(self.tables@.dom().contains(frame));
            }
        }
        table
    }

    /// Gives up the tables and returns the frame source.
    pub fn into_allocator(self) -> (allocator: A)
        ensures
            allocator == self.frame_source(),
    {
        self.allocator
    }

    /// The tables are finitely many, the root is one of them, and the
    /// tables on the way to the entry for `address` add as many to them as
    /// are missing.
    pub proof fn lemma_missing_tables(&self, address: VirtualAddress)
        requires
            self.inv(),
        ensures
            self.table_paths().finite(),
            self.table_paths().contains(Seq::<int>::empty()),
            self.table_paths().union(table_paths_for(address)).finite(),
            self.table_paths().union(table_paths_for(address)).len() == self.table_paths().len()
                + self.missing_tables(address),
    {
        let paths = self.table_paths();
        let first_path = index_path(address, 1);
        let second_path = index_path(address, 2);
        let third_path = index_path(address, 3);
        assert(first_path.len() == 1 && second_path.len() == 2 && third_path.len() == 3);
        assert(paths.union(table_paths_for(address)) =~= paths.insert(first_path).insert(
            second_path,
        ).insert(third_path));
        assert(self.paths@[self.root] == Seq::<int>::empty());
        assert(self.tables@.dom().contains(self.root));
    }

    /// A table exists under an index path exactly if a walk along the path
    /// finds one.
    pub proof fn lemma_table_paths(&self, address: VirtualAddress)
        requires
            self.inv(),
        ensures
            self.table_paths().contains(index_path(address, 1)) <==> second_table(
                self.memory(),
                self.root_table(),
                address,
            ) is Some,
            self.table_paths().contains(index_path(address, 2)) <==> third_table(
                self.memory(),
                self.root_table(),
                address,
            ) is Some,
            self.table_paths().contains(index_path(address, 3)) <==> last_table(
                self.memory(),
                self.root_table(),
                address,
            ) is Some,
    {
        self.lemma_walk(address);
    }

    /// Where the tables of `after` lie in the frames of these tables and in
    /// the frames that the frame source has handed out since, the memory of
    /// `after` does so too.
    proof fn lemma_tables_grow(&self, after: Self)
        requires
            after.tables@.dom() =~= self.tables@.dom().union(
                self.allocator.available().difference(after.allocator.available()),
            ),
        ensures
            after.memory().dom() == self.memory().dom().union(
                self.frame_source().available().difference(after.frame_source().available()),
            ),
    {
        assert(after.memory().dom() =~= after.tables@.dom());
        assert(self.memory().dom() =~= self.tables@.dom());
    }

    /// A table exists below `table` at `index`.
    spec fn has_child(&self, table: PhysicalAddress, index: int) -> bool {
        self.table_of@.dom().contains(self.paths@[table].push(index))
    }

    /// The table that the path `path` leads to.
    spec fn lookup(&self, path: Seq<int>) -> Option<PhysicalAddress> {
        if self.table_of@.dom().contains(path) {
            Some(self.table_of@[path])
        } else {
            None
        }
    }

    /// A walk finds at each level the table that the tree holds for the
    /// indices walked so far.
    proof fn lemma_walk(&self, address: VirtualAddress)
        requires
            self.inv(),
        ensures
            second_table(self.memory(), self.root, address) == self.lookup(index_path(address, 1)),
            third_table(self.memory(), self.root, address) == self.lookup(index_path(address, 2)),
            last_table(self.memory(), self.root, address) == self.lookup(index_path(address, 3)),
            self.leaf_entry(address) == match self.lookup(index_path(address, 3)) {
                Some(table) => Some(self.tables@[table]@[table_index(address, 3)]),
                None => None,
            },
    {
        lemma_index_bound(address);
        lemma_index_path_step(address, 0);
        lemma_index_path_step(address, 1);
        lemma_index_path_step(address, 2);
        let root_path = index_path(address, 0);
        let first_path = index_path(address, 1);
        let second_path = index_path(address, 2);
        let third_path = index_path(address, 3);
        assert(self.tables@.dom().contains(self.root));
        assert(self.table_of@[root_path] == self.root);
        self.lemma_step(self.root, table_index(address, 0));
        if self.table_of@.dom().contains(first_path) {
            let first = self.table_of@[first_path];
            self.lemma_step(first, table_index(address, 1));
            if self.table_of@.dom().contains(second_path) {
                let second = self.table_of@[second_path];
                self.lemma_step(second, table_index(address, 2));
            } else {
                assert(third_path.drop_last() =~= second_path);
            }
        } else {
            assert(second_path.drop_last() =~= first_path);
            assert(third_path.drop_last() =~= second_path);
        }
    }

    /// Putting an empty table below `table` at `index` keeps the tree a
    /// tree and changes no mapping.
    proof fn lemma_descend_keeps(
        &self,
        after: Self,
        table: PhysicalAddress,
        index: int,
        frame: PhysicalAddress,
    )
        requires
            self.inv(),
            self.tables@.dom().contains(table),
            self.paths@[table].len() < 3,
            0 <= index < 512,
            !self.table_of@.dom().contains(self.paths@[table].push(index)),
            self.allocator.available().contains(frame),
            is_page_aligned(frame),
            after.allocator.inv(),
            after.allocator.available() == self.allocator.available().remove(frame),
            after.root == self.root,
            after.paths@ == self.paths@.insert(frame, self.paths@[table].push(index)),
            after.table_of@ == self.table_of@.insert(self.paths@[table].push(index), frame),
            after.tables@.dom() == self.tables@.dom().insert(frame),
            after.tables@[frame]@ == Seq::new(512, |i: int| 0u64),
            after.tables@[table]@ == self.tables@[table]@.update(
                index,
                entry_value(frame, PageEntryFlags::supervisor()),
            ),
            forall|t: PhysicalAddress|
                self.tables@.dom().contains(t) && t != table ==> #[trigger] after.tables@[t]
                    == self.tables@[t],
            after.frames@ == self.frames@.push(frame),
        ensures
            after.inv(),
            forall|address: VirtualAddress|
                after.mapped_entry(address) == self.mapped_entry(address),
    {
        let path = self.paths@[table].push(index);
        assert(path.drop_last() =~= self.paths@[table]);
        assert(!self.tables@.dom().contains(frame));
        assert(frame != table);
        assert(after.paths@.dom() =~= after.tables@.dom());
        assert forall|t: PhysicalAddress| #[trigger]
            after.tables@.dom().contains(t) implies {
            &&& after.tables@[t]@.len() == ENTRY_COUNT
            &&& is_page_aligned(t)
            &&& !after.allocator.available().contains(t)
            &&& after.paths@[t].len() <= 3
            &&& after.table_of@.dom().contains(after.paths@[t])
            &&& after.table_of@[after.paths@[t]] == t
        } by {
            if t != frame {
                assert(self.tables@.dom().contains(t));
            }
        }
        assert forall|q: Seq<int>| #[trigger]
            after.table_of@.dom().contains(q) implies {
            &&& after.tables@.dom().contains(after.table_of@[q])
            &&& after.paths@[after.table_of@[q]] == q
            &&& q.len() > 0 ==> after.table_of@.dom().contains(q.drop_last()) && 0 <= q.last()
                < 512
        } by {
            if q != path {
                assert(self.table_of@.dom().contains(q));
            }
        }
        assert forall|t: PhysicalAddress, i: int|
            after.tables@.dom().contains(t) && after.paths@[t].len() < 3 && 0 <= i
                < 512 implies #[trigger] after.tables@[t]@[i] == link_entry(
            after.table_of@,
            after.paths@[t].push(i),
        ) by {
            let step = after.paths@[t].push(i);
            if t == frame {
                assert(step.drop_last() =~= path);
                if self.table_of@.dom().contains(step) {
                    assert(self.table_of@.dom().contains(step.drop_last()));
                }
                assert(step.len() != path.len());
            } else {
                assert(self.tables@.dom().contains(t));
                assert(self.tables@[t]@[i] == link_entry(self.table_of@, step));
                if step == path {
                    lemma_push_equal(self.paths@[t], i, self.paths@[table], index);
                    assert(self.table_of@[self.paths@[t]] == t);
                    assert(t == table && i == index);
                } else {
                    if t == table {
                        assert(i != index);
                    }
                }
            }
        }
        assert forall|k: int| 0 <= k < after.frames@.len() implies after.tables@.dom().contains(
            #[trigger] after.frames@[k],
        ) by {
            if k < self.frames@.len() {
                assert(self.tables@.dom().contains(self.frames@[k]));
            }
        }
        assert forall|j: int, k: int| 0 <= j < k < after.frames@.len() implies after.frames@[j]
            != after.frames@[k] by {
            assert(self.tables@.dom().contains(self.frames@[j]));
        }
        assert forall|t: PhysicalAddress| after.tables@.dom().contains(t) implies exists|k: int|
            0 <= k < after.frames@.len() && #[trigger] after.frames@[k] == t by {
            if t == frame {
                assert(after.frames@[self.frames@.len() as int] == t);
            } else {
                let k = choose|k: int|
                    0 <= k < self.frames@.len() && #[trigger] self.frames@[k] == t;
                assert(after.frames@[k] == t);
            }
        }
        assert(after.inv());
        assert forall|address: VirtualAddress|
            after.mapped_entry(address) == self.mapped_entry(address) by {
            self.lemma_walk(address);
            after.lemma_walk(address);
            lemma_index_bound(address);
            let leaf = index_path(address, 3);
            assert(leaf.len() == 3);
            if self.table_of@.dom().contains(leaf) {
                let t = self.table_of@[leaf];
                assert(self.paths@[t] == leaf);
                assert(t != table);
                assert(after.tables@[t] == self.tables@[t]);
            } else if leaf == path {
                assert(0u64 & 1 != 1) by (bit_vector);
            }
        }
    }

    /// The entry at `index` of a table above the last level refers to the
    /// table that the tree holds one step further, if there is one.
    proof fn lemma_step(&self, table: PhysicalAddress, index: int)
        requires
            self.inv(),
            self.tables@.dom().contains(table),
            self.paths@[table].len() < 3,
            0 <= index < 512,
        ensures
            next_table(self.memory(), table, index) == self.lookup(
                self.paths@[table].push(index),
            ),
    {
        let path = self.paths@[table].push(index);
        assert(self.tables@[table]@[index] == link_entry(self.table_of@, path));
        if self.table_of@.dom().contains(path) {
            assert(self.tables@.dom().contains(self.table_of@[path]));
        }
        lemma_link_entry(self.table_of@, path);
    }
}

} // verus!
