//! The translation tables of physical memory as trees: which table stands at
//! which level, and how a page is looked up in them.

use vstd::prelude::*;
use crate::memory::address::{
    is_flag_bits, is_frame_addr, is_page_addr, lemma_indices_determine_page, p1_index_of,
    p2_index_of, p3_index_of, p4_index_of,
};
use crate::memory::address::Page;
use crate::memory::allocator::{
    after_allocations, handed_out, lemma_after_allocations_next, FrameAllocator,
};
use crate::memory::paging::page_table::{empty_table, entry_used, unused_entry, TableMemory};
use crate::memory::MemoryError;

verus! {

/// Tables by the start address of their frame, each as its 512 entries.
pub type Tables = Map<u64, Seq<(u64, u64)>>;

/// Flag bits of an entry that refers to a table: present and writable.
pub const TABLE_FLAGS: u64 = 3;

/// The table that entry `index` of `table` refers to, if that entry is in
/// use and refers to a frame that holds a table.
pub open spec fn next_table(tables: Tables, table: u64, index: int) -> Option<u64> {
    if tables.dom().contains(table) && entry_used(tables[table][index]) && tables.dom().contains(
        tables[table][index].0,
    ) {
        Some(tables[table][index].0)
    } else {
        None
    }
}

/// The level 2 table that the lookup of `page` from the level 4 table `root`
/// reaches.
pub open spec fn p2_table(tables: Tables, root: u64, page: u64) -> Option<u64> {
    match next_table(tables, root, p4_index_of(page)) {
        Some(p3) => next_table(tables, p3, p3_index_of(page)),
        None => None,
    }
}

/// The level 1 table that the lookup of `page` from the level 4 table `root`
/// reaches.
pub open spec fn p1_table(tables: Tables, root: u64, page: u64) -> Option<u64> {
    match p2_table(tables, root, page) {
        Some(p2) => next_table(tables, p2, p2_index_of(page)),
        None => None,
    }
}

/// What `page` translates to from the level 4 table `root`: the frame
/// address and the flags of its level 1 entry, if the lookup reaches one and
/// it is in use.
pub open spec fn translation(tables: Tables, root: u64, page: u64) -> Option<(u64, u64)> {
    match p1_table(tables, root, page) {
        Some(p1) => if entry_used(tables[p1][p1_index_of(page)]) {
            Some(tables[p1][p1_index_of(page)])
        } else {
            None
        },
        None => None,
    }
}

/// Whether `page` lies in the part of the address space that the recursive
/// self-reference takes up: there the tables themselves appear as pages.
pub open spec fn is_reserved(page: u64) -> bool {
    p4_index_of(page) == 511
}

/// A page in the lower half of the address space lies outside the part that
/// the recursive self-reference takes up.
pub proof fn lemma_lower_half_is_free(page: u64)
    requires
        page < 0x8000_0000_0000,
    ensures
        !is_reserved(page),
{
    assert(page < 0x8000_0000_0000 ==> (page / 0x80_0000_0000) % 512 != 511) by (bit_vector);
}

/// The address space of the level 4 table `root`: every page outside the
/// reserved part that translates, with its frame address and flags.
pub open spec fn mappings(tables: Tables, root: u64) -> Map<u64, (u64, u64)> {
    Map::new(
        |page: u64| is_page_addr(page) && !is_reserved(page)
            && translation(tables, root, page) is Some,
        |page: u64| translation(tables, root, page)->Some_0,
    )
}

/// How many of the three tables below the level 4 table are missing on the
/// way to `page`.
pub open spec fn missing_tables(tables: Tables, root: u64, page: u64) -> nat {
    if next_table(tables, root, p4_index_of(page)) is None {
        3
    } else if p2_table(tables, root, page) is None {
        2
    } else if p1_table(tables, root, page) is None {
        1
    } else {
        0
    }
}

/// Whether no entry of the table in `frame` is in use.
pub open spec fn is_empty_table(tables: Tables, frame: u64) -> bool {
    forall|i: int| 0 <= i < 512 ==> !entry_used(#[trigger] tables[frame][i])
}

/// The tables after the unused entry `index` of `parent` was made to refer to
/// the new, empty table in `frame`.
pub open spec fn with_new_table(tables: Tables, parent: u64, index: int, frame: u64) -> Tables {
    tables.insert(frame, empty_table()).insert(
        parent,
        tables[parent].update(index, (frame, TABLE_FLAGS)),
    )
}

/// The tables after entry `index` of `table` was set to `entry`.
pub open spec fn with_entry(tables: Tables, table: u64, index: int, entry: (u64, u64)) -> Tables {
    tables.insert(table, tables[table].update(index, entry))
}

/// The tables after `frame` was made a level 4 table that holds nothing but
/// its self-reference.
pub open spec fn with_new_root(tables: Tables, frame: u64) -> Tables {
    tables.insert(frame, empty_table().update(511, (frame, TABLE_FLAGS)))
}

/// What looking for the table under entry `index` of `table` gives, where a
/// missing table is made in the frame `next`, the one that the allocator
/// hands out: the table's frame, or why there is none.
pub open spec fn next_or_create_result(tables: Tables, table: u64, index: int, next: Option<u64>)
    -> Result<u64, MemoryError> {
    match next_table(tables, table, index) {
        Some(child) => Ok(child),
        None => match next {
            None => Err(MemoryError::Exhaustion),
            Some(frame) => if tables.dom().contains(frame) {
                Err(MemoryError::UsageViolation)
            } else {
                Ok(frame)
            },
        },
    }
}

/// The tables after that step: with a new table where one was missing and
/// the allocator handed out a frame that held none, unchanged otherwise.
pub open spec fn next_or_create_tables(tables: Tables, table: u64, index: int, next: Option<u64>)
    -> Tables {
    match next_table(tables, table, index) {
        Some(child) => tables,
        None => match next {
            None => tables,
            Some(frame) => if tables.dom().contains(frame) {
                tables
            } else {
                with_new_table(tables, table, index, frame)
            },
        },
    }
}

/// Why `allocator` cannot supply `count` frames for new tables, one after the
/// other, if it cannot: `Exhaustion` where it runs out first, `UsageViolation`
/// where it first hands out a frame that is among `in_use` or that it has
/// handed out just before.
pub open spec fn supply_error<A: FrameAllocator>(allocator: A, in_use: Set<u64>, count: nat)
    -> Option<MemoryError>
    decreases count,
{
    if count == 0 {
        None
    } else {
        match allocator.next_frame() {
            None => Some(MemoryError::Exhaustion),
            Some(frame) => if in_use.contains(frame) {
                Some(MemoryError::UsageViolation)
            } else {
                supply_error(allocator.after_allocation(), in_use.insert(frame), (count - 1) as nat)
            },
        }
    }
}

/// How often `allocator` is asked for a frame while it supplies `count`
/// frames for new tables, or fails to.
pub open spec fn supply_calls<A: FrameAllocator>(allocator: A, in_use: Set<u64>, count: nat) -> nat
    decreases count,
{
    if count == 0 {
        0
    } else {
        match allocator.next_frame() {
            None => 1,
            Some(frame) => if in_use.contains(frame) {
                1
            } else {
                1 + supply_calls(
                    allocator.after_allocation(),
                    in_use.insert(frame),
                    (count - 1) as nat,
                )
            },
        }
    }
}

/// Supplying `count` frames takes at most `count` calls.
pub proof fn lemma_supply_calls_bounded<A: FrameAllocator>(
    allocator: A,
    in_use: Set<u64>,
    count: nat,
)
    ensures
        supply_calls(allocator, in_use, count) <= count,
    decreases count,
{
    if count > 0 {
        match allocator.next_frame() {
            None => {},
            Some(frame) => {
                if !in_use.contains(frame) {
                    lemma_supply_calls_bounded(
                        allocator.after_allocation(),
                        in_use.insert(frame),
                        (count - 1) as nat,
                    );
                }
            },
        }
    }
}

/// The allocator fails to supply frames for want of a frame or because it
/// hands out one that is in use, and in no other way.
pub proof fn lemma_supply_error_kinds<A: FrameAllocator>(allocator: A, in_use: Set<u64>, count: nat)
    ensures
        supply_error(allocator, in_use, count) matches Some(e) ==> e == MemoryError::Exhaustion
            || e == MemoryError::UsageViolation,
    decreases count,
{
    if count > 0 {
        match allocator.next_frame() {
            None => {},
            Some(frame) => {
                if !in_use.contains(frame) {
                    lemma_supply_error_kinds(
                        allocator.after_allocation(),
                        in_use.insert(frame),
                        (count - 1) as nat,
                    );
                }
            },
        }
    }
}

/// Whether the table in `frame`, if `after` holds one, was there in `before`
/// or stands in a frame that `allocator` has handed out in `calls` calls.
pub open spec fn came_from<A: FrameAllocator>(
    before: Tables,
    after: Tables,
    allocator: A,
    calls: nat,
    frame: u64,
) -> bool {
    after.dom().contains(frame) ==> before.dom().contains(frame) || handed_out(
        allocator,
        calls,
        frame,
    )
}

/// Translation tables together with the level of each and, for each table
/// below level 4, the one entry that refers to it.
pub struct PageTables {
    memory: TableMemory,
    levels: Ghost<Map<u64, nat>>,
    owners: Ghost<Map<u64, (u64, int)>>,
    redirected: Ghost<Option<u64>>,
}

impl PageTables {
    /// The tables by the start address of their frame.
    pub closed spec fn view(&self) -> Tables {
        self.memory@
    }

    /// The level of the table in `frame`, from 4 for a root down to 1; 0 where
    /// `frame` holds no table.
    pub closed spec fn level(&self, frame: u64) -> nat {
        if self.levels@.dom().contains(frame) {
            self.levels@[frame]
        } else {
            0
        }
    }

    /// The table and the index of the entry that refers to the table in
    /// `frame`.
    pub closed spec fn owner(&self, frame: u64) -> (u64, int) {
        self.owners@[frame]
    }

    /// The one level 4 table whose reserved entry refers to another level 4
    /// table than itself, if there is one.
    pub closed spec fn redirected(&self) -> Option<u64> {
        self.redirected@
    }

    /// Whether `frame` holds a level 4 table.
    pub open spec fn is_root(&self, frame: u64) -> bool {
        self@.dom().contains(frame) && self.level(frame) == 4
    }

    /// Whether entry `index` of `table`, where it refers to a table, refers
    /// to one of the next lower level that no other entry refers to.
    pub closed spec fn links_down(&self, table: u64, index: int) -> bool {
        let entry = self@[table][index];
        (self.level(table) >= 2 && entry_used(entry) && !(self.level(table) == 4 && index == 511))
            ==> (self@.dom().contains(entry.0) && self.level(entry.0) + 1 == self.level(table)
            && self.owner(entry.0) == (table, index))
    }

    /// Whether the reserved entry of the level 4 table `table` refers to a
    /// level 4 table: to `table` itself, unless `table` is the redirected one.
    pub closed spec fn links_root(&self, table: u64) -> bool {
        let entry = self@[table][511];
        self.level(table) == 4 ==> (entry_used(entry) && self@.dom().contains(entry.0)
            && self.level(entry.0) == 4 && (self.redirected() == Some(table) <==> entry.0
            != table))
    }

    /// The tables form trees: below each level 4 table stand tables of level
    /// 3, 2 and 1, none of them shared, and the reserved entry of each level 4
    /// table refers to that table itself, or, in the redirected one, to
    /// another level 4 table.
    pub closed spec fn wf(&self) -> bool {
        &&& self.memory.wf()
        &&& forall|f: u64| self@.dom().contains(f) <==> #[trigger] self.levels@.dom().contains(f)
        &&& forall|f: u64| #[trigger] self@.dom().contains(f) ==> 1 <= self.level(f) <= 4
        &&& forall|f: u64, i: int|
            self@.dom().contains(f) && 0 <= i < 512 ==> #[trigger] self.links_down(f, i)
        &&& forall|f: u64| #[trigger] self@.dom().contains(f) ==> self.links_root(f)
        &&& self.redirected() matches Some(table) ==> self.is_root(table)
        &&& forall|f: u64| #[trigger] self@.dom().contains(f) ==> is_frame_addr(f)
    }

    /// Every table has 512 entries, its level lies between 1 and 4, and it
    /// stands in a frame.
    pub proof fn lemma_table(&self, frame: u64)
        requires
            self.wf(),
            self@.dom().contains(frame),
        ensures
            self@[frame].len() == 512,
            1 <= self.level(frame) <= 4,
            is_frame_addr(frame),
    {
        self.memory.lemma_table_len(frame);
    }

    /// An entry in use in a table above level 1, other than the reserved
    /// entry of a level 4 table, refers to a table of the next lower level.
    pub proof fn lemma_next_table(&self, table: u64, index: int)
        requires
            self.wf(),
            self@.dom().contains(table),
            self.level(table) >= 2,
            0 <= index < 512,
            !(self.level(table) == 4 && index == 511),
        ensures
            next_table(self@, table, index) is Some <==> entry_used(self@[table][index]),
            next_table(self@, table, index) matches Some(child) ==> self.level(child) + 1
                == self.level(table) && self.owner(child) == (table, index),
    {
        assert(self.links_down(table, index));
    }

    /// The reserved entry of a level 4 table refers to a level 4 table, and
    /// to none but itself unless the table is the redirected one.
    pub proof fn lemma_recursive_entry(&self, root: u64)
        requires
            self.wf(),
            self.is_root(root),
        ensures
            entry_used(self@[root][511]),
            self.is_root(self@[root][511].0),
            next_table(self@, root, 511) == Some(self@[root][511].0),
            self.redirected() == Some(root) <==> self@[root][511].0 != root,
    {
        assert(self.links_root(root));
    }

    /// The tables that the lookup of a page outside the reserved part passes
    /// through, from a level 4 table down, stand at the levels 3, 2 and 1, and
    /// each is referred to by the entry through which the lookup came.
    pub proof fn lemma_walk(&self, root: u64, page: u64)
        requires
            self.wf(),
            self.is_root(root),
            !is_reserved(page),
        ensures
            next_table(self@, root, p4_index_of(page)) matches Some(p3) ==> self.level(p3) == 3
                && self.owner(p3) == (root, p4_index_of(page)),
            next_table(self@, root, p4_index_of(page)) is None ==> !entry_used(
                self@[root][p4_index_of(page)],
            ),
            p2_table(self@, root, page) matches Some(p2) ==> self.level(p2) == 2 && self.owner(p2)
                == (next_table(self@, root, p4_index_of(page))->Some_0, p3_index_of(page)),
            (next_table(self@, root, p4_index_of(page)) matches Some(p3) && p2_table(
                self@,
                root,
                page,
            ) is None) ==> !entry_used(
                self@[next_table(self@, root, p4_index_of(page))->Some_0][p3_index_of(page)],
            ),
            p1_table(self@, root, page) matches Some(p1) ==> self.level(p1) == 1 && self.owner(p1)
                == (p2_table(self@, root, page)->Some_0, p2_index_of(page)),
            (p2_table(self@, root, page) matches Some(p2) && p1_table(self@, root, page) is None)
                ==> !entry_used(self@[p2_table(self@, root, page)->Some_0][p2_index_of(page)]),
    {
        self.lemma_next_table(root, p4_index_of(page));
        if let Some(p3) = next_table(self@, root, p4_index_of(page)) {
            self.lemma_next_table(p3, p3_index_of(page));
            if let Some(p2) = next_table(self@, p3, p3_index_of(page)) {
                self.lemma_next_table(p2, p2_index_of(page));
            }
        }
    }

    /// Two lookups from level 4 tables that reach the same level 1 table with
    /// the same last index are lookups of the same page from the same table.
    pub proof fn lemma_leaf_is_unshared(&self, root: u64, page: u64, other_root: u64, other: u64)
        requires
            self.wf(),
            self.is_root(root),
            self.is_root(other_root),
            is_page_addr(page),
            is_page_addr(other),
            !is_reserved(page),
            !is_reserved(other),
            p1_table(self@, root, page) is Some,
            p1_table(self@, root, page) == p1_table(self@, other_root, other),
            p1_index_of(page) == p1_index_of(other),
        ensures
            root == other_root,
            page == other,
    {
        self.lemma_walk(root, page);
        self.lemma_walk(other_root, other);
        lemma_indices_determine_page(page, other);
    }

    /// A new, empty table under an unused entry changes no translation.
    pub proof fn lemma_new_table_keeps_translations(
        &self,
        parent: u64,
        index: int,
        frame: u64,
        root: u64,
        page: u64,
    )
        requires
            self.wf(),
            self@.dom().contains(parent),
            self.level(parent) >= 2,
            0 <= index < 512,
            !(self.level(parent) == 4 && index == 511),
            !entry_used(self@[parent][index]),
            !self@.dom().contains(frame),
            self.is_root(root),
            !is_reserved(page),
        ensures
            translation(with_new_table(self@, parent, index, frame), root, page) == translation(
                self@,
                root,
                page,
            ),
    {
        let before = self@;
        let after = with_new_table(before, parent, index, frame);
        self.lemma_walk(root, page);
        self.lemma_table(parent);
        self.lemma_table(root);
        let i4 = p4_index_of(page);
        let i3 = p3_index_of(page);
        let i2 = p2_index_of(page);
        let i1 = p1_index_of(page);
        assert(after[frame] == empty_table());
        assert(forall|i: int| 0 <= i < 512 ==> !entry_used(#[trigger] empty_table()[i]));
        if root == parent && i4 == index {
            assert(next_table(after, root, i4) == Some(frame));
            assert(next_table(after, frame, i3) is None);
        } else {
            assert(after[root][i4] == before[root][i4]);
            match next_table(before, root, i4) {
                Some(p3) => {
                    self.lemma_table(p3);
                    assert(next_table(after, root, i4) == Some(p3));
                    if p3 == parent && i3 == index {
                        assert(next_table(after, p3, i3) == Some(frame));
                        assert(next_table(after, frame, i2) is None);
                    } else {
                        assert(after[p3][i3] == before[p3][i3]);
                        match next_table(before, p3, i3) {
                            Some(p2) => {
                                self.lemma_table(p2);
                                assert(next_table(after, p3, i3) == Some(p2));
                                if p2 == parent && i2 == index {
                                    assert(next_table(after, p2, i2) == Some(frame));
                                    assert(!entry_used(after[frame][i1]));
                                } else {
                                    assert(after[p2][i2] == before[p2][i2]);
                                    match next_table(before, p2, i2) {
                                        Some(p1) => {
                                            assert(next_table(after, p2, i2) == Some(p1));
                                            assert(after[p1] == before[p1]);
                                        },
                                        None => {
                                            assert(next_table(after, p2, i2) is None);
                                        },
                                    }
                                }
                            },
                            None => {
                                assert(next_table(after, p3, i3) is None);
                            },
                        }
                    }
                },
                None => {
                    assert(next_table(after, root, i4) is None);
                },
            }
        }
    }

    /// A new, empty table under an unused entry leaves every table where the
    /// lookup of a page reached it, and stands itself where the lookup ended
    /// for want of it.
    pub proof fn lemma_new_table_extends_walk(
        &self,
        parent: u64,
        index: int,
        frame: u64,
        table: u64,
        slot: int,
    )
        requires
            self.wf(),
            self@.dom().contains(parent),
            self.level(parent) >= 2,
            0 <= index < 512,
            !(self.level(parent) == 4 && index == 511),
            !entry_used(self@[parent][index]),
            !self@.dom().contains(frame),
            self@.dom().contains(table),
            0 <= slot < 512,
        ensures
            (table == parent && slot == index) ==> next_table(
                with_new_table(self@, parent, index, frame),
                table,
                slot,
            ) == Some(frame),
            next_table(self@, table, slot) is Some ==> next_table(
                with_new_table(self@, parent, index, frame),
                table,
                slot,
            ) == next_table(self@, table, slot),
            forall|i: int|
                0 <= i < 512 ==> !entry_used(
                    #[trigger] with_new_table(self@, parent, index, frame)[frame][i],
                ),
    {
        self.lemma_table(parent);
        self.lemma_table(table);
        let after = with_new_table(self@, parent, index, frame);
        assert(after[frame] == empty_table());
        if !(table == parent && slot == index) {
            assert(after[table][slot] == self@[table][slot]);
        }
    }

    /// A change of one entry of a level 1 table changes the translation of
    /// the one page whose lookup ends at that entry, and no other.
    pub proof fn lemma_leaf_changes_one_translation(
        &self,
        root: u64,
        page: u64,
        entry: (u64, u64),
        other_root: u64,
        other: u64,
    )
        requires
            self.wf(),
            self.is_root(root),
            self.is_root(other_root),
            is_page_addr(page),
            is_page_addr(other),
            !is_reserved(page),
            !is_reserved(other),
            p1_table(self@, root, page) is Some,
        ensures
            translation(
                with_entry(self@, p1_table(self@, root, page)->Some_0, p1_index_of(page), entry),
                other_root,
                other,
            ) == if other_root == root && other == page {
                if entry_used(entry) {
                    Some(entry)
                } else {
                    None
                }
            } else {
                translation(self@, other_root, other)
            },
    {
        let before = self@;
        let table = p1_table(before, root, page)->Some_0;
        let index = p1_index_of(page);
        let after = with_entry(before, table, index, entry);
        self.lemma_walk(root, page);
        self.lemma_walk(other_root, other);
        self.lemma_table(table);
        self.lemma_table(other_root);
        let i4 = p4_index_of(other);
        let i3 = p3_index_of(other);
        let i2 = p2_index_of(other);
        let i1 = p1_index_of(other);
        assert(after[other_root] == before[other_root]);
        assert(next_table(after, other_root, i4) == next_table(before, other_root, i4));
        if let Some(p3) = next_table(before, other_root, i4) {
            assert(after[p3] == before[p3]);
            assert(next_table(after, p3, i3) == next_table(before, p3, i3));
            if let Some(p2) = next_table(before, p3, i3) {
                assert(after[p2] == before[p2]);
                assert(next_table(after, p2, i2) == next_table(before, p2, i2));
                if let Some(p1) = next_table(before, p2, i2) {
                    if p1 == table && i1 == index {
                        self.lemma_leaf_is_unshared(root, page, other_root, other);
                        assert(after[p1][i1] == entry);
                    } else {
                        self.lemma_table(p1);
                        assert(after[p1][i1] == before[p1][i1]);
                    }
                }
            }
        }
    }

    /// A change of the level 1 entry of a page changes, in the address space
    /// of its level 4 table, that page alone, and nothing in any other address
    /// space.
    pub proof fn lemma_leaf_changes_one_mapping(
        &self,
        after: Tables,
        root: u64,
        page: u64,
        entry: (u64, u64),
    )
        requires
            self.wf(),
            self.is_root(root),
            is_page_addr(page),
            !is_reserved(page),
            p1_table(self@, root, page) is Some,
            after == with_entry(self@, p1_table(self@, root, page)->Some_0, p1_index_of(page),
                entry),
        ensures
            mappings(after, root) == if entry_used(entry) {
                mappings(self@, root).insert(page, entry)
            } else {
                mappings(self@, root).remove(page)
            },
            forall|other_root: u64|
                self.is_root(other_root) && other_root != root ==> #[trigger] mappings(
                    after,
                    other_root,
                ) == mappings(self@, other_root),
    {
        let target = if entry_used(entry) {
            mappings(self@, root).insert(page, entry)
        } else {
            mappings(self@, root).remove(page)
        };
        assert forall|other: u64| is_page_addr(other) && !is_reserved(other) implies translation(
            after,
            root,
            other,
        ) == if other == page {
            if entry_used(entry) {
                Some(entry)
            } else {
                None
            }
        } else {
            translation(self@, root, other)
        } by {
            self.lemma_leaf_changes_one_translation(root, page, entry, root, other);
        }
        assert(mappings(after, root) =~= target);
        assert forall|other_root: u64|
            self.is_root(other_root) && other_root != root implies #[trigger] mappings(
            after,
            other_root,
        ) == mappings(self@, other_root) by {
            assert forall|other: u64|
                is_page_addr(other) && !is_reserved(other) implies translation(
                after,
                other_root,
                other,
            ) == translation(self@, other_root, other) by {
                self.lemma_leaf_changes_one_translation(root, page, entry, other_root, other);
            }
            assert(mappings(after, other_root) =~= mappings(self@, other_root));
        }
    }

    /// A change of the reserved entry of a level 4 table changes no address
    /// space.
    pub proof fn lemma_recursive_entry_keeps_mappings(
        &self,
        changed: u64,
        entry: (u64, u64),
        root: u64,
    )
        requires
            self.wf(),
            self.is_root(changed),
            self.is_root(root),
        ensures
            mappings(with_entry(self@, changed, 511, entry), root) == mappings(self@, root),
    {
        let after = with_entry(self@, changed, 511, entry);
        assert forall|page: u64| !is_reserved(page) implies translation(after, root, page)
            == translation(self@, root, page) by {
            self.lemma_recursive_entry_keeps_translations(changed, entry, root, page);
        }
        assert(mappings(after, root) =~= mappings(self@, root));
    }

    /// A new level 4 table has an empty address space and changes no other.
    pub proof fn lemma_new_root_keeps_mappings(&self, frame: u64, root: u64)
        requires
            self.wf(),
            !self@.dom().contains(frame),
            self.is_root(root) || root == frame,
        ensures
            mappings(with_new_root(self@, frame), root) == if root == frame {
                Map::<u64, (u64, u64)>::empty()
            } else {
                mappings(self@, root)
            },
    {
        let after = with_new_root(self@, frame);
        assert forall|page: u64| !is_reserved(page) implies translation(after, root, page)
            == if root
            == frame {
            None
        } else {
            translation(self@, root, page)
        } by {
            self.lemma_new_root_keeps_translations(frame, root, page);
        }
        if root == frame {
            assert(mappings(after, root) =~= Map::<u64, (u64, u64)>::empty());
        } else {
            assert(mappings(after, root) =~= mappings(self@, root));
        }
    }

    /// A change of the reserved entry of a level 4 table changes no
    /// translation of a page outside the reserved part.
    pub proof fn lemma_recursive_entry_keeps_translations(
        &self,
        changed: u64,
        entry: (u64, u64),
        root: u64,
        page: u64,
    )
        requires
            self.wf(),
            self.is_root(changed),
            self.is_root(root),
            !is_reserved(page),
        ensures
            translation(with_entry(self@, changed, 511, entry), root, page) == translation(
                self@,
                root,
                page,
            ),
    {
        let before = self@;
        let after = with_entry(before, changed, 511, entry);
        self.lemma_walk(root, page);
        self.lemma_table(changed);
        self.lemma_table(root);
        let i4 = p4_index_of(page);
        let i3 = p3_index_of(page);
        let i2 = p2_index_of(page);
        assert(after[root][i4] == before[root][i4]);
        assert(next_table(after, root, i4) == next_table(before, root, i4));
        if let Some(p3) = next_table(before, root, i4) {
            assert(after[p3] == before[p3]);
            assert(next_table(after, p3, i3) == next_table(before, p3, i3));
            if let Some(p2) = next_table(before, p3, i3) {
                assert(after[p2] == before[p2]);
                assert(next_table(after, p2, i2) == next_table(before, p2, i2));
                if let Some(p1) = next_table(before, p2, i2) {
                    assert(after[p1] == before[p1]);
                }
            }
        }
    }

    /// A new level 4 table maps no page outside the reserved part, and
    /// changes nothing under any other level 4 table.
    pub proof fn lemma_new_root_keeps_translations(&self, frame: u64, root: u64, page: u64)
        requires
            self.wf(),
            !self@.dom().contains(frame),
            self.is_root(root) || root == frame,
            !is_reserved(page),
        ensures
            translation(with_new_root(self@, frame), root, page) == if root == frame {
                None
            } else {
                translation(self@, root, page)
            },
    {
        let before = self@;
        let after = with_new_root(before, frame);
        let i4 = p4_index_of(page);
        let i3 = p3_index_of(page);
        let i2 = p2_index_of(page);
        if root == frame {
            assert(after[frame][i4] == unused_entry());
            assert(next_table(after, root, i4) is None);
        } else {
            self.lemma_walk(root, page);
            assert(after[root] == before[root]);
            assert(next_table(after, root, i4) == next_table(before, root, i4));
            if let Some(p3) = next_table(before, root, i4) {
                assert(after[p3] == before[p3]);
                assert(next_table(after, p3, i3) == next_table(before, p3, i3));
                if let Some(p2) = next_table(before, p3, i3) {
                    assert(after[p2] == before[p2]);
                    assert(next_table(after, p2, i2) == next_table(before, p2, i2));
                    if let Some(p1) = next_table(before, p2, i2) {
                        assert(after[p1] == before[p1]);
                    }
                }
            }
        }
    }

    /// No table at all.
    pub fn new() -> (r: Self)
        ensures
            r.wf(),
            r@ == Map::<u64, Seq<(u64, u64)>>::empty(),
            r.redirected() is None,
    {
        PageTables {
            memory: TableMemory::new(),
            levels: Ghost(Map::empty()),
            owners: Ghost(Map::empty()),
            redirected: Ghost(None),
        }
    }

    /// The frames that hold a table, each once.
    pub fn frames(&self) -> (r: Vec<u64>)
        requires
            self.wf(),
        ensures
            forall|frame: u64| self@.dom().contains(frame) <==> r@.contains(frame),
            r@.no_duplicates(),
            forall|i: int| 0 <= i < r@.len() ==> is_frame_addr(#[trigger] r@[i]),
    {
        let r = self.memory.frames();
        proof {
            assert forall|i: int| 0 <= i < r@.len() implies is_frame_addr(#[trigger] r@[i]) by {
                assert(r@.contains(r@[i]));
                assert(self@.dom().contains(r@[i]));
            }
        }
        r
    }

    /// Whether `frame` holds a table.
    pub fn contains(&self, frame: u64) -> (r: bool)
        requires
            self.wf(),
        ensures
            r == self@.dom().contains(frame),
    {
        self.memory.contains(frame)
    }

    /// The entry `index` of the table in `frame`.
    pub fn read(&self, frame: u64, index: usize) -> (entry: (u64, u64))
        requires
            self.wf(),
            self@.dom().contains(frame),
            index < 512,
        ensures
            entry == self@[frame][index as int],
            is_frame_addr(entry.0),
            is_flag_bits(entry.1),
    {
        self.memory.read(frame, index)
    }

    /// The table that entry `index` of `table` refers to.
    pub fn step(&self, table: u64, index: usize) -> (r: Option<u64>)
        requires
            self.wf(),
            index < 512,
        ensures
            r == next_table(self@, table, index as int),
            r is Some ==> is_frame_addr(r->Some_0),
    {
        if !self.memory.contains(table) {
            return None;
        }
        let entry: (u64, u64) = self.memory.read(table, index);
        if entry.0 == 0 && entry.1 == 0 {
            return None;
        }
        if !self.memory.contains(entry.0) {
            return None;
        }
        Some(entry.0)
    }

    /// The table that entry `index` of `table` refers to; where the entry is
    /// unused, a new table in the next frame of `allocator`.
    ///
    /// Fails with `Exhaustion` where a frame is needed and the allocator has
    /// none, and with `UsageViolation` where the frame that it hands out
    /// already holds a table.
    pub fn step_or_create<A: FrameAllocator>(
        &mut self,
        table: u64,
        index: usize,
        allocator: &mut A,
    ) -> (r: Result<u64, MemoryError>)
        requires
            old(self).wf(),
            old(self)@.dom().contains(table),
            old(self).level(table) >= 2,
            index < 512,
            !(old(self).level(table) == 4 && index == 511),
        ensures
            final(self).wf(),
            final(self).extends(*old(self)),
            final(self).redirected() == old(self).redirected(),
            r == next_or_create_result(old(self)@, table, index as int,
                old(allocator).next_frame()),
            r is Ok ==> next_table(final(self)@, table, index as int) == Some(r->Ok_0)
                && final(self)@.dom().contains(r->Ok_0) && final(self).level(r->Ok_0) + 1
                    == old(self).level(table)
                && is_frame_addr(r->Ok_0),
            (next_table(old(self)@, table, index as int) is None && r is Ok) ==> final(self)@.dom()
                == old(self)@.dom().insert(r->Ok_0) && is_empty_table(final(self)@, r->Ok_0),
            !(next_table(old(self)@, table, index as int) is None && r is Ok) ==> final(self)@
                == old(self)@,
            *final(allocator) == if next_table(old(self)@, table, index as int) is Some {
                *old(allocator)
            } else {
                old(allocator).after_allocation()
            },
    {
        proof {
            self.lemma_next_table(table, index as int);
        }
        let r: Result<u64, MemoryError> = match self.step(table, index) {
            Some(child) => Ok(child),
            None => {
                match allocator.allocate_frame() {
                    None => Err(MemoryError::Exhaustion),
                    Some(frame) => {
                        let addr: u64 = frame.as_u64();
                        if self.memory.contains(addr) {
                            Err(MemoryError::UsageViolation)
                        } else {
                            self.create_table(table, index, addr);
                            Ok(addr)
                        }
                    },
                }
            },
        };
        proof {
            self.lemma_step_or_create(*old(self), table, index as int, old(allocator).next_frame());
        }
        r
    }

    /// Whether `self` has come from `before` by steps that change no
    /// translation: every table of `before` is still there, at its level and
    /// where a lookup found it, the level 4 tables and their reserved entries
    /// are the same, and every page outside the reserved part translates as
    /// it did.
    #[verifier::opaque]
    pub open spec fn extends(&self, before: PageTables) -> bool {
        &&& self.redirected() == before.redirected()
        &&& forall|f: u64|
            before@.dom().contains(f) ==> #[trigger] self@.dom().contains(f) && self.level(f)
                == before.level(f)
        &&& forall|f: u64| #[trigger] self.is_root(f) ==> before.is_root(f)
        &&& forall|f: u64| before.is_root(f) ==> #[trigger] self@[f][511] == before@[f][511]
        &&& forall|t: u64, i: int|
            before@.dom().contains(t) && 0 <= i < 512 && next_table(before@, t, i) is Some
                ==> #[trigger] next_table(self@, t, i) == next_table(before@, t, i)
        &&& forall|root: u64, page: u64|
            before.is_root(root) && !is_reserved(page) ==> #[trigger] translation(
                self@,
                root,
                page,
            ) == translation(before@, root, page)
    }

    /// Tables extend themselves.
    pub proof fn lemma_extends_refl(&self)
        ensures
            self.extends(*self),
    {
        reveal(PageTables::extends);
    }

    /// Extending is transitive.
    pub proof fn lemma_extends_trans(&self, middle: PageTables, before: PageTables)
        requires
            self.extends(middle),
            middle.extends(before),
        ensures
            self.extends(before),
    {
        reveal(PageTables::extends);
        assert forall|t: u64, i: int|
            before@.dom().contains(t) && 0 <= i < 512 && next_table(before@, t, i) is Some
                implies #[trigger] next_table(self@, t, i) == next_table(before@, t, i) by {
            assert(next_table(middle@, t, i) == next_table(before@, t, i));
            assert(middle@.dom().contains(t));
        }
        assert forall|root: u64, page: u64|
            before.is_root(root) && !is_reserved(page) implies #[trigger] translation(
            self@,
            root,
            page,
        ) == translation(before@, root, page) by {
            assert(translation(middle@, root, page) == translation(before@, root, page));
            assert(middle@.dom().contains(root));
            assert(middle.is_root(root));
        }
        assert forall|f: u64| before.is_root(f) implies #[trigger] self@[f][511]
            == before@[f][511] by {
            assert(middle@.dom().contains(f));
            assert(middle.is_root(f));
            assert(middle@[f][511] == before@[f][511]);
        }
        assert forall|f: u64| before@.dom().contains(f) implies #[trigger] self@.dom().contains(f)
            && self.level(f) == before.level(f) by {
            assert(middle@.dom().contains(f));
        }
    }

    /// What an extension keeps, for one table, one entry, one level 4 table
    /// and one page.
    pub proof fn lemma_extends_keeps(
        &self,
        before: PageTables,
        table: u64,
        index: int,
        root: u64,
        page: u64,
    )
        requires
            self.extends(before),
        ensures
            self.redirected() == before.redirected(),
            before@.dom().contains(table) ==> self@.dom().contains(table) && self.level(table)
                == before.level(table),
            self.is_root(root) == before.is_root(root),
            before.is_root(root) ==> self@[root][511] == before@[root][511],
            (before@.dom().contains(table) && 0 <= index < 512 && next_table(before@, table, index)
                is Some) ==> next_table(self@, table, index) == next_table(before@, table, index),
            (before.is_root(root) && !is_reserved(page)) ==> translation(self@, root, page)
                == translation(before@, root, page),
            before.is_root(root) ==> mappings(self@, root) == mappings(before@, root),
    {
        reveal(PageTables::extends);
        if before.is_root(root) {
            assert(self@.dom().contains(root));
            assert(mappings(self@, root) =~= mappings(before@, root));
        }
    }

    /// An extension keeps the level 1 table that the lookup of a page
    /// reaches.
    pub proof fn lemma_extends_keeps_reach(&self, before: PageTables, root: u64, page: u64)
        requires
            self.extends(before),
            p1_table(before@, root, page) is Some,
        ensures
            p1_table(self@, root, page) == p1_table(before@, root, page),
    {
        reveal(PageTables::extends);
        let p3 = next_table(before@, root, p4_index_of(page))->Some_0;
        let p2 = next_table(before@, p3, p3_index_of(page))->Some_0;
        assert(next_table(self@, root, p4_index_of(page)) == Some(p3));
        assert(next_table(self@, p3, p3_index_of(page)) == Some(p2));
        assert(next_table(self@, p2, p2_index_of(page)) == next_table(
            before@,
            p2,
            p2_index_of(page),
        ));
    }

    /// A change of an entry of a level 1 table, or of the reserved entry of a
    /// level 4 table, keeps the level 1 table that the lookup of a page
    /// outside the reserved part reaches.
    pub proof fn lemma_entry_keeps_reach(
        &self,
        table: u64,
        index: int,
        entry: (u64, u64),
        root: u64,
        page: u64,
    )
        requires
            self.wf(),
            self@.dom().contains(table),
            self.level(table) == 1 || (self.level(table) == 4 && index == 511),
            0 <= index < 512,
            self.is_root(root),
            !is_reserved(page),
        ensures
            p1_table(with_entry(self@, table, index, entry), root, page) == p1_table(
                self@,
                root,
                page,
            ),
    {
        let before = self@;
        let after = with_entry(before, table, index, entry);
        self.lemma_walk(root, page);
        self.lemma_table(table);
        self.lemma_table(root);
        let i4 = p4_index_of(page);
        let i3 = p3_index_of(page);
        let i2 = p2_index_of(page);
        assert(after[root][i4] == before[root][i4]);
        assert(next_table(after, root, i4) == next_table(before, root, i4));
        if let Some(p3) = next_table(before, root, i4) {
            assert(after[p3] == before[p3]);
            assert(next_table(after, p3, i3) == next_table(before, p3, i3));
            if let Some(p2) = next_table(before, p3, i3) {
                assert(after[p2] == before[p2]);
                assert(next_table(after, p2, i2) == next_table(before, p2, i2));
            }
        }
    }

    /// A new level 4 table keeps the level 1 table that the lookup of a page
    /// from another level 4 table reaches.
    pub proof fn lemma_new_root_keeps_reach(&self, frame: u64, root: u64, page: u64)
        requires
            self.wf(),
            !self@.dom().contains(frame),
            self.is_root(root),
            !is_reserved(page),
        ensures
            p1_table(with_new_root(self@, frame), root, page) == p1_table(self@, root, page),
    {
        let before = self@;
        let after = with_new_root(before, frame);
        self.lemma_walk(root, page);
        let i4 = p4_index_of(page);
        let i3 = p3_index_of(page);
        let i2 = p2_index_of(page);
        assert(after[root] == before[root]);
        assert(next_table(after, root, i4) == next_table(before, root, i4));
        if let Some(p3) = next_table(before, root, i4) {
            assert(after[p3] == before[p3]);
            assert(next_table(after, p3, i3) == next_table(before, p3, i3));
            if let Some(p2) = next_table(before, p3, i3) {
                assert(after[p2] == before[p2]);
                assert(next_table(after, p2, i2) == next_table(before, p2, i2));
            }
        }
    }

    /// What one step of a lookup that makes missing tables does to the
    /// tables.
    proof fn lemma_step_or_create(
        &self,
        before: PageTables,
        table: u64,
        index: int,
        next: Option<u64>,
    )
        requires
            before.wf(),
            before@.dom().contains(table),
            before.level(table) >= 2,
            0 <= index < 512,
            !(before.level(table) == 4 && index == 511),
            self@ == next_or_create_tables(before@, table, index, next),
            self.redirected() == before.redirected(),
            forall|f: u64| before@.dom().contains(f) ==> self.level(f) == before.level(f),
            (next_table(before@, table, index) is None && next_or_create_result(
                before@,
                table,
                index,
                next,
            ) is Ok) ==> self.level(next->Some_0) + 1 == before.level(table),
        ensures
            self.extends(before),
            next_or_create_result(before@, table, index, next) matches Ok(child) ==> next_table(
                self@,
                table,
                index,
            ) == Some(child),
            (next_table(before@, table, index) is None && next_or_create_result(
                before@,
                table,
                index,
                next,
            ) is Ok) ==> self@.dom() == before@.dom().insert(next->Some_0) && is_empty_table(
                self@,
                next->Some_0,
            ),
            !(next_table(before@, table, index) is None && next_or_create_result(
                before@,
                table,
                index,
                next,
            ) is Ok) ==> self@ == before@,
    {
        reveal(PageTables::extends);
        before.lemma_next_table(table, index);
        if next_table(before@, table, index) is None && next_or_create_result(
            before@,
            table,
            index,
            next,
        ) is Ok {
            let frame = next->Some_0;
            let after = self@;
            assert(after == with_new_table(before@, table, index, frame));
            assert forall|root: u64, page: u64|
                before.is_root(root) && !is_reserved(page) implies #[trigger] translation(
                after,
                root,
                page,
            ) == translation(before@, root, page) by {
                before.lemma_new_table_keeps_translations(table, index, frame, root, page);
            }
            assert forall|t: u64, i: int|
                before@.dom().contains(t) && 0 <= i < 512 && next_table(before@, t, i) is Some
                    implies #[trigger] next_table(after, t, i) == next_table(before@, t, i) by {
                before.lemma_new_table_extends_walk(table, index, frame, t, i);
            }
            before.lemma_new_table_extends_walk(table, index, frame, table, index);
            assert(after.dom() =~= before@.dom().insert(frame));
            before.lemma_table(table);
            assert forall|f: u64| before.is_root(f) implies #[trigger] after[f][511]
                == before@[f][511] by {
                before.lemma_table(f);
            }
            assert forall|f: u64| #[trigger] self.is_root(f) implies before.is_root(f) by {
                if f == frame {
                    assert(self.level(frame) + 1 == before.level(table));
                }
            }
        }
    }

    /// One step of a lookup that makes missing tables makes a table, if any,
    /// in the frame that the allocator hands out at that step.
    proof fn lemma_step_came_from<A: FrameAllocator>(
        start: Tables,
        before: Tables,
        after: Tables,
        allocator: A,
        calls_before: nat,
        calls_after: nat,
    )
        requires
            forall|f: u64| #[trigger] came_from(start, before, allocator, calls_before, f),
            (after == before && calls_after == calls_before) || (calls_after == calls_before + 1
                && after_allocations(allocator, calls_before).next_frame() is Some && after.dom()
                == before.dom().insert(
                after_allocations(allocator, calls_before).next_frame()->Some_0,
            )),
        ensures
            forall|f: u64| #[trigger] came_from(start, after, allocator, calls_after, f),
    {
        assert forall|f: u64| #[trigger] came_from(start, after, allocator, calls_after, f) by {
            assert(came_from(start, before, allocator, calls_before, f));
            if after.dom().contains(f) && !start.dom().contains(f) {
                if before.dom().contains(f) {
                    crate::memory::allocator::lemma_handed_out_grows(
                        allocator,
                        calls_before,
                        calls_after,
                        f,
                    );
                } else {
                    assert(after_allocations(allocator, calls_before).next_frame() == Some(f));
                }
            }
        }
    }

    /// Tables that came from the frames of some calls came from the frames of
    /// more calls.
    proof fn lemma_came_from_more<A: FrameAllocator>(
        start: Tables,
        after: Tables,
        allocator: A,
        fewer: nat,
        more: nat,
    )
        requires
            fewer <= more,
            forall|f: u64| #[trigger] came_from(start, after, allocator, fewer, f),
        ensures
            forall|f: u64| #[trigger] came_from(start, after, allocator, more, f),
    {
        assert forall|f: u64| #[trigger] came_from(start, after, allocator, more, f) by {
            assert(came_from(start, after, allocator, fewer, f));
            if after.dom().contains(f) && !start.dom().contains(f) {
                crate::memory::allocator::lemma_handed_out_grows(allocator, fewer, more, f);
            }
        }
    }

    /// The level 1 table for `page` under the level 4 table `root`; the
    /// tables that are missing on the way to it are made in frames that
    /// `allocator` hands out.
    ///
    /// Fails where the allocator cannot supply the frames for the missing
    /// tables: with `Exhaustion` where it has none left, with
    /// `UsageViolation` where it hands out a frame that already holds a table.
    /// The tables made before the failure stay; they translate nothing.
    pub fn walk_or_create<A: FrameAllocator>(
        &mut self,
        root: u64,
        page: Page,
        allocator: &mut A,
    ) -> (r: Result<u64, MemoryError>)
        requires
            old(self).wf(),
            old(self).is_root(root),
            !is_reserved(page@),
        ensures
            final(self).wf(),
            final(self).extends(*old(self)),
            final(self).redirected() == old(self).redirected(),
            forall|f: u64| old(self).is_root(f) ==> #[trigger] final(self).is_root(f),
            r is Ok ==> p1_table(final(self)@, root, page@) == Some(r->Ok_0) && final(self).level(
                r->Ok_0,
            ) == 1,
            r is Err <==> supply_error(
                *old(allocator),
                old(self)@.dom(),
                missing_tables(old(self)@, root, page@),
            ) is Some,
            r is Err ==> Some(r->Err_0) == supply_error(
                *old(allocator),
                old(self)@.dom(),
                missing_tables(old(self)@, root, page@),
            ),
            *final(allocator) == after_allocations(
                *old(allocator),
                supply_calls(
                    *old(allocator),
                    old(self)@.dom(),
                    missing_tables(old(self)@, root, page@),
                ),
            ),
            forall|f: u64| #[trigger]
                came_from(
                    old(self)@,
                    final(self)@,
                    *old(allocator),
                    supply_calls(
                        *old(allocator),
                        old(self)@.dom(),
                        missing_tables(old(self)@, root, page@),
                    ),
                    f,
                ),
    {
        let i4: usize = page.p4_index().as_usize();
        let i3: usize = page.p3_index().as_usize();
        let i2: usize = page.p2_index().as_usize();
        let ghost t0 = *self;
        let ghost a0 = *allocator;
        let ghost m0 = missing_tables(t0@, root, page@);
        proof {
            t0.lemma_walk(root, page@);
            t0.lemma_extends_refl();
            reveal_with_fuel(supply_error, 2);
            reveal_with_fuel(supply_calls, 2);
            reveal_with_fuel(after_allocations, 2);
        }
        let ghost total = supply_calls(a0, t0@.dom(), m0);
        proof {
            assert forall|f: u64| #[trigger] came_from(t0@, t0@, a0, 0, f) by {}
        }
        let p3: u64 = match self.step_or_create(root, i4, allocator) {
            Ok(table) => table,
            Err(e) => {
                proof {
                    assert forall|f: u64| old(self).is_root(f) implies #[trigger] self.is_root(
                        f,
                    ) by {
                        self.lemma_extends_keeps(t0, f, 0, f, 0);
                    }
                    Self::lemma_came_from_more(t0@, self@, a0, 0, total);
                }
                return Err(e);
            },
        };
        let ghost t1 = *self;
        let ghost a1 = *allocator;
        let ghost m1 = missing_tables(t1@, root, page@);
        let ghost c1: nat = if m0 == 3 {
            1
        } else {
            0
        };
        proof {
            assert(m0 == 3 ==> !entry_used(t1@[p3][i3 as int]));
            assert(m0 == 3 ==> m1 == 2);
            assert(m0 != 3 ==> m1 == m0);
            assert(a1 == after_allocations(a0, c1));
            assert(supply_error(a0, t0@.dom(), m0) == supply_error(a1, t1@.dom(), m1));
            assert(supply_calls(a0, t0@.dom(), m0) == c1 + supply_calls(a1, t1@.dom(), m1));
            lemma_after_allocations_next(a0, c1);
            Self::lemma_step_came_from(t0@, t0@, t1@, a0, 0, c1);
        }
        let p2: u64 = match self.step_or_create(p3, i3, allocator) {
            Ok(table) => table,
            Err(e) => {
                proof {
                    self.lemma_extends_trans(t1, t0);
                    assert forall|f: u64| old(self).is_root(f) implies #[trigger] self.is_root(
                        f,
                    ) by {
                        self.lemma_extends_keeps(t0, f, 0, f, 0);
                    }
                    Self::lemma_came_from_more(t0@, self@, a0, c1, total);
                }
                return Err(e);
            },
        };
        let ghost t2 = *self;
        let ghost a2 = *allocator;
        let ghost m2 = missing_tables(t2@, root, page@);
        let ghost c2: nat = if m1 == 2 {
            c1 + 1
        } else {
            c1
        };
        proof {
            t2.lemma_extends_trans(t1, t0);
            t2.lemma_extends_keeps(t1, root, i4 as int, root, page@);
            assert(next_table(t2@, root, i4 as int) == Some(p3));
            assert(m1 == 2 ==> !entry_used(t2@[p2][i2 as int]));
            assert(m1 == 2 ==> m2 == 1);
            assert(m1 != 2 ==> m2 == m1);
            assert(a2 == after_allocations(a0, c2));
            assert(supply_error(a1, t1@.dom(), m1) == supply_error(a2, t2@.dom(), m2));
            assert(supply_calls(a1, t1@.dom(), m1) + c1 == c2 + supply_calls(a2, t2@.dom(), m2));
            lemma_after_allocations_next(a0, c2);
            Self::lemma_step_came_from(t0@, t1@, t2@, a0, c1, c2);
        }
        let p1: u64 = match self.step_or_create(p2, i2, allocator) {
            Ok(table) => table,
            Err(e) => {
                proof {
                    self.lemma_extends_trans(t2, t0);
                    assert forall|f: u64| old(self).is_root(f) implies #[trigger] self.is_root(
                        f,
                    ) by {
                        self.lemma_extends_keeps(t0, f, 0, f, 0);
                    }
                    Self::lemma_came_from_more(t0@, self@, a0, c2, total);
                }
                return Err(e);
            },
        };
        proof {
            let t3 = *self;
            t3.lemma_extends_trans(t2, t0);
            assert forall|f: u64| old(self).is_root(f) implies #[trigger] t3.is_root(f) by {
                t3.lemma_extends_keeps(t0, f, 0, f, 0);
            }
            t3.lemma_extends_keeps(t2, root, i4 as int, root, page@);
            t3.lemma_extends_keeps(t2, p3, i3 as int, root, page@);
            assert(next_table(t3@, root, i4 as int) == Some(p3));
            assert(next_table(t3@, p3, i3 as int) == Some(p2));
            assert(next_table(t3@, p2, i2 as int) == Some(p1));
            let c3: nat = if m2 == 1 {
                c2 + 1
            } else {
                c2
            };
            Self::lemma_step_came_from(t0@, t2@, t3@, a0, c2, c3);
            Self::lemma_came_from_more(t0@, t3@, a0, c3, total);
        }
        Ok(p1)
    }

    /// Makes `frame` a level 4 table that holds nothing but its
    /// self-reference.
    pub fn create_root(&mut self, frame: u64)
        requires
            old(self).wf(),
            !old(self)@.dom().contains(frame),
            is_frame_addr(frame),
        ensures
            final(self).wf(),
            final(self)@ == with_new_root(old(self)@, frame),
            final(self).is_root(frame),
            forall|f: u64| old(self)@.dom().contains(f) ==> final(self).level(f)
                == old(self).level(f),
            final(self).redirected() == old(self).redirected(),
    {
        proof {
            assert(TABLE_FLAGS & 0x000f_ffff_ffff_f000 == 0) by (bit_vector);
        }
        self.memory.install_empty(frame);
        self.memory.write(frame, 511, frame, TABLE_FLAGS);
        proof {
            self.levels@ = self.levels@.insert(frame, 4);
            assert(self@ =~= with_new_root(old(self)@, frame));
            assert forall|f: u64, i: int| self@.dom().contains(f) && 0 <= i < 512 implies
                #[trigger] self.links_down(f, i) by {
                if f != frame {
                    assert(old(self).links_down(f, i));
                }
            }
            assert forall|f: u64| #[trigger] self@.dom().contains(f) implies self.links_root(f) by {
                if f != frame {
                    assert(old(self).links_root(f));
                }
            }
        }
    }

    /// Makes the unused entry `index` of `parent` refer to a new, empty table
    /// in `frame`.
    pub fn create_table(&mut self, parent: u64, index: usize, frame: u64)
        requires
            old(self).wf(),
            old(self)@.dom().contains(parent),
            old(self).level(parent) >= 2,
            index < 512,
            !(old(self).level(parent) == 4 && index == 511),
            !entry_used(old(self)@[parent][index as int]),
            !old(self)@.dom().contains(frame),
            is_frame_addr(frame),
        ensures
            final(self).wf(),
            final(self)@ == with_new_table(old(self)@, parent, index as int, frame),
            final(self).level(frame) + 1 == old(self).level(parent),
            forall|f: u64| old(self)@.dom().contains(f) ==> final(self).level(f)
                == old(self).level(f),
            final(self).redirected() == old(self).redirected(),
    {
        proof {
            assert(TABLE_FLAGS & 0x000f_ffff_ffff_f000 == 0) by (bit_vector);
            old(self).lemma_table(parent);
        }
        self.memory.install_empty(frame);
        self.memory.write(parent, index, frame, TABLE_FLAGS);
        proof {
            let below: nat = (old(self).level(parent) - 1) as nat;
            self.levels@ = self.levels@.insert(frame, below);
            self.owners@ = self.owners@.insert(frame, (parent, index as int));
            assert(self@ =~= with_new_table(old(self)@, parent, index as int, frame));
            assert forall|f: u64, i: int| self@.dom().contains(f) && 0 <= i < 512 implies
                #[trigger] self.links_down(f, i) by {
                if f == frame {
                } else if f == parent && i == index {
                } else {
                    assert(old(self).links_down(f, i));
                    assert(self@[f][i] == old(self)@[f][i]);
                }
            }
            assert forall|f: u64| #[trigger] self@.dom().contains(f) implies self.links_root(f) by {
                if f != frame {
                    assert(old(self).links_root(f));
                    if self.level(f) == 4 {
                        assert(self@[f][511] == old(self)@[f][511]);
                    }
                }
            }
        }
    }

    /// Sets entry `index` of the level 1 table `table` to `addr` with
    /// `flags`.
    pub fn set_leaf(&mut self, table: u64, index: usize, addr: u64, flags: u64)
        requires
            old(self).wf(),
            old(self)@.dom().contains(table),
            old(self).level(table) == 1,
            index < 512,
            is_frame_addr(addr),
            is_flag_bits(flags),
        ensures
            final(self).wf(),
            final(self)@ == with_entry(old(self)@, table, index as int, (addr, flags)),
            forall|f: u64| final(self).level(f) == old(self).level(f),
            final(self).redirected() == old(self).redirected(),
    {
        proof {
            old(self).lemma_table(table);
        }
        self.memory.write(table, index, addr, flags);
        proof {
            assert(self@ =~= with_entry(old(self)@, table, index as int, (addr, flags)));
            assert forall|f: u64, i: int| self@.dom().contains(f) && 0 <= i < 512 implies
                #[trigger] self.links_down(f, i) by {
                assert(old(self).links_down(f, i));
            }
            assert forall|f: u64| #[trigger] self@.dom().contains(f) implies self.links_root(f) by {
                assert(old(self).links_root(f));
            }
        }
    }

    /// Sets entry `index` of the level 1 table `table` to zero.
    pub fn clear_leaf(&mut self, table: u64, index: usize)
        requires
            old(self).wf(),
            old(self)@.dom().contains(table),
            old(self).level(table) == 1,
            index < 512,
        ensures
            final(self).wf(),
            final(self)@ == with_entry(old(self)@, table, index as int, unused_entry()),
            forall|f: u64| final(self).level(f) == old(self).level(f),
            final(self).redirected() == old(self).redirected(),
    {
        proof {
            old(self).lemma_table(table);
        }
        self.memory.clear(table, index);
        proof {
            assert(self@ =~= with_entry(old(self)@, table, index as int, unused_entry()));
            assert forall|f: u64, i: int| self@.dom().contains(f) && 0 <= i < 512 implies
                #[trigger] self.links_down(f, i) by {
                assert(old(self).links_down(f, i));
            }
            assert forall|f: u64| #[trigger] self@.dom().contains(f) implies self.links_root(f) by {
                assert(old(self).links_root(f));
            }
        }
    }

    /// Makes the reserved entry of the level 4 table `root` refer to the
    /// level 4 table `target`.
    pub fn set_recursive_entry(&mut self, root: u64, target: u64)
        requires
            old(self).wf(),
            old(self).is_root(root),
            old(self).is_root(target),
            is_frame_addr(target),
            old(self).redirected() is None || old(self).redirected() == Some(root),
        ensures
            final(self).wf(),
            final(self)@ == with_entry(old(self)@, root, 511, (target, TABLE_FLAGS)),
            forall|f: u64| final(self).level(f) == old(self).level(f),
            final(self).redirected() == if target == root {
                None
            } else {
                Some(root)
            },
    {
        proof {
            assert(TABLE_FLAGS & 0x000f_ffff_ffff_f000 == 0) by (bit_vector);
            old(self).lemma_table(root);
        }
        self.memory.write(root, 511, target, TABLE_FLAGS);
        proof {
            self.redirected@ = if target == root {
                None
            } else {
                Some(root)
            };
            let before = old(self)@;
            let after = with_entry(before, root, 511, (target, TABLE_FLAGS));
            assert(self@ =~= after);
            assert(after[root][511] == (target, TABLE_FLAGS));
            assert forall|f: u64, i: int| self@.dom().contains(f) && 0 <= i < 512 implies
                #[trigger] self.links_down(f, i) by {
                assert(old(self).links_down(f, i));
                if f == root {
                    if i != 511 {
                        assert(after[root][i] == before[root][i]);
                    }
                } else {
                    assert(after[f] == before[f]);
                }
            }
            assert forall|f: u64| #[trigger] self@.dom().contains(f) implies self.links_root(f) by {
                assert(old(self).links_root(f));
                if f != root {
                    assert(after[f] == before[f]);
                }
            }
        }
    }
}

} // verus!
