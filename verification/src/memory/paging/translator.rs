//! The address translator: maps pages to frames, takes mappings away and
//! translates addresses, in the address space that the recursive
//! self-reference of the active level 4 table shows.

use vstd::prelude::*;
use crate::memory::address::{
    align_down, is_page_addr, Page, PageTableFlags, PageTableIndex, PhysAddr, PhysFrame, VirtAddr,
    LOWER_HALF_END, PAGE_SIZE,
};
use crate::memory::allocator::{after_allocations, FrameAllocator};
use crate::memory::paging::address_space::{after_map, after_unmap, frame_of, is_mapped};
use crate::memory::paging::tables::{
    came_from, is_reserved, lemma_supply_calls_bounded, mappings, missing_tables, p1_table,
    supply_calls, supply_error, translation, PageTables, Tables,
};
use crate::memory::paging::RECURSIVE_INDEX;
use crate::memory::MemoryError;

verus! {

/// The translation of one page has changed: its entry in the translation
/// cache of the processor must be invalidated.
#[derive(Clone, Copy, PartialEq, Eq, Structural, Debug)]
pub struct MapperFlush {
    /// The page whose cached translation is stale.
    pub page: Page,
}

/// The translation of many pages may have changed: the whole translation
/// cache of the processor must be invalidated.
#[derive(Clone, Copy, PartialEq, Eq, Structural, Debug)]
pub struct MapperFlushAll;

/// Maps, unmaps and translates pages in the address space that the reserved
/// entry of the active level 4 table refers to. That is the active address
/// space itself, except while another one is being populated.
pub struct AddressTranslator {
    tables: PageTables,
    active: u64,
}

impl View for AddressTranslator {
    type V = Map<u64, (u64, u64)>;

    /// The address space that the translator works on: each mapped page
    /// outside the reserved part, by its start address, with the start
    /// address of its frame and its flag bits.
    open spec fn view(&self) -> Map<u64, (u64, u64)> {
        self.mappings_of(self.root())
    }
}

impl AddressTranslator {
    /// What holds of every translator that this crate hands out: the tables
    /// are trees, the active table is a level 4 table, and no level 4 table
    /// but the active one has its reserved entry redirected.
    pub closed spec fn wf(&self) -> bool {
        &&& self.tables.wf()
        &&& self.tables.is_root(self.active)
        &&& crate::memory::address::is_frame_addr(self.active)
        &&& (self.tables.redirected() is Some ==> self.tables.redirected() == Some(self.active))
    }

    /// All translation tables, by the start address of their frame.
    pub closed spec fn tables(&self) -> Tables {
        self.tables@
    }

    /// Start address of the level 4 table that the processor walks: what the
    /// table-base register names.
    pub closed spec fn active_root(&self) -> u64 {
        self.active
    }

    /// Whether `frame` holds a level 4 table.
    pub closed spec fn is_root(&self, frame: u64) -> bool {
        self.tables.is_root(frame)
    }

    /// Whether `frame` holds a translation table.
    pub open spec fn holds_table(&self, frame: u64) -> bool {
        self.tables().dom().contains(frame)
    }

    /// Start address of the level 4 table that the translator works on: the
    /// one that the reserved entry of the active table refers to.
    pub open spec fn root(&self) -> u64 {
        self.tables()[self.active_root()][511].0
    }

    /// Whether the reserved entry of the active table is redirected, so that
    /// the translator works on another address space than the active one.
    pub open spec fn is_populating(&self) -> bool {
        self.root() != self.active_root()
    }

    /// The address space of the level 4 table `root`.
    pub open spec fn mappings_of(&self, root: u64) -> Map<u64, (u64, u64)> {
        mappings(self.tables(), root)
    }

    /// The address space that the processor sees.
    pub open spec fn active_mappings(&self) -> Map<u64, (u64, u64)> {
        self.mappings_of(self.active_root())
    }

    /// What the page that starts at `page` translates to, the reserved part
    /// of the address space included.
    pub open spec fn resolve(&self, page: u64) -> Option<(u64, u64)> {
        translation(self.tables(), self.root(), page)
    }

    /// Whether `self` has come from `before` by mapping and unmapping pages:
    /// the level 4 tables are the same, the translator works on the same one,
    /// no table has gone, and every address space but the one that the
    /// translator works on is unchanged.
    pub open spec fn follows(&self, before: AddressTranslator) -> bool {
        &&& self.active_root() == before.active_root()
        &&& self.root() == before.root()
        &&& forall|f: u64| #[trigger] self.is_root(f) == before.is_root(f)
        &&& forall|f: u64| before.holds_table(f) ==> #[trigger] self.holds_table(f)
        &&& forall|f: u64|
            before.is_root(f) && f != before.root() ==> #[trigger] self.mappings_of(f)
                == before.mappings_of(f)
        &&& forall|page: u64| before.reaches(page) ==> #[trigger] self.reaches(page)
    }

    /// Whether the tables on the way to the entry of the page that starts at
    /// `page` are there, so that mapping the page needs no frame for a table.
    pub open spec fn reaches(&self, page: u64) -> bool {
        !is_reserved(page) && p1_table(self.tables(), self.root(), page) is Some
    }

    /// Why `map_to` fails for the page that starts at `page`, if it does.
    pub open spec fn map_to_error<A: FrameAllocator>(&self, page: u64, allocator: A) -> Option<
        MemoryError,
    > {
        if is_reserved(page) {
            Some(MemoryError::UsageViolation)
        } else if self@.dom().contains(page) {
            Some(MemoryError::AlreadyMapped)
        } else {
            supply_error(
                allocator,
                self.tables().dom(),
                missing_tables(self.tables(), self.root(), page),
            )
        }
    }

    /// How often `map_to` asks the allocator for a frame.
    pub open spec fn map_to_calls<A: FrameAllocator>(&self, page: u64, allocator: A) -> nat {
        if is_reserved(page) || self@.dom().contains(page) {
            0
        } else {
            supply_calls(
                allocator,
                self.tables().dom(),
                missing_tables(self.tables(), self.root(), page),
            )
        }
    }

    /// Why `map` fails for the page that starts at `page`, if it does.
    pub open spec fn map_error<A: FrameAllocator>(&self, page: u64, allocator: A) -> Option<
        MemoryError,
    > {
        if is_reserved(page) {
            Some(MemoryError::UsageViolation)
        } else if self@.dom().contains(page) {
            Some(MemoryError::AlreadyMapped)
        } else {
            match allocator.next_frame() {
                None => Some(MemoryError::Exhaustion),
                Some(frame) => if self.holds_table(frame) {
                    Some(MemoryError::UsageViolation)
                } else {
                    self.map_to_error(page, allocator.after_allocation())
                },
            }
        }
    }

    /// How often `map` asks the allocator for a frame.
    pub open spec fn map_calls<A: FrameAllocator>(&self, page: u64, allocator: A) -> nat {
        if is_reserved(page) || self@.dom().contains(page) {
            0
        } else {
            match allocator.next_frame() {
                None => 1,
                Some(frame) => if self.holds_table(frame) {
                    1
                } else {
                    1 + self.map_to_calls(page, allocator.after_allocation())
                },
            }
        }
    }

    /// Why `identity_map` fails for the frame that starts at `frame`, if it
    /// does.
    pub open spec fn identity_map_error<A: FrameAllocator>(&self, frame: u64, allocator: A)
        -> Option<MemoryError> {
        if !is_page_addr(frame) {
            Some(MemoryError::AlignmentViolation)
        } else {
            self.map_to_error(frame, allocator)
        }
    }

    /// How often `identity_map` asks the allocator for a frame.
    pub open spec fn identity_map_calls<A: FrameAllocator>(&self, frame: u64, allocator: A) -> nat {
        if !is_page_addr(frame) {
            0
        } else {
            self.map_to_calls(frame, allocator)
        }
    }

    /// Mapping one page takes at most three frames for tables, and one more
    /// where the page's own frame comes from the allocator.
    pub proof fn lemma_calls_bounded<A: FrameAllocator>(&self, page: u64, allocator: A)
        ensures
            self.map_to_calls(page, allocator) <= 3,
            self.identity_map_calls(page, allocator) <= 3,
            self.map_calls(page, allocator) <= 4,
    {
        let in_use = self.tables().dom();
        let count = missing_tables(self.tables(), self.root(), page);
        lemma_supply_calls_bounded(allocator, in_use, count);
        lemma_supply_calls_bounded(allocator.after_allocation(), in_use, count);
    }

    /// The active table and the table that the translator works on are level
    /// 4 tables, and the latter refers to itself.
    pub proof fn lemma_roots(&self)
        requires
            self.wf(),
        ensures
            self.is_root(self.active_root()),
            self.is_root(self.root()),
            self.holds_table(self.root()),
            self.tables()[self.root()][511].0 == self.root(),
            crate::memory::address::is_frame_addr(self.active_root()),
    {
        self.tables.lemma_recursive_entry(self.active);
        self.tables.lemma_recursive_entry(self.root());
    }

    /// A translator over a new address space: `root` becomes the active
    /// level 4 table and holds nothing but its self-reference.
    pub fn new(root: PhysFrame) -> (r: Self)
        ensures
            r.wf(),
            r.active_root() == root@,
            r.root() == root@,
            r@ == Map::<u64, (u64, u64)>::empty(),
            forall|f: u64| r.holds_table(f) <==> f == root@,
            forall|f: u64| r.is_root(f) <==> f == root@,
    {
        let mut tables: PageTables = PageTables::new();
        let ghost empty = tables;
        tables.create_root(root.as_u64());
        let r = AddressTranslator { tables, active: root.as_u64() };
        proof {
            empty.lemma_new_root_keeps_mappings(root@, root@);
        }
        r
    }

    /// The level 4 table that the translator works on.
    pub fn p4_frame(&self) -> (r: PhysFrame)
        requires
            self.wf(),
        ensures
            r@ == self.root(),
            self.is_root(r@),
    {
        proof {
            self.lemma_roots();
        }
        let entry: (u64, u64) = self.tables.read(self.active, RECURSIVE_INDEX);
        PhysFrame::new(entry.0)
    }

    /// The level 4 table that the processor walks.
    pub fn active_frame(&self) -> (r: PhysFrame)
        requires
            self.wf(),
        ensures
            r@ == self.active_root(),
            self.is_root(r@),
    {
        PhysFrame::new(self.active)
    }

    /// Whether `frame` holds a translation table.
    pub fn is_table(&self, frame: PhysFrame) -> (r: bool)
        requires
            self.wf(),
        ensures
            r == self.holds_table(frame@),
    {
        self.tables.contains(frame.as_u64())
    }

    /// The frames that hold a translation table, each once.
    pub fn table_frames(&self) -> (r: Vec<PhysFrame>)
        requires
            self.wf(),
        ensures
            forall|frame: u64|
                self.holds_table(frame) <==> exists|i: int|
                    0 <= i < r@.len() && (#[trigger] r@[i])@ == frame,
            forall|i: int, j: int| 0 <= i < j < r@.len() ==> r@[i]@ != r@[j]@,
    {
        let addresses: Vec<u64> = self.tables.frames();
        let mut frames: Vec<PhysFrame> = Vec::new();
        let mut i: usize = 0;
        while i < addresses.len()
            invariant
                0 <= i <= addresses@.len(),
                frames@.len() == i,
                forall|k: int| 0 <= k < addresses@.len() ==> crate::memory::address::is_frame_addr(
                    #[trigger] addresses@[k],
                ),
                forall|k: int| 0 <= k < i ==> (#[trigger] frames@[k])@ == addresses@[k],
            decreases addresses@.len() - i,
        {
            frames.push(PhysFrame::new(addresses[i]));
            i += 1;
        }
        proof {
            assert forall|frame: u64| self.holds_table(frame) <==> exists|i: int|
                0 <= i < frames@.len() && (#[trigger] frames@[i])@ == frame by {
                if self.holds_table(frame) {
                    assert(addresses@.contains(frame));
                    let k = choose|k: int| 0 <= k < addresses@.len() && addresses@[k] == frame;
                    assert(frames@[k]@ == frame);
                }
                if exists|i: int| 0 <= i < frames@.len() && (#[trigger] frames@[i])@ == frame {
                    let k = choose|i: int| 0 <= i < frames@.len() && (#[trigger] frames@[i])@
                        == frame;
                    assert(addresses@[k] == frame);
                    assert(addresses@.contains(frame));
                }
            }
        }
        frames
    }

    /// The entry `index` of the table in `table`: the start address of the
    /// frame that it refers to, and its flags. `None` where `table` holds no
    /// table.
    pub fn read_entry(&self, table: PhysFrame, index: PageTableIndex) -> (r: Option<
        (PhysAddr, PageTableFlags),
    >)
        requires
            self.wf(),
        ensures
            r is Some <==> self.holds_table(table@),
            r matches Some(entry) ==> (entry.0@, entry.1@) == self.tables()[table@][index@],
    {
        if !self.tables.contains(table.as_u64()) {
            return None;
        }
        let entry: (u64, u64) = self.tables.read(table.as_u64(), index.as_usize());
        match PageTableFlags::from_bits(entry.1) {
            Some(flags) => Some((PhysAddr::new(entry.0), flags)),
            None => None,
        }
    }

    /// The frame that `page` translates to from the level 4 table `root`.
    fn translate_from(&self, root: u64, page: Page) -> (r: Option<PhysFrame>)
        requires
            self.wf(),
        ensures
            r is Some <==> translation(self.tables(), root, page@) is Some,
            r is Some ==> r->Some_0@ == translation(self.tables(), root, page@)->Some_0.0,
    {
        let p3: u64 = match self.tables.step(root, page.p4_index().as_usize()) {
            Some(table) => table,
            None => {
                return None;
            },
        };
        let p2: u64 = match self.tables.step(p3, page.p3_index().as_usize()) {
            Some(table) => table,
            None => {
                return None;
            },
        };
        let p1: u64 = match self.tables.step(p2, page.p2_index().as_usize()) {
            Some(table) => table,
            None => {
                return None;
            },
        };
        let entry: (u64, u64) = self.tables.read(p1, page.p1_index().as_usize());
        if entry.0 == 0 && entry.1 == 0 {
            None
        } else {
            Some(PhysFrame::new(entry.0))
        }
    }

    /// The frame that `page` is mapped to.
    ///
    /// Fails with `NotMapped` where the page is not mapped.
    pub fn translate_page(&self, page: Page) -> (r: Result<PhysFrame, MemoryError>)
        requires
            self.wf(),
        ensures
            r is Ok <==> self.resolve(page@) is Some,
            r is Ok ==> r->Ok_0@ == self.resolve(page@)->Some_0.0,
            r is Err ==> r == Err::<PhysFrame, MemoryError>(MemoryError::NotMapped),
            !is_reserved(page@) ==> (r is Ok <==> is_mapped(self@, page@)),
            (!is_reserved(page@) && r is Ok) ==> Some(r->Ok_0@) == frame_of(self@, page@),
    {
        proof {
            use_type_invariant(&page);
        }
        let root: PhysFrame = self.p4_frame();
        match self.translate_from(root.as_u64(), page) {
            Some(frame) => Ok(frame),
            None => Err(MemoryError::NotMapped),
        }
    }

    /// What the tables' extension means for the translator: every address
    /// space is what it was.
    proof fn lemma_extended(&self, before: AddressTranslator)
        requires
            before.wf(),
            self.tables.wf(),
            self.tables.extends(before.tables),
            self.active == before.active,
        ensures
            self.wf(),
            self.follows(before),
            self@ == before@,
            self.mappings_of(before.root()) == before.mappings_of(before.root()),
    {
        before.lemma_roots();
        self.tables.lemma_extends_keeps(
            before.tables,
            before.active,
            0,
            before.active,
            0,
        );
        self.tables.lemma_extends_keeps(before.tables, before.root(), 0, before.root(), 0);
        assert forall|f: u64| #[trigger] self.is_root(f) == before.is_root(f) by {
            self.tables.lemma_extends_keeps(before.tables, f, 0, f, 0);
        }
        assert forall|f: u64| before.holds_table(f) implies #[trigger] self.holds_table(f) by {
            self.tables.lemma_extends_keeps(before.tables, f, 0, f, 0);
        }
        assert forall|f: u64| before.is_root(f) && f != before.root()
            implies #[trigger] self.mappings_of(
            f,
        ) == before.mappings_of(f) by {
            self.tables.lemma_extends_keeps(before.tables, f, 0, f, 0);
        }
        assert forall|page: u64| before.reaches(page) implies #[trigger] self.reaches(page) by {
            self.tables.lemma_extends_keeps_reach(before.tables, before.root(), page);
        }
    }

    /// What a change of one entry of a level 1 table leaves as it was: the
    /// level 4 tables, the one that the translator works on, and the frames
    /// that hold a table.
    proof fn lemma_leaf_changed(&self, after: AddressTranslator, table: u64, index: int,
        entry: (u64, u64))
        requires
            self.wf(),
            after.tables.wf(),
            self.tables@.dom().contains(table),
            self.tables.level(table) == 1,
            0 <= index < 512,
            after.tables@ == crate::memory::paging::tables::with_entry(
                self.tables@,
                table,
                index,
                entry,
            ),
            forall|f: u64| after.tables.level(f) == self.tables.level(f),
            after.tables.redirected() == self.tables.redirected(),
            after.active == self.active,
        ensures
            after.wf(),
            after.active_root() == self.active_root(),
            after.root() == self.root(),
            forall|f: u64| #[trigger] after.is_root(f) == self.is_root(f),
            forall|f: u64| self.holds_table(f) ==> #[trigger] after.holds_table(f),
            forall|page: u64| self.reaches(page) ==> #[trigger] after.reaches(page),
    {
        self.tables.lemma_table(table);
        self.tables.lemma_table(self.active);
        self.lemma_roots();
        assert forall|page: u64| self.reaches(page) implies #[trigger] after.reaches(page) by {
            self.tables.lemma_entry_keeps_reach(table, index, entry, self.root(), page);
        }
    }

    /// Maps `page` to `frame` with `flags`. The tables that are missing on
    /// the way to the page's entry are made in frames that `allocator` hands
    /// out.
    ///
    /// Fails with `UsageViolation` where the page lies in the reserved part
    /// of the address space or the allocator hands out a frame that already
    /// holds a table, with `AlreadyMapped` where the page is mapped, and with
    /// `Exhaustion` where the allocator has no frame left for a table. A
    /// failure changes no address space.
    pub fn map_to<A: FrameAllocator>(
        &mut self,
        page: Page,
        frame: PhysFrame,
        flags: PageTableFlags,
        allocator: &mut A,
    ) -> (r: Result<MapperFlush, MemoryError>)
        requires
            old(self).wf(),
        ensures
            final(self).wf(),
            final(self).follows(*old(self)),
            r is Ok ==> r->Ok_0.page == page && final(self).reaches(page@),
            r is Ok ==> final(self)@ == after_map(old(self)@, page@, frame@, flags@),
            r is Err ==> final(self)@ == old(self)@,
            r is Err <==> old(self).map_to_error(page@, *old(allocator)) is Some,
            r is Err ==> Some(r->Err_0) == old(self).map_to_error(page@, *old(allocator)),
            r == Err::<MapperFlush, MemoryError>(MemoryError::AlreadyMapped) <==> is_mapped(
                old(self)@,
                page@,
            ),
            r is Err ==> r->Err_0 == MemoryError::AlreadyMapped || r->Err_0
                == MemoryError::UsageViolation || r->Err_0 == MemoryError::Exhaustion,
            *final(allocator) == after_allocations(
                *old(allocator),
                old(self).map_to_calls(page@, *old(allocator)),
            ),
            forall|f: u64| #[trigger]
                came_from(
                    old(self).tables(),
                    final(self).tables(),
                    *old(allocator),
                    old(self).map_to_calls(page@, *old(allocator)),
                    f,
                ),
    {
        proof {
            use_type_invariant(&page);
            self.lemma_roots();
            self.tables.lemma_extends_refl();
            self.lemma_extended(*self);
            crate::memory::paging::tables::lemma_supply_error_kinds(
                *allocator,
                self.tables().dom(),
                missing_tables(self.tables(), self.root(), page@),
            );
        }
        if page.p4_index().as_usize() == RECURSIVE_INDEX {
            proof {
                assert forall|f: u64| #[trigger]
                    came_from(self.tables(), self.tables(), *allocator, 0, f) by {}
            }
            return Err(MemoryError::UsageViolation);
        }
        let root: u64 = self.p4_frame().as_u64();
        let ghost before = *self;
        let ghost calls = supply_calls(
            *allocator,
            self.tables().dom(),
            missing_tables(self.tables(), root, page@),
        );
        let walked: Result<u64, MemoryError> = self.tables.walk_or_create(root, page, allocator);
        proof {
            self.lemma_extended(before);
            self.tables.lemma_extends_keeps(before.tables, root, 0, root, page@);
            assert(is_mapped(before@, page@) ==> calls == 0) by {
                reveal_with_fuel(supply_calls, 1);
            }
        }
        let p1: u64 = match walked {
            Ok(table) => table,
            Err(e) => {
                return Err(e);
            },
        };
        let index: usize = page.p1_index().as_usize();
        let entry: (u64, u64) = self.tables.read(p1, index);
        if entry.0 != 0 || entry.1 != 0 {
            return Err(MemoryError::AlreadyMapped);
        }
        let ghost middle = *self;
        self.tables.set_leaf(p1, index, frame.as_u64(), flags.bits());
        proof {
            middle.tables.lemma_leaf_changes_one_mapping(
                self.tables@,
                root,
                page@,
                (frame@, flags@),
            );
            middle.lemma_roots();
            middle.lemma_leaf_changed(*self, p1, index as int, (frame@, flags@));
            assert(old(self)@.remove(page@) =~= old(self)@);
            assert forall|f: u64| old(self).is_root(f) && f != old(self).root()
                implies #[trigger] self.mappings_of(
                f,
            ) == old(self).mappings_of(f) by {
                assert(middle.is_root(f));
                assert(middle.mappings_of(f) == old(self).mappings_of(f));
                assert(mappings(self.tables@, f) == mappings(middle.tables@, f));
            }
            assert forall|f: u64| old(self).holds_table(f) implies #[trigger] self.holds_table(
                f,
            ) by {
                assert(middle.holds_table(f));
            }
            assert forall|f: u64| #[trigger] self.is_root(f) == old(self).is_root(f) by {
                assert(middle.is_root(f) == old(self).is_root(f));
            }
            assert forall|q: u64| old(self).reaches(q) implies #[trigger] self.reaches(q) by {
                assert(middle.reaches(q));
            }
            assert(middle.reaches(page@));
            assert(self.tables().dom() =~= middle.tables().dom()) by {
                middle.tables.lemma_table(p1);
            }
            assert forall|f: u64| #[trigger]
                came_from(before.tables(), self.tables(), *old(allocator), calls, f) by {
                assert(came_from(before.tables(), middle.tables(), *old(allocator), calls, f));
            }
        }
        Ok(MapperFlush { page })
    }

    /// Maps `page` with `flags` to the next frame of `allocator`, and returns
    /// that frame. The tables that are missing on the way to the page's entry
    /// are made in the frames that `allocator` hands out after that one.
    ///
    /// Fails with `UsageViolation` where the page lies in the reserved part
    /// of the address space and with `AlreadyMapped` where the page is
    /// mapped; no frame is taken then. Fails with `Exhaustion` where the
    /// allocator has no frame left, and with `UsageViolation` where it hands
    /// out a frame that holds a table. A failure changes no address space.
    pub fn map<A: FrameAllocator>(
        &mut self,
        page: Page,
        flags: PageTableFlags,
        allocator: &mut A,
    ) -> (r: Result<(PhysFrame, MapperFlush), MemoryError>)
        requires
            old(self).wf(),
        ensures
            final(self).wf(),
            final(self).follows(*old(self)),
            r is Err <==> old(self).map_error(page@, *old(allocator)) is Some,
            r is Err ==> Some(r->Err_0) == old(self).map_error(page@, *old(allocator)),
            r is Err ==> final(self)@ == old(self)@,
            r is Err ==> r->Err_0 == MemoryError::AlreadyMapped || r->Err_0
                == MemoryError::UsageViolation || r->Err_0 == MemoryError::Exhaustion,
            (r is Err && r->Err_0 == MemoryError::AlreadyMapped) <==> is_mapped(old(self)@, page@),
            r is Ok ==> {
                &&& Some(r->Ok_0.0@) == old(allocator).next_frame()
                &&& r->Ok_0.1.page == page
                &&& final(self)@ == after_map(old(self)@, page@, r->Ok_0.0@, flags@)
                &&& final(self).reaches(page@)
            },
            *final(allocator) == after_allocations(
                *old(allocator),
                old(self).map_calls(page@, *old(allocator)),
            ),
            forall|f: u64| #[trigger]
                came_from(
                    old(self).tables(),
                    final(self).tables(),
                    *old(allocator),
                    old(self).map_calls(page@, *old(allocator)),
                    f,
                ),
            r is Ok ==> forall|f: u64| #[trigger]
                came_from(
                    old(self).tables(),
                    final(self).tables(),
                    old(allocator).after_allocation(),
                    old(self).map_to_calls(page@, old(allocator).after_allocation()),
                    f,
                ),
    {
        proof {
            use_type_invariant(&page);
            self.lemma_follows_refl();
            reveal_with_fuel(after_allocations, 2);
            assert forall|f: u64| #[trigger]
                came_from(self.tables(), self.tables(), *allocator, 0, f) by {}
            assert forall|f: u64| #[trigger]
                came_from(self.tables(), self.tables(), *allocator, 1, f) by {}
        }
        if page.p4_index().as_usize() == RECURSIVE_INDEX {
            return Err(MemoryError::UsageViolation);
        }
        if self.translate_page(page).is_ok() {
            return Err(MemoryError::AlreadyMapped);
        }
        let frame: PhysFrame = match allocator.allocate_frame() {
            Some(frame) => frame,
            None => {
                return Err(MemoryError::Exhaustion);
            },
        };
        if self.tables.contains(frame.as_u64()) {
            return Err(MemoryError::UsageViolation);
        }
        let ghost taken = *allocator;
        let ghost calls = self.map_to_calls(page@, taken);
        let mapped: Result<MapperFlush, MemoryError> = self.map_to(page, frame, flags, allocator);
        proof {
            crate::memory::allocator::lemma_after_allocations_split(*old(allocator), 1, calls);
            assert forall|f: u64| #[trigger]
                came_from(old(self).tables(), self.tables(), *old(allocator), 1 + calls, f) by {
                assert(came_from(old(self).tables(), self.tables(), taken, calls, f));
                if self.holds_table(f) && !old(self).holds_table(f) {
                    crate::memory::allocator::lemma_handed_out_later(*old(allocator), 1, calls, f);
                }
            }
        }
        match mapped {
            Ok(flush) => Ok((frame, flush)),
            Err(e) => Err(e),
        }
    }

    /// Maps the page that starts at the start address of `frame` to `frame`.
    ///
    /// Fails with `AlignmentViolation` where no page starts at that address,
    /// because it lies beyond the lower half of the address space, and
    /// otherwise as `map_to` does. A failure changes no address space.
    pub fn identity_map<A: FrameAllocator>(
        &mut self,
        frame: PhysFrame,
        flags: PageTableFlags,
        allocator: &mut A,
    ) -> (r: Result<MapperFlush, MemoryError>)
        requires
            old(self).wf(),
        ensures
            final(self).wf(),
            final(self).follows(*old(self)),
            r is Ok ==> r->Ok_0.page@ == frame@ && final(self).reaches(frame@),
            r is Ok ==> final(self)@ == after_map(old(self)@, frame@, frame@, flags@),
            r is Err ==> final(self)@ == old(self)@,
            r is Err <==> old(self).identity_map_error(frame@, *old(allocator)) is Some,
            r is Err ==> Some(r->Err_0) == old(self).identity_map_error(frame@, *old(allocator)),
            *final(allocator) == after_allocations(
                *old(allocator),
                old(self).identity_map_calls(frame@, *old(allocator)),
            ),
            forall|f: u64| #[trigger]
                came_from(
                    old(self).tables(),
                    final(self).tables(),
                    *old(allocator),
                    old(self).identity_map_calls(frame@, *old(allocator)),
                    f,
                ),
    {
        let addr: u64 = frame.as_u64();
        if addr >= LOWER_HALF_END {
            proof {
                self.lemma_follows_refl();
                assert forall|f: u64| #[trigger]
                    came_from(self.tables(), self.tables(), *allocator, 0, f) by {}
            }
            return Err(MemoryError::AlignmentViolation);
        }
        let page: Page = Page::new(addr);
        self.map_to(page, frame, flags, allocator)
    }

    /// Takes the mapping of `page` away and returns the frame that it was
    /// mapped to. The tables on the way to the page's entry stay.
    ///
    /// Fails with `NotMapped` where the page is not mapped, which holds of
    /// every page in the reserved part of the address space. A failure
    /// changes nothing.
    pub fn unmap(&mut self, page: Page) -> (r: Result<(PhysFrame, MapperFlush), MemoryError>)
        requires
            old(self).wf(),
        ensures
            final(self).wf(),
            final(self).follows(*old(self)),
            r is Ok <==> is_mapped(old(self)@, page@),
            r is Ok ==> Some(r->Ok_0.0@) == frame_of(old(self)@, page@) && r->Ok_0.1.page == page,
            r is Ok ==> final(self)@ == after_unmap(old(self)@, page@),
            r is Err ==> r->Err_0 == MemoryError::NotMapped && final(self)@ == old(self)@,
            forall|f: u64| #[trigger] final(self).holds_table(f) == old(self).holds_table(f),
    {
        proof {
            use_type_invariant(&page);
            self.lemma_roots();
            self.tables.lemma_extends_refl();
            self.lemma_extended(*self);
        }
        if page.p4_index().as_usize() == RECURSIVE_INDEX {
            return Err(MemoryError::NotMapped);
        }
        let root: u64 = self.p4_frame().as_u64();
        proof {
            self.tables.lemma_walk(root, page@);
        }
        let p3: u64 = match self.tables.step(root, page.p4_index().as_usize()) {
            Some(table) => table,
            None => {
                return Err(MemoryError::NotMapped);
            },
        };
        let p2: u64 = match self.tables.step(p3, page.p3_index().as_usize()) {
            Some(table) => table,
            None => {
                return Err(MemoryError::NotMapped);
            },
        };
        let p1: u64 = match self.tables.step(p2, page.p2_index().as_usize()) {
            Some(table) => table,
            None => {
                return Err(MemoryError::NotMapped);
            },
        };
        let index: usize = page.p1_index().as_usize();
        let entry: (u64, u64) = self.tables.read(p1, index);
        if entry.0 == 0 && entry.1 == 0 {
            return Err(MemoryError::NotMapped);
        }
        let ghost before = *self;
        self.tables.clear_leaf(p1, index);
        proof {
            before.tables.lemma_leaf_changes_one_mapping(
                self.tables@,
                root,
                page@,
                crate::memory::paging::page_table::unused_entry(),
            );
            before.lemma_leaf_changed(
                *self,
                p1,
                index as int,
                crate::memory::paging::page_table::unused_entry(),
            );
            assert(self.tables().dom() =~= before.tables().dom()) by {
                before.tables.lemma_table(p1);
            }
        }
        Ok((PhysFrame::new(entry.0), MapperFlush { page }))
    }

    /// The address at which the recursive self-reference shows the level 4
    /// table translates to the frame of the table that the translator works
    /// on.
    pub proof fn lemma_recursive_address(&self)
        requires
            self.wf(),
        ensures
            crate::memory::address::is_canonical(crate::memory::paging::P4),
            align_down(crate::memory::paging::P4) == crate::memory::paging::P4,
            self.resolve(crate::memory::paging::P4) is Some,
            self.resolve(crate::memory::paging::P4)->Some_0.0 == self.root(),
    {
        self.lemma_roots();
        let p4 = crate::memory::paging::P4;
        assert((0xffff_ffff_ffff_f000u64 / 0x80_0000_0000) % 512 == 511 && (0xffff_ffff_ffff_f000u64
            / 0x4000_0000) % 512 == 511 && (0xffff_ffff_ffff_f000u64 / 0x20_0000) % 512 == 511 && (
        0xffff_ffff_ffff_f000u64 / 0x1000) % 512 == 511) by (bit_vector);
        self.tables.lemma_recursive_entry(self.root());
    }

    /// What is mapped or unmapped while another address space than the
    /// active one is populated is not seen by the processor: the active
    /// address space stays as it is.
    pub proof fn lemma_population_is_hidden(&self, before: AddressTranslator)
        requires
            before.wf(),
            before.is_populating(),
            self.follows(before),
        ensures
            self.active_mappings() == before.active_mappings(),
    {
        before.lemma_roots();
    }

    /// A translator follows itself.
    pub proof fn lemma_follows_refl(&self)
        ensures
            self.follows(*self),
    {
    }

    /// Following is transitive.
    pub proof fn lemma_follows_trans(&self, middle: AddressTranslator, before: AddressTranslator)
        requires
            self.follows(middle),
            middle.follows(before),
        ensures
            self.follows(before),
    {
        assert forall|f: u64| #[trigger] self.is_root(f) == before.is_root(f) by {
            assert(middle.is_root(f) == before.is_root(f));
        }
        assert forall|f: u64| before.holds_table(f) implies #[trigger] self.holds_table(f) by {
            assert(middle.holds_table(f));
        }
        assert forall|f: u64| before.is_root(f) && f != before.root()
            implies #[trigger] self.mappings_of(
            f,
        ) == before.mappings_of(f) by {
            assert(middle.is_root(f));
            assert(middle.mappings_of(f) == before.mappings_of(f));
        }
        assert forall|page: u64| before.reaches(page) implies #[trigger] self.reaches(page) by {
            assert(middle.reaches(page));
        }
    }

    /// Whether `self` has the level 4 tables, the tables and the address
    /// spaces of `before`, and the same active table. The table that the
    /// translator works on may be another.
    pub open spec fn same_spaces(&self, before: AddressTranslator) -> bool {
        &&& self.active_root() == before.active_root()
        &&& forall|f: u64| #[trigger] self.is_root(f) == before.is_root(f)
        &&& forall|f: u64| #[trigger] self.holds_table(f) == before.holds_table(f)
        &&& forall|f: u64| before.is_root(f) ==> #[trigger] self.mappings_of(f)
            == before.mappings_of(f)
    }

    /// Makes the reserved entry of the active table refer to the level 4
    /// table `target`, so that the translator works on the address space of
    /// `target` from now on while the processor still walks the active table.
    /// No address space changes.
    ///
    /// Fails with `UsageViolation`, and changes nothing, where the reserved
    /// entry is redirected already.
    pub fn redirect(&mut self, target: PhysFrame) -> (r: Result<MapperFlushAll, MemoryError>)
        requires
            old(self).wf(),
            old(self).is_root(target@),
        ensures
            final(self).wf(),
            final(self).same_spaces(*old(self)),
            r is Err <==> old(self).is_populating(),
            r is Err ==> r->Err_0 == MemoryError::UsageViolation && final(self).root()
                == old(self).root(),
            r is Ok ==> final(self).root() == target@,
    {
        proof {
            self.lemma_roots();
        }
        let root: u64 = self.p4_frame().as_u64();
        if root != self.active {
            return Err(MemoryError::UsageViolation);
        }
        let ghost before = *self;
        self.tables.set_recursive_entry(self.active, target.as_u64());
        proof {
            before.lemma_reserved_entry_changed(*self, target@);
        }
        Ok(MapperFlushAll)
    }

    /// Makes the reserved entry of the active table refer to the active
    /// table itself again, so that the translator works on the active address
    /// space. The active table is reached through `window`, as the processor
    /// translates it. No address space changes.
    ///
    /// Fails with `UsageViolation`, and changes nothing, where the processor
    /// does not translate `window` to the frame of the active table.
    pub fn restore(&mut self, window: Page) -> (r: Result<MapperFlushAll, MemoryError>)
        requires
            old(self).wf(),
        ensures
            final(self).wf(),
            final(self).same_spaces(*old(self)),
            r is Ok <==> (translation(old(self).tables(), old(self).active_root(), window@)
                matches Some(entry) && entry.0 == old(self).active_root()),
            r is Err ==> r->Err_0 == MemoryError::UsageViolation && final(self).root()
                == old(self).root(),
            r is Ok ==> final(self).root() == final(self).active_root(),
    {
        proof {
            self.lemma_roots();
        }
        let reached: bool = match self.translate_from(self.active, window) {
            Some(frame) => frame.as_u64() == self.active,
            None => false,
        };
        if !reached {
            return Err(MemoryError::UsageViolation);
        }
        let ghost before = *self;
        self.tables.set_recursive_entry(self.active, self.active);
        proof {
            before.lemma_reserved_entry_changed(*self, self.active);
        }
        Ok(MapperFlushAll)
    }

    /// What a change of the reserved entry of the active table leaves as it
    /// was.
    proof fn lemma_reserved_entry_changed(&self, after: AddressTranslator, target: u64)
        requires
            self.wf(),
            after.tables.wf(),
            self.is_root(target),
            after.tables@ == crate::memory::paging::tables::with_entry(
                self.tables@,
                self.active,
                511,
                (target, crate::memory::paging::tables::TABLE_FLAGS),
            ),
            forall|f: u64| after.tables.level(f) == self.tables.level(f),
            after.tables.redirected() == if target == self.active {
                None
            } else {
                Some(self.active)
            },
            after.active == self.active,
        ensures
            after.wf(),
            after.same_spaces(*self),
            after.root() == target,
    {
        self.tables.lemma_table(self.active);
        assert forall|f: u64| self.is_root(f) implies #[trigger] after.mappings_of(f)
            == self.mappings_of(f) by {
            self.tables.lemma_recursive_entry_keeps_mappings(
                self.active,
                (target, crate::memory::paging::tables::TABLE_FLAGS),
                f,
            );
        }
    }

    /// Clears the frame that `window` is mapped to and makes it a level 4
    /// table that holds nothing but its self-reference: a new, empty address
    /// space. No other address space changes.
    ///
    /// Fails with `NotMapped` where `window` is not mapped, and with
    /// `UsageViolation` where its frame already holds a table. A failure
    /// changes nothing.
    pub fn format_root(&mut self, window: Page) -> (r: Result<PhysFrame, MemoryError>)
        requires
            old(self).wf(),
        ensures
            final(self).wf(),
            final(self).active_root() == old(self).active_root(),
            final(self).root() == old(self).root(),
            old(self).resolve(window@) is None ==> r == Err::<PhysFrame, MemoryError>(
                MemoryError::NotMapped,
            ),
            old(self).resolve(window@) matches Some(entry) ==> if old(self).holds_table(entry.0) {
                r == Err::<PhysFrame, MemoryError>(MemoryError::UsageViolation)
            } else {
                r is Ok && r->Ok_0@ == entry.0
            },
            r is Err ==> final(self).same_spaces(*old(self)),
            r is Ok ==> {
                &&& forall|f: u64| #[trigger] final(self).is_root(f) == (old(self).is_root(f)
                    || f == r->Ok_0@)
                &&& forall|f: u64| #[trigger] final(self).holds_table(f)
                    == (old(self).holds_table(f) || f == r->Ok_0@)
                &&& forall|f: u64| old(self).is_root(f)
                    ==> #[trigger] final(self).mappings_of(f) == old(self).mappings_of(f)
                &&& final(self).mappings_of(r->Ok_0@) == Map::<u64, (u64, u64)>::empty()
            },
            forall|page: u64| old(self).reaches(page) ==> #[trigger] final(self).reaches(page),
    {
        proof {
            self.lemma_roots();
        }
        let root: u64 = self.p4_frame().as_u64();
        let frame: PhysFrame = match self.translate_from(root, window) {
            Some(frame) => frame,
            None => {
                return Err(MemoryError::NotMapped);
            },
        };
        if self.tables.contains(frame.as_u64()) {
            return Err(MemoryError::UsageViolation);
        }
        let ghost before = *self;
        self.tables.create_root(frame.as_u64());
        proof {
            before.tables.lemma_table(before.active);
            assert forall|f: u64| before.is_root(f) implies #[trigger] self.mappings_of(f)
                == before.mappings_of(f) by {
                before.tables.lemma_new_root_keeps_mappings(frame@, f);
            }
            before.tables.lemma_new_root_keeps_mappings(frame@, frame@);
            assert forall|page: u64| before.reaches(page) implies #[trigger] self.reaches(page) by {
                before.tables.lemma_new_root_keeps_reach(frame@, before.root(), page);
            }
        }
        Ok(frame)
    }

    /// Makes the level 4 table `target` the active one, and returns the frame
    /// of the table that was active. The processor walks `target` from now
    /// on, and the translator works on it.
    ///
    /// Fails with `UsageViolation`, and changes nothing, while the reserved
    /// entry of the active table is redirected.
    pub fn switch_to(&mut self, target: PhysFrame) -> (r: Result<PhysFrame, MemoryError>)
        requires
            old(self).wf(),
            old(self).is_root(target@),
        ensures
            final(self).wf(),
            final(self).tables() == old(self).tables(),
            forall|f: u64| #[trigger] final(self).is_root(f) == old(self).is_root(f),
            r is Err <==> old(self).is_populating(),
            r is Err ==> r->Err_0 == MemoryError::UsageViolation && final(self).active_root()
                == old(self).active_root(),
            r is Ok ==> r->Ok_0@ == old(self).active_root() && final(self).active_root()
                == target@ && final(self).root() == target@,
    {
        proof {
            self.lemma_roots();
            self.tables.lemma_recursive_entry(target@);
            self.tables.lemma_recursive_entry(self.active);
        }
        let root: u64 = self.p4_frame().as_u64();
        if root != self.active {
            return Err(MemoryError::UsageViolation);
        }
        let previous: PhysFrame = PhysFrame::new(self.active);
        self.active = target.as_u64();
        Ok(previous)
    }

    /// The physical address that `addr` translates to: the frame of its page
    /// together with its offset in the page. `None` where the page is not
    /// mapped.
    pub fn translate_addr(&self, addr: VirtAddr) -> (r: Option<PhysAddr>)
        requires
            self.wf(),
        ensures
            r is Some <==> self.resolve(align_down(addr@)) is Some,
            r is Some ==> r->Some_0@ == self.resolve(align_down(addr@))->Some_0.0 + addr@
                % PAGE_SIZE,
            !is_reserved(align_down(addr@)) ==> (r is Some <==> is_mapped(
                self@,
                align_down(addr@),
            )),
            (!is_reserved(align_down(addr@)) && r is Some) ==> r->Some_0@ == frame_of(
                self@,
                align_down(addr@),
            )->Some_0 + addr@ % PAGE_SIZE,
    {
        let page: Page = Page::containing_address(addr);
        match self.translate_page(page) {
            Ok(frame) => {
                let start: u64 = frame.as_u64();
                let offset: u64 = addr.page_offset();
                assert(start + offset < 0x10_0000_0000_0000) by {
                    assert(start % 4096 == 0 && start < 0x10_0000_0000_0000 && offset < 4096);
                }
                Some(PhysAddr::new(start + offset))
            },
            Err(_) => None,
        }
    }
}

} // verus!
