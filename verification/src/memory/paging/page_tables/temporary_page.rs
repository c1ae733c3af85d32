//! The temporary page: one fixed page through which any frame can be
//! reached for a while, with a reservoir of three frames of its own for the
//! tables that its mapping needs.

use vstd::prelude::*;
use crate::memory::address::{Page, PageTableFlags, PhysFrame, VirtAddr};
use crate::memory::allocator::{after_allocations, handed_out, FrameAllocator};
use crate::memory::paging::helpers::map_to_with_alloc;
use crate::memory::paging::page_tables::active_page_table::ActivePageTable;
use crate::memory::paging::tables::{came_from, supply_error};
use crate::memory::paging::translator::{AddressTranslator, MapperFlush};
use crate::memory::MemoryError;

verus! {

/// An allocator over three frames, taken from another allocator when it is
/// made. It hands them out in the order in which it got them.
pub struct TinyAllocator {
    first: Option<PhysFrame>,
    second: Option<PhysFrame>,
    third: Option<PhysFrame>,
}

/// The start address of a frame that may be missing.
pub open spec fn frame_addr(frame: Option<PhysFrame>) -> Option<u64> {
    match frame {
        Some(f) => Some(f@),
        None => None,
    }
}

impl TinyAllocator {
    /// The start addresses of the frames that are left, each in its slot.
    pub closed spec fn slots(&self) -> (Option<u64>, Option<u64>, Option<u64>) {
        (frame_addr(self.first), frame_addr(self.second), frame_addr(self.third))
    }

    /// Whether the frame at `frame` is one of those that are left.
    pub open spec fn holds(&self, frame: u64) -> bool {
        self.slots().0 == Some(frame) || self.slots().1 == Some(frame) || self.slots().2 == Some(
            frame,
        )
    }

    /// Whether every frame that `self` has left is one that `before` has
    /// left.
    pub open spec fn within(&self, before: TinyAllocator) -> bool {
        &&& self.slots().0 is Some ==> self.slots().0 == before.slots().0
        &&& self.slots().1 is Some ==> self.slots().1 == before.slots().1
        &&& self.slots().2 is Some ==> self.slots().2 == before.slots().2
    }

    /// Handing out frames leaves only frames that were there.
    pub proof fn lemma_within(self, calls: nat)
        ensures
            after_allocations(self, calls).within(self),
        decreases calls,
    {
        if calls > 0 {
            self.lemma_next_frame();
            self.after_allocation().lemma_within((calls - 1) as nat);
        }
    }

    /// A frame that the allocator hands out is one that it has left.
    pub proof fn lemma_handed_out_held(self, calls: nat, frame: u64)
        requires
            handed_out(self, calls, frame),
        ensures
            self.holds(frame),
    {
        let k = choose|k: nat|
            k < calls && (#[trigger] after_allocations(self, k)).next_frame() == Some(frame);
        self.lemma_within(k);
        after_allocations(self, k).lemma_next_frame();
    }

    /// Takes the next three frames of `allocator`, as far as it has them.
    pub fn new<A: FrameAllocator>(allocator: &mut A) -> (r: TinyAllocator)
        ensures
            r.slots() == (
                old(allocator).next_frame(),
                old(allocator).after_allocation().next_frame(),
                old(allocator).after_allocation().after_allocation().next_frame(),
            ),
            *final(allocator) == after_allocations(*old(allocator), 3),
    {
        let first: Option<PhysFrame> = allocator.allocate_frame();
        let second: Option<PhysFrame> = allocator.allocate_frame();
        let third: Option<PhysFrame> = allocator.allocate_frame();
        proof {
            reveal_with_fuel(after_allocations, 4);
        }
        TinyAllocator { first, second, third }
    }

    /// What the allocator hands out next is its first frame that is left.
    pub proof fn lemma_next_frame(self)
        ensures
            self.next_frame() == if self.slots().0 is Some {
                self.slots().0
            } else if self.slots().1 is Some {
                self.slots().1
            } else {
                self.slots().2
            },
            self.after_allocation().slots() == if self.slots().0 is Some {
                (None::<u64>, self.slots().1, self.slots().2)
            } else if self.slots().1 is Some {
                (None::<u64>, None::<u64>, self.slots().2)
            } else {
                (None::<u64>, None::<u64>, None::<u64>)
            },
    {
    }
}

/// An allocator with three frames left that differ from each other and are
/// not in use supplies up to three frames.
pub proof fn lemma_reservoir_fresh(reservoir: TinyAllocator, in_use: Set<u64>, count: nat)
    requires
        count <= 3,
        reservoir.slots().0 is Some,
        reservoir.slots().1 is Some,
        reservoir.slots().2 is Some,
        reservoir.slots().0 != reservoir.slots().1,
        reservoir.slots().0 != reservoir.slots().2,
        reservoir.slots().1 != reservoir.slots().2,
        forall|f: u64| reservoir.holds(f) ==> !in_use.contains(f),
    ensures
        supply_error(reservoir, in_use, count) is None,
{
    reveal_with_fuel(supply_error, 4);
    let second = reservoir.after_allocation();
    let third = second.after_allocation();
    reservoir.lemma_next_frame();
    second.lemma_next_frame();
    third.lemma_next_frame();
    assert(reservoir.holds(reservoir.slots().0->Some_0));
    assert(reservoir.holds(reservoir.slots().1->Some_0));
    assert(reservoir.holds(reservoir.slots().2->Some_0));
}

/// Whether the table in `frame`, if `after` holds one, was there in `before`
/// or stands in a frame of `reservoir`.
pub open spec fn table_from_reservoir(
    before: AddressTranslator,
    after: AddressTranslator,
    reservoir: TinyAllocator,
    frame: u64,
) -> bool {
    after.holds_table(frame) ==> before.holds_table(frame) || reservoir.holds(frame)
}

/// An allocator with all three frames left supplies up to three frames
/// without running out.
pub proof fn lemma_reservoir_suffices(reservoir: TinyAllocator, in_use: Set<u64>, count: nat)
    requires
        count <= 3,
        reservoir.slots().0 is Some,
        reservoir.slots().1 is Some,
        reservoir.slots().2 is Some,
    ensures
        supply_error(reservoir, in_use, count) != Some(MemoryError::Exhaustion),
{
    reveal_with_fuel(supply_error, 4);
    let second = reservoir.after_allocation();
    let third = second.after_allocation();
    reservoir.lemma_next_frame();
    second.lemma_next_frame();
    third.lemma_next_frame();
}

impl FrameAllocator for TinyAllocator {
    closed spec fn next_frame(&self) -> Option<u64> {
        if self.first is Some {
            frame_addr(self.first)
        } else if self.second is Some {
            frame_addr(self.second)
        } else {
            frame_addr(self.third)
        }
    }

    closed spec fn after_allocation(&self) -> Self {
        if self.first is Some {
            TinyAllocator { first: None, second: self.second, third: self.third }
        } else if self.second is Some {
            TinyAllocator { first: None, second: None, third: self.third }
        } else {
            TinyAllocator { first: None, second: None, third: None }
        }
    }

    fn allocate_frame(&mut self) -> (frame: Option<PhysFrame>) {
        if self.first.is_some() {
            let frame: Option<PhysFrame> = self.first;
            self.first = None;
            frame
        } else if self.second.is_some() {
            let frame: Option<PhysFrame> = self.second;
            self.second = None;
            frame
        } else {
            let frame: Option<PhysFrame> = self.third;
            self.third = None;
            frame
        }
    }
}

/// A page that is mapped to one frame at a time, to read or write that
/// frame before any table refers to it.
pub struct TemporaryPage {
    page: Page,
    allocator: TinyAllocator,
}

impl TemporaryPage {
    /// The page of the window.
    pub closed spec fn page(&self) -> Page {
        self.page
    }

    /// The frames that the window has for the tables of its own mapping.
    pub closed spec fn reservoir(&self) -> TinyAllocator {
        self.allocator
    }

    /// Whether the window is mapped in the address space that `mapper` works
    /// on.
    pub open spec fn is_mapped(&self, mapper: AddressTranslator) -> bool {
        mapper.resolve(self.page()@) is Some
    }

    /// Why `map` fails, if it does.
    pub open spec fn map_error(&self, mapper: AddressTranslator) -> Option<MemoryError> {
        if self.is_mapped(mapper) {
            Some(MemoryError::UsageViolation)
        } else {
            mapper.map_to_error(self.page()@, self.reservoir())
        }
    }

    /// A window that is mapped cannot be mapped again: `map` refuses it
    /// with `UsageViolation` until `unmap` has taken the mapping away.
    pub proof fn lemma_mapped_window_is_refused(self, mapper: AddressTranslator)
        requires
            self.is_mapped(mapper),
        ensures
            self.map_error(mapper) == Some(MemoryError::UsageViolation),
    {
    }

    /// A window at `page`, with a reservoir of the next three frames of
    /// `allocator`.
    pub fn new<A: FrameAllocator>(page: Page, allocator: &mut A) -> (r: TemporaryPage)
        ensures
            r.page() == page,
            r.reservoir().slots() == (
                old(allocator).next_frame(),
                old(allocator).after_allocation().next_frame(),
                old(allocator).after_allocation().after_allocation().next_frame(),
            ),
            *final(allocator) == after_allocations(*old(allocator), 3),
    {
        TemporaryPage { page, allocator: TinyAllocator::new(allocator) }
    }

    /// Maps the window to `frame`, present and writable, in the address space
    /// that `active_table` works on, and returns the start address of the window.
    /// The tables that the mapping needs are made in frames of the reservoir.
    ///
    /// Fails with `UsageViolation` where the window is mapped already, where
    /// its page lies in the reserved part of the address space, or where the
    /// reservoir hands out a frame that already holds a table; and with
    /// `Exhaustion` where a table is missing and the reservoir is empty. A
    /// failure changes no address space.
    pub fn map(&mut self, frame: PhysFrame, active_table: &mut ActivePageTable) -> (r: Result<
        VirtAddr,
        MemoryError,
    >)
        requires
            old(active_table).wf(),
        ensures
            final(active_table).wf(),
            final(active_table).page_directory.follows(old(active_table).page_directory),
            final(self).page() == old(self).page(),
            r is Err <==> old(self).map_error(old(active_table).page_directory) is Some,
            r is Err ==> Some(r->Err_0) == old(self).map_error(old(active_table).page_directory),
            r is Err ==> final(active_table).page_directory@ == old(active_table).page_directory@,
            r is Err ==> r->Err_0 == MemoryError::UsageViolation || r->Err_0
                == MemoryError::Exhaustion,
            r is Ok ==> r->Ok_0@ == old(self).page()@,
            r is Ok ==> final(active_table).page_directory@
                == old(active_table).page_directory@.insert(old(self).page()@, (frame@, 3)),
            r is Ok ==> final(self).is_mapped(final(active_table).page_directory)
                && final(active_table).page_directory.reaches(
                old(self).page()@,
            ),
            final(self).reservoir() == if old(self).is_mapped(old(active_table).page_directory) {
                old(self).reservoir()
            } else {
                after_allocations(
                    old(self).reservoir(),
                    old(active_table).page_directory.map_to_calls(old(self).page()@,
                        old(self).reservoir()),
                )
            },
            final(self).reservoir().within(old(self).reservoir()),
            forall|f: u64| #[trigger]
                table_from_reservoir(old(active_table).page_directory,
                    final(active_table).page_directory, old(self).reservoir(), f),
    {
        proof {
            use_type_invariant(&self.page);
        }
        if active_table.page_directory.translate_page(self.page).is_ok() {
            proof {
                active_table.page_directory.lemma_follows_refl();
            }
            return Err(MemoryError::UsageViolation);
        }
        let flags: PageTableFlags = PageTableFlags::present_writable();
        let mapped: Result<MapperFlush, MemoryError> = map_to_with_alloc(
            self.page.start_address(),
            frame,
            flags,
            &mut active_table.page_directory,
            &mut self.allocator,
        );
        proof {
            let calls = old(active_table).page_directory.map_to_calls(self.page@,
                old(self).allocator);
            old(self).allocator.lemma_within(calls);
            assert forall|f: u64| #[trigger]
                table_from_reservoir(
                    old(active_table).page_directory,
                    active_table.page_directory,
                    old(self).allocator,
                    f,
                ) by {
                assert(came_from(
                    old(active_table).page_directory.tables(),
                    active_table.page_directory.tables(),
                    old(self).allocator,
                    calls,
                    f,
                ));
                if active_table.page_directory.holds_table(f)
                    && !old(active_table).page_directory.holds_table(f) {
                    old(self).allocator.lemma_handed_out_held(calls, f);
                }
            }
        }
        match mapped {
            Ok(_) => {
                assert(active_table.page_directory@.dom().contains(self.page@));
                Ok(self.page.start_address())
            },
            Err(e) => Err(e),
        }
    }

    /// Takes the mapping of the window away.
    ///
    /// Fails with `NotMapped`, and changes nothing, where the window is not
    /// mapped.
    pub fn unmap(&mut self, active_table: &mut ActivePageTable) -> (r: Result<MapperFlush,
        MemoryError>)
        requires
            old(active_table).wf(),
        ensures
            final(active_table).wf(),
            final(active_table).page_directory.follows(old(active_table).page_directory),
            *final(self) == *old(self),
            r is Ok <==> old(active_table).page_directory@.dom().contains(old(self).page()@),
            r is Ok ==> r->Ok_0.page == old(self).page(),
            r is Ok ==> final(active_table).page_directory@
                == old(active_table).page_directory@.remove(old(self).page()@),
            r is Err ==> r->Err_0 == MemoryError::NotMapped
                && final(active_table).page_directory@ == old(active_table).page_directory@,
            forall|f: u64| #[trigger] final(active_table).page_directory.holds_table(f)
                == old(active_table).page_directory.holds_table(f),
    {
        match active_table.page_directory.unmap(self.page) {
            Ok((_, flush)) => Ok(flush),
            Err(e) => Err(e),
        }
    }

    /// Maps the window to `frame` as `map` does, and returns the page through
    /// which the frame can now be written as a translation table.
    pub fn map_table_frame(&mut self, frame: PhysFrame,
        active_table: &mut ActivePageTable) -> (r: Result<
        Page,
        MemoryError,
    >)
        requires
            old(active_table).wf(),
        ensures
            final(active_table).wf(),
            final(active_table).page_directory.follows(old(active_table).page_directory),
            final(self).page() == old(self).page(),
            r is Err <==> old(self).map_error(old(active_table).page_directory) is Some,
            r is Err ==> Some(r->Err_0) == old(self).map_error(old(active_table).page_directory),
            r is Err ==> final(active_table).page_directory@ == old(active_table).page_directory@,
            r is Err ==> r->Err_0 == MemoryError::UsageViolation || r->Err_0
                == MemoryError::Exhaustion,
            r is Ok ==> r->Ok_0 == old(self).page(),
            r is Ok ==> final(active_table).page_directory@
                == old(active_table).page_directory@.insert(old(self).page()@, (frame@, 3)),
            r is Ok ==> final(self).is_mapped(final(active_table).page_directory)
                && final(active_table).page_directory.reaches(
                old(self).page()@,
            ),
            final(self).reservoir() == if old(self).is_mapped(old(active_table).page_directory) {
                old(self).reservoir()
            } else {
                after_allocations(
                    old(self).reservoir(),
                    old(active_table).page_directory.map_to_calls(old(self).page()@,
                        old(self).reservoir()),
                )
            },
            final(self).reservoir().within(old(self).reservoir()),
            forall|f: u64| #[trigger]
                table_from_reservoir(old(active_table).page_directory,
                    final(active_table).page_directory, old(self).reservoir(), f),
    {
        match self.map(frame, active_table) {
            Ok(_) => Ok(self.page),
            Err(e) => Err(e),
        }
    }
}

} // verus!
