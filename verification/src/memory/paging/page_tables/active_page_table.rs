//! The level 4 table that the processor walks, and the protocol by which
//! another one is populated and takes its place.

use vstd::prelude::*;
use crate::memory::address::{Page, PhysAddr, PhysFrame, VirtAddr};
use crate::memory::allocator::boot_info_frame_allocator::BootInfoFrameAllocator;
use crate::memory::paging::page_tables::temporary_page::{table_from_reservoir, TemporaryPage};
use crate::memory::paging::page_tables::inactive_page_table::InactivePageTable;
use crate::memory::paging::tables::translation;
use crate::memory::paging::translator::AddressTranslator;
use crate::memory::paging::P4;
use crate::memory::MemoryError;

verus! {

/// The active address space: the tables that the table-base register names,
/// with the translator that works on them.
pub struct ActivePageTable {
    /// The translator over the active tables.
    pub page_directory: AddressTranslator,
}

impl ActivePageTable {
    /// What holds of every active table that this crate hands out.
    pub open spec fn wf(&self) -> bool {
        self.page_directory.wf()
    }

    /// A new address space whose level 4 table stands in `root` and holds
    /// nothing but its self-reference; it is the active one.
    pub fn new(root: PhysFrame) -> (r: ActivePageTable)
        ensures
            r.wf(),
            r.page_directory.active_root() == root@,
            r.page_directory.root() == root@,
            r.page_directory@ == Map::<u64, (u64, u64)>::empty(),
            forall|f: u64| r.page_directory.holds_table(f) <==> f == root@,
            forall|f: u64| r.page_directory.is_root(f) <==> f == root@,
    {
        ActivePageTable { page_directory: AddressTranslator::new(root) }
    }

    /// The frame of the level 4 table that the translator works on, found as
    /// the kernel finds it: by translating the address at which the recursive
    /// self-reference shows that table.
    pub fn frame(&self) -> (r: PhysFrame)
        requires
            self.wf(),
        ensures
            r@ == self.page_directory.root(),
    {
        proof {
            self.page_directory.lemma_recursive_address();
        }
        let shown: PhysFrame = self.page_directory.p4_frame();
        proof {
            use_type_invariant(&shown);
        }
        let address: Option<PhysAddr> = self.page_directory.translate_addr(VirtAddr::new(P4));
        match address {
            Some(phys) => PhysFrame::containing_address(phys),
            None => shown,
        }
    }

    /// Whether `mapper` is what the population logic of `with` gets to work
    /// on: the translator of `self` with the window of `temporary_page`
    /// mapped to the active table and the reserved entry of the active table
    /// redirected to `table`. It works on the address space of `table`, while
    /// the processor walks the active one as before.
    pub open spec fn populating(
        &self,
        mapper: AddressTranslator,
        table: InactivePageTable,
        temporary_page: TemporaryPage,
    ) -> bool {
        &&& mapper.wf()
        &&& mapper.active_root() == self.page_directory.active_root()
        &&& mapper.root() == table.p4_frame@
        &&& mapper@ == self.page_directory.mappings_of(table.p4_frame@)
        &&& mapper.active_mappings() == self.page_directory@.insert(
            temporary_page.page()@,
            (self.page_directory.active_root(), 3),
        )
        &&& forall|f: u64| #[trigger] mapper.is_root(f) == self.page_directory.is_root(f)
        &&& forall|f: u64| self.page_directory.holds_table(f) ==> #[trigger] mapper.holds_table(f)
        &&& forall|f: u64|
            self.page_directory.is_root(f) && f != self.page_directory.active_root()
                ==> #[trigger] mapper.mappings_of(f) == self.page_directory.mappings_of(f)
        &&& forall|f: u64| #[trigger]
            table_from_reservoir(self.page_directory, mapper, temporary_page.reservoir(), f)
    }

    /// Why `with` fails, if it does.
    pub open spec fn with_error(&self, table: InactivePageTable, temporary_page: TemporaryPage)
        -> Option<MemoryError> {
        if self.page_directory.is_populating() || table.p4_frame@
            == self.page_directory.active_root() {
            Some(MemoryError::UsageViolation)
        } else {
            temporary_page.map_error(self.page_directory)
        }
    }

    /// Runs `f` on the address space of `table` without making it active.
    ///
    /// The active table is reached through `temporary_page` and its reserved
    /// entry is made to refer to `table`; from then on the translator works on
    /// `table`. `f` gets the translator and `allocator` and populates the
    /// address space. Then the reserved entry is restored through the window
    /// and the window is unmapped. The active address space is the same
    /// before and after, and `f` cannot change it.
    ///
    /// Fails with `UsageViolation` where an address space is being populated
    /// already or `table` is the active table, and as `TemporaryPage::map`
    /// does. `f` is not run then, and no address space changes.
    pub fn with<F, R>(
        &mut self,
        table: &InactivePageTable,
        temporary_page: &mut TemporaryPage,
        allocator: &mut BootInfoFrameAllocator,
        f: F,
    ) -> (r: Result<R, MemoryError>) where
        F: FnOnce(&mut AddressTranslator, &mut BootInfoFrameAllocator) -> R,

        requires
            old(self).wf(),
            old(self).page_directory.is_root(table.p4_frame@),
            forall|mapper: &mut AddressTranslator, falloc: &mut BootInfoFrameAllocator|
                old(self).populating(*mapper, *table, *old(temporary_page)) && *falloc
                    == *old(allocator) ==> call_requires(f, (mapper, falloc)),
            forall|mapper: &mut AddressTranslator, falloc: &mut BootInfoFrameAllocator, out: R|
                #![trigger call_ensures(f, (mapper, falloc), out)]
                mapper.wf() && call_ensures(f, (mapper, falloc), out) ==> final(mapper).wf()
                    && final(mapper).follows(*mapper),
        ensures
            final(self).wf(),
            final(temporary_page).page() == old(temporary_page).page(),
            final(self).page_directory.active_root() == old(self).page_directory.active_root(),
            final(self).page_directory.root() == old(self).page_directory.root(),
            final(self).page_directory@ == old(self).page_directory@,
            forall|f: u64|
                old(self).page_directory.is_root(f) && f != table.p4_frame@
                    ==> #[trigger] final(self).page_directory.mappings_of(f)
                        == old(self).page_directory.mappings_of(f),
            forall|f: u64| #[trigger]
                final(self).page_directory.is_root(f) == old(self).page_directory.is_root(f),
            forall|f: u64|
                old(self).page_directory.holds_table(f)
                    ==> #[trigger] final(self).page_directory.holds_table(f),
            r is Err <==> old(self).with_error(*table, *old(temporary_page)) is Some,
            r is Err ==> Some(r->Err_0) == old(self).with_error(*table, *old(temporary_page)),
            r is Err ==> r->Err_0 == MemoryError::UsageViolation || r->Err_0
                == MemoryError::Exhaustion,
            r is Err ==> *final(allocator) == *old(allocator)
                && final(self).page_directory.mappings_of(table.p4_frame@)
                    == old(self).page_directory.mappings_of(
                table.p4_frame@,
            ),
            r is Ok ==> exists|mapper: &mut AddressTranslator, falloc: &mut BootInfoFrameAllocator|
                #![trigger call_ensures(f, (mapper, falloc), r->Ok_0)]
                {
                    &&& old(self).populating(*mapper, *table, *old(temporary_page))
                    &&& *falloc == *old(allocator)
                    &&& call_ensures(f, (mapper, falloc), r->Ok_0)
                    &&& *final(falloc) == *final(allocator)
                    &&& final(mapper)@ == final(self).page_directory.mappings_of(table.p4_frame@)
                    &&& final(mapper).tables().dom() == final(self).page_directory.tables().dom()
                },
            final(temporary_page).reservoir().within(old(temporary_page).reservoir()),
    {
        let ghost before = self.page_directory;
        proof {
            before.lemma_roots();
            before.lemma_follows_refl();
        }
        let backup: PhysFrame = self.page_directory.active_frame();
        let shown: PhysFrame = self.page_directory.p4_frame();
        if shown != backup || table.p4_frame == backup {
            proof {
                shown.lemma_view_injective(backup);
                table.p4_frame.lemma_view_injective(backup);
            }
            return Err(MemoryError::UsageViolation);
        }
        proof {
            shown.lemma_view_injective(backup);
            table.p4_frame.lemma_view_injective(backup);
        }
        let window: Page = match temporary_page.map_table_frame(backup, self) {
            Ok(page) => page,
            Err(e) => {
                proof {
                    let failed = self.page_directory;
                    assert(failed.mappings_of(table.p4_frame@) == before.mappings_of(
                        table.p4_frame@,
                    ));
                }
                return Err(e);
            },
        };
        let ghost mapped = self.page_directory;
        proof {
            use_type_invariant(&window);
            assert(mapped.is_root(table.p4_frame@));
            assert(mapped.mappings_of(table.p4_frame@) == before.mappings_of(table.p4_frame@));
        }
        let redirected = self.page_directory.redirect(table.p4_frame);
        let ghost ready = self.page_directory;
        proof {
            assert(redirected is Ok);
            assert(ready.mappings_of(table.p4_frame@) == mapped.mappings_of(table.p4_frame@));
            assert(ready.mappings_of(before.active_root()) == mapped.mappings_of(
                before.active_root(),
            ));
            assert forall|g: u64| #[trigger] ready.is_root(g) == before.is_root(g) by {
                assert(mapped.is_root(g) == before.is_root(g));
            }
            assert forall|g: u64| before.holds_table(g) implies #[trigger] ready.holds_table(g) by {
                assert(mapped.holds_table(g));
            }
            assert forall|g: u64|
                before.is_root(g) && g != before.active_root() implies #[trigger] ready.mappings_of(
                g,
            ) == before.mappings_of(g) by {
                assert(mapped.is_root(g));
                assert(mapped.mappings_of(g) == before.mappings_of(g));
                assert(ready.mappings_of(g) == mapped.mappings_of(g));
            }
            assert forall|g: u64| #[trigger]
                table_from_reservoir(before, ready, old(temporary_page).reservoir(), g) by {
                assert(table_from_reservoir(before, mapped, old(temporary_page).reservoir(), g));
                assert(ready.holds_table(g) == mapped.holds_table(g));
            }
            assert(old(self).populating(ready, *table, *old(temporary_page)));
        }
        let out: R = f(&mut self.page_directory, allocator);
        let ghost populated = self.page_directory;
        let ghost grown = *allocator;
        proof {
            assert(exists|mapper: &mut AddressTranslator, falloc: &mut BootInfoFrameAllocator|
                #![trigger call_ensures(f, (mapper, falloc), out)]
                call_ensures(f, (mapper, falloc), out) && *mapper == ready && *falloc
                    == *old(allocator) && *final(mapper) == populated && *final(falloc) == grown);
        }
        proof {
            assert(populated.wf() && populated.follows(ready));
            assert(populated.is_root(before.active_root()));
            assert(populated.mappings_of(before.active_root()) == ready.mappings_of(
                before.active_root(),
            ));
            assert(mapped@[window@] == (backup@, 3u64));
            assert(mapped@ == mapped.mappings_of(before.active_root()));
            assert(populated.active_mappings() == mapped@);
            assert(populated.active_mappings().dom().contains(window@));
            assert(populated.active_mappings()[window@] == (backup@, 3u64));
            assert(translation(populated.tables(), populated.active_root(), window@) == Some(
                (before.active_root(), 3u64),
            ));
        }
        let restored = self.page_directory.restore(window);
        let ghost back = self.page_directory;
        proof {
            assert(restored is Ok);
            assert(back.root() == before.active_root());
            assert(back.is_root(before.active_root()));
            assert(back@ == populated.mappings_of(before.active_root()));
            assert(back@.dom().contains(window@));
            assert(back.is_root(table.p4_frame@));
            assert(back.mappings_of(table.p4_frame@) == populated@);
        }
        let unmapped = temporary_page.unmap(self);
        proof {
            let last = self.page_directory;
            assert(unmapped is Ok);
            assert(last@ =~= before@);
            assert(last.mappings_of(table.p4_frame@) == back.mappings_of(table.p4_frame@));
            assert forall|g: u64| #[trigger] last.is_root(g) == before.is_root(g) by {
                assert(last.is_root(g) == back.is_root(g));
                assert(back.is_root(g) == populated.is_root(g));
                assert(populated.is_root(g) == ready.is_root(g));
            }
            assert forall|g: u64| before.holds_table(g) implies #[trigger] last.holds_table(g) by {
                assert(ready.holds_table(g));
                assert(populated.holds_table(g));
                assert(back.holds_table(g) == populated.holds_table(g));
            }
            assert forall|g: u64|
                before.is_root(g) && g != table.p4_frame@ implies #[trigger] last.mappings_of(g)
                == before.mappings_of(g) by {
                if g != before.active_root() {
                    assert(ready.mappings_of(g) == before.mappings_of(g));
                    assert(ready.is_root(g));
                    assert(populated.mappings_of(g) == ready.mappings_of(g));
                    assert(populated.is_root(g));
                    assert(back.mappings_of(g) == populated.mappings_of(g));
                    assert(back.is_root(g));
                    assert(last.mappings_of(g) == back.mappings_of(g));
                }
            }
            assert(populated@ == last.mappings_of(table.p4_frame@));
            assert(grown == *allocator);
            assert(last.tables().dom() =~= populated.tables().dom()) by {
                assert forall|g: u64| last.tables().dom().contains(g)
                    == populated.tables().dom().contains(g) by {
                    assert(last.holds_table(g) == back.holds_table(g));
                    assert(back.holds_table(g) == populated.holds_table(g));
                }
            }
        }
        let r: Result<R, MemoryError> = Ok(out);
        proof {
            let (m, a) = choose|mapper: &mut AddressTranslator, falloc: &mut BootInfoFrameAllocator|
                #![trigger call_ensures(f, (mapper, falloc), out)]
                call_ensures(f, (mapper, falloc), out) && *mapper == ready && *falloc
                    == *old(allocator) && *final(mapper) == populated && *final(falloc) == grown;
            assert(r->Ok_0 == out);
            assert(call_ensures(f, (m, a), r->Ok_0));
            assert(old(self).populating(*m, *table, *old(temporary_page)));
            assert(final(m)@ == self.page_directory.mappings_of(table.p4_frame@));
            assert(*final(a) == *allocator);
            assert(final(m).tables().dom() == self.page_directory.tables().dom());
        }
        r
    }

    /// Makes `new_table` the active address space and returns the one that
    /// was active, as an inactive table. From here on the processor walks
    /// `new_table`: what is not mapped there is gone.
    ///
    /// Fails with `UsageViolation`, and changes nothing, while another
    /// address space is being populated.
    pub fn switch(&mut self, new_table: InactivePageTable) -> (r: Result<
        InactivePageTable,
        MemoryError,
    >)
        requires
            old(self).wf(),
            old(self).page_directory.is_root(new_table.p4_frame@),
        ensures
            final(self).wf(),
            final(self).page_directory.tables() == old(self).page_directory.tables(),
            forall|f: u64| #[trigger]
                final(self).page_directory.is_root(f) == old(self).page_directory.is_root(f),
            r is Err <==> old(self).page_directory.is_populating(),
            r is Err ==> r->Err_0 == MemoryError::UsageViolation
                && final(self).page_directory.active_root()
                    == old(self).page_directory.active_root(),
            r is Ok ==> {
                &&& r->Ok_0.p4_frame@ == old(self).page_directory.active_root()
                &&& final(self).page_directory.active_root() == new_table.p4_frame@
                &&& final(self).page_directory.root() == new_table.p4_frame@
                &&& final(self).page_directory@ == old(self).page_directory.mappings_of(
                    new_table.p4_frame@,
                )
            },
    {
        match self.page_directory.switch_to(new_table.p4_frame) {
            Ok(previous) => Ok(InactivePageTable { p4_frame: previous }),
            Err(e) => Err(e),
        }
    }
}

} // verus!
