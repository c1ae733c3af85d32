//! A level 4 table that has been built but is not loaded.

use vstd::prelude::*;
use crate::memory::address::{Page, PhysFrame};
use crate::memory::paging::page_tables::active_page_table::ActivePageTable;
use crate::memory::paging::page_tables::temporary_page::{table_from_reservoir, TemporaryPage};
use crate::memory::MemoryError;

verus! {

/// A level 4 table that the processor does not walk. It becomes active by
/// `ActivePageTable::switch` only.
#[derive(Clone, Copy, PartialEq, Eq, Structural, Debug)]
pub struct InactivePageTable {
    /// The frame that holds the table.
    pub p4_frame: PhysFrame,
}

impl InactivePageTable {
    /// Makes `frame` a new level 4 table with an empty address space. The
    /// frame is reached through `temporary_page`, cleared, and given its
    /// self-reference; then the window is unmapped again.
    ///
    /// Fails as `TemporaryPage::map` does, and with `UsageViolation` where
    /// `frame` already holds a table. A failure changes no address space.
    pub fn new(
        frame: PhysFrame,
        active_table: &mut ActivePageTable,
        temporary_page: &mut TemporaryPage,
    ) -> (r: Result<InactivePageTable, MemoryError>)
        requires
            old(active_table).wf(),
        ensures
            final(active_table).wf(),
            final(temporary_page).page() == old(temporary_page).page(),
            final(active_table).page_directory.active_root()
                == old(active_table).page_directory.active_root(),
            final(active_table).page_directory.root() == old(active_table).page_directory.root(),
            forall|f: u64|
                old(active_table).page_directory.is_root(f)
                    ==> #[trigger] final(active_table).page_directory.mappings_of(f)
                        == old(active_table).page_directory.mappings_of(f),
            forall|f: u64|
                old(active_table).page_directory.holds_table(f)
                    ==> #[trigger] final(active_table).page_directory.holds_table(f),
            forall|f: u64| #[trigger]
                final(active_table).page_directory.is_root(f)
                    == (old(active_table).page_directory.is_root(f) || (r is Ok && f == frame@)),
            r is Ok ==> r->Ok_0.p4_frame == frame && !old(active_table).page_directory.holds_table(
                frame@,
            ) && final(active_table).page_directory.mappings_of(frame@) == Map::<
                u64,
                (u64, u64),
            >::empty(),
            old(temporary_page).map_error(old(active_table).page_directory) matches Some(e) ==> r
                == Err::<InactivePageTable, MemoryError>(e),
            old(temporary_page).map_error(old(active_table).page_directory) is None ==> (r is Ok
                || r == Err::<InactivePageTable, MemoryError>(MemoryError::UsageViolation)),
            old(active_table).page_directory.holds_table(frame@) ==> r is Err,
            r is Err ==> r->Err_0 == MemoryError::UsageViolation || r->Err_0
                == MemoryError::Exhaustion,
            r is Ok ==> final(active_table).page_directory.reaches(old(temporary_page).page()@),
            final(temporary_page).reservoir().within(old(temporary_page).reservoir()),
            forall|f: u64| #[trigger]
                table_from_reservoir(
                    old(active_table).page_directory,
                    final(active_table).page_directory,
                    old(temporary_page).reservoir(),
                    f,
                ) || f == frame@,
            (old(temporary_page).map_error(old(active_table).page_directory) is None
                && !old(active_table).page_directory.holds_table(frame@)
                    && !old(temporary_page).reservoir().holds(frame@))
                ==> r is Ok,
    {
        let ghost before = active_table.page_directory;
        let window: Page = match temporary_page.map_table_frame(frame, active_table) {
            Ok(page) => page,
            Err(e) => {
                return Err(e);
            },
        };
        let ghost mapped = active_table.page_directory;
        let ghost reservoir = temporary_page.reservoir();
        proof {
            assert(table_from_reservoir(before, mapped, old(temporary_page).reservoir(), frame@));
            use_type_invariant(&window);
            before.lemma_roots();
            mapped.lemma_roots();
            assert(mapped@.dom().contains(window@));
            assert(mapped@[window@] == (frame@, 3u64));
            assert(mapped.resolve(window@) == Some((frame@, 3u64)));
        }
        let formatted: Result<PhysFrame, MemoryError> = active_table.page_directory.format_root(
            window,
        );
        let ghost formed = active_table.page_directory;
        proof {
            assert(formed@ == mapped@);
            assert(formed@.dom().contains(window@));
        }
        let unmapped = temporary_page.unmap(active_table);
        proof {
            let last = active_table.page_directory;
            assert(last@ =~= before@);
            assert forall|f: u64| before.is_root(f) implies #[trigger] last.mappings_of(f)
                == before.mappings_of(f) by {
                if f != before.root() {
                    assert(mapped.mappings_of(f) == before.mappings_of(f));
                    assert(formed.mappings_of(f) == mapped.mappings_of(f));
                    assert(last.mappings_of(f) == formed.mappings_of(f));
                }
            }
            assert forall|f: u64| before.holds_table(f) implies #[trigger] last.holds_table(f) by {
                assert(mapped.holds_table(f));
                assert(formed.holds_table(f));
            }
            assert forall|f: u64| #[trigger]
                last.is_root(f) == (before.is_root(f) || (formatted is Ok && f == frame@)) by {
                assert(mapped.is_root(f) == before.is_root(f));
                assert(last.is_root(f) == formed.is_root(f));
            }
            if formatted is Ok {
                assert(formed.is_root(frame@));
                assert(last.mappings_of(frame@) == formed.mappings_of(frame@));
                assert(!mapped.holds_table(frame@));
            }
            assert forall|f: u64| #[trigger]
                table_from_reservoir(before, last, old(temporary_page).reservoir(), f) || f
                    == frame@ by {
                assert(table_from_reservoir(before, mapped, old(temporary_page).reservoir(), f));
                assert(last.holds_table(f) == formed.holds_table(f));
            }
        }
        match formatted {
            Ok(_) => Ok(InactivePageTable { p4_frame: frame }),
            Err(e) => Err(e),
        }
    }
}

} // verus!
