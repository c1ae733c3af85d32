//! Keeping the frames of the tables apart from the frames that the boot
//! allocator has still to hand out.
//!
//! A table must never be made in a frame that holds a table already. The
//! translator refuses such a frame. It is never offered one where no frame
//! that holds a table is one that the allocator may still hand out, and that
//! stays so as long as every new table stands in a frame of that allocator.

use vstd::prelude::*;
use crate::memory::allocator::boot_info_frame_allocator::BootInfoFrameAllocator;
use crate::memory::allocator::{after_allocations, FrameAllocator};
use crate::memory::paging::tables::{came_from, missing_tables, supply_calls, supply_error};
use crate::memory::paging::translator::AddressTranslator;
use crate::memory::MemoryError;

verus! {

/// Whether no frame that holds a table of `mapper` is one that `allocator`
/// may still hand out. Where this holds, the allocator never hands out a
/// frame that is in use for a table, and it stays so as the tables that
/// `mapper` makes stand in frames of `allocator`.
pub open spec fn separate(mapper: AddressTranslator, allocator: BootInfoFrameAllocator) -> bool {
    forall|f: u64| #[trigger] mapper.holds_table(f) ==> !allocator.may_hand_out(f)
}

/// An allocator that may hand out none of the frames in use supplies frames
/// without handing out one that is in use.
pub proof fn lemma_separate_supply(allocator: BootInfoFrameAllocator, in_use: Set<u64>, count: nat)
    requires
        forall|f: u64| #[trigger] in_use.contains(f) ==> !allocator.may_hand_out(f),
    ensures
        supply_error(allocator, in_use, count) != Some(MemoryError::UsageViolation),
    decreases count,
{
    reveal_with_fuel(supply_error, 2);
    allocator.lemma_after_allocation();
    if count > 0 {
        match allocator.next_frame() {
            None => {},
            Some(frame) => {
                let next = allocator.after_allocation();
                assert forall|f: u64| #[trigger] in_use.insert(frame).contains(f)
                    implies !next.may_hand_out(
                    f,
                ) by {
                    if next.may_hand_out(f) {
                        reveal_with_fuel(after_allocations, 2);
                        assert(next == after_allocations(allocator, 1));
                        allocator.lemma_may_hand_out_before(1, f);
                    }
                }
                lemma_separate_supply(next, in_use.insert(frame), (count - 1) as nat);
            },
        }
    }
}

/// Where the translator and the allocator are separate, the allocator
/// supplies frames for tables without handing out one that holds a table.
pub proof fn lemma_separate_supplies(
    mapper: AddressTranslator,
    allocator: BootInfoFrameAllocator,
    count: nat,
)
    requires
        separate(mapper, allocator),
    ensures
        supply_error(allocator, mapper.tables().dom(), count) != Some(
            MemoryError::UsageViolation,
        ),
{
    let in_use = mapper.tables().dom();
    assert forall|f: u64| #[trigger] in_use.contains(f) implies !allocator.may_hand_out(f) by {
        assert(mapper.holds_table(f));
    }
    lemma_separate_supply(allocator, in_use, count);
}

/// Tables that came from frames of the allocator keep the translator and the
/// allocator separate.
pub proof fn lemma_separate_kept(
    before: AddressTranslator,
    after: AddressTranslator,
    allocator: BootInfoFrameAllocator,
    calls: nat,
)
    requires
        separate(before, allocator),
        forall|f: u64| #[trigger] came_from(before.tables(), after.tables(), allocator, calls, f),
    ensures
        separate(after, after_allocations(allocator, calls)),
{
    let later = after_allocations(allocator, calls);
    assert forall|f: u64| #[trigger] after.holds_table(f) implies !later.may_hand_out(f) by {
        assert(came_from(before.tables(), after.tables(), allocator, calls, f));
        if before.holds_table(f) {
            if later.may_hand_out(f) {
                allocator.lemma_may_hand_out_before(calls, f);
            }
        } else {
            allocator.lemma_handed_out(calls, f);
        }
    }
}

/// What keeps a translator and an allocator separate keeps them so as the
/// allocator hands out frames.
pub proof fn lemma_separate_later(
    mapper: AddressTranslator,
    allocator: BootInfoFrameAllocator,
    calls: nat,
)
    requires
        separate(mapper, allocator),
    ensures
        separate(mapper, after_allocations(allocator, calls)),
{
    let later = after_allocations(allocator, calls);
    assert forall|f: u64| #[trigger] mapper.holds_table(f) implies !later.may_hand_out(f) by {
        if later.may_hand_out(f) {
            allocator.lemma_may_hand_out_before(calls, f);
        }
    }
}

/// Where mapping fails for want of a frame, the boot allocator has none
/// left.
pub proof fn lemma_map_exhausted(
    mapper: AddressTranslator,
    page: u64,
    before: BootInfoFrameAllocator,
    after: BootInfoFrameAllocator,
)
    requires
        mapper.map_to_error(page, before) == Some(MemoryError::Exhaustion),
        after == after_allocations(before, mapper.map_to_calls(page, before)),
    ensures
        after.next_frame() is None,
{
    let in_use = mapper.tables().dom();
    let count = missing_tables(mapper.tables(), mapper.root(), page);
    lemma_supply_exhausted(before, in_use, count);
}

/// Where the boot allocator runs out while it supplies frames, it is
/// exhausted afterwards.
pub proof fn lemma_supply_exhausted(allocator: BootInfoFrameAllocator, in_use: Set<u64>, count: nat)
    requires
        supply_error(allocator, in_use, count) == Some(MemoryError::Exhaustion),
    ensures
        after_allocations(allocator, supply_calls(allocator, in_use, count)).next_frame() is None,
    decreases count,
{
    reveal_with_fuel(supply_error, 2);
    reveal_with_fuel(supply_calls, 2);
    reveal_with_fuel(after_allocations, 2);
    allocator.lemma_after_allocation();
    if count > 0 {
        match allocator.next_frame() {
            None => {},
            Some(frame) => {
                if !in_use.contains(frame) {
                    lemma_supply_exhausted(
                        allocator.after_allocation(),
                        in_use.insert(frame),
                        (count - 1) as nat,
                    );
                }
            },
        }
    }
}

} // verus!
