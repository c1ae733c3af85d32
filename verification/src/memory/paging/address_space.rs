//! Address spaces as maps, and what mapping, unmapping and translating mean
//! on them.
//!
//! An address space maps the start address of each mapped page to the start
//! address of its frame and its flag bits. The translator's operations are
//! specified by the functions of this file; the laws at its end follow.

use vstd::prelude::*;
use crate::memory::paging::page_table::entry_used;

verus! {

/// An address space: each mapped page, by its start address, with the start
/// address of its frame and its flag bits.
pub type AddressSpace = Map<u64, (u64, u64)>;

/// Whether the page that starts at `page` is mapped in `space`.
pub open spec fn is_mapped(space: AddressSpace, page: u64) -> bool {
    space.dom().contains(page)
}

/// `space` after the page at `page`, which is not mapped, has been mapped to
/// the frame at `frame` with `flags`. An entry whose frame address and flags
/// are all zero is an unused one: it maps nothing.
pub open spec fn after_map(space: AddressSpace, page: u64, frame: u64, flags: u64) -> AddressSpace {
    if entry_used((frame, flags)) {
        space.insert(page, (frame, flags))
    } else {
        space
    }
}

/// `space` after the mapping of the page at `page` has been taken away.
pub open spec fn after_unmap(space: AddressSpace, page: u64) -> AddressSpace {
    space.remove(page)
}

/// The start address of the frame that the page at `page` is mapped to in
/// `space`.
pub open spec fn frame_of(space: AddressSpace, page: u64) -> Option<u64> {
    if space.dom().contains(page) {
        Some(space[page].0)
    } else {
        None
    }
}

/// A page that has been mapped to a frame translates to that frame.
pub proof fn lemma_mapped_page_translates(space: AddressSpace, page: u64, frame: u64, flags: u64)
    requires
        entry_used((frame, flags)),
    ensures
        frame_of(after_map(space, page, frame, flags), page) == Some(frame),
{
}

/// A page translates as before after another page has been mapped or
/// unmapped: its translation stays until the page itself is unmapped or
/// mapped anew.
pub proof fn lemma_translation_stays(
    space: AddressSpace,
    page: u64,
    other: u64,
    frame: u64,
    flags: u64,
)
    requires
        other != page,
    ensures
        frame_of(after_map(space, other, frame, flags), page) == frame_of(space, page),
        frame_of(after_unmap(space, other), page) == frame_of(space, page),
{
}

/// Unmapping a page that has just been mapped to a frame gives that frame,
/// and leaves the address space as it was before the page was mapped.
pub proof fn lemma_map_then_unmap(space: AddressSpace, page: u64, frame: u64, flags: u64)
    requires
        !is_mapped(space, page),
        entry_used((frame, flags)),
    ensures
        frame_of(after_map(space, page, frame, flags), page) == Some(frame),
        after_unmap(after_map(space, page, frame, flags), page) == space,
{
    assert(space.insert(page, (frame, flags)).remove(page) =~= space);
}

/// A page that has been unmapped is not mapped: it translates to no frame.
pub proof fn lemma_unmapped_page_is_gone(space: AddressSpace, page: u64)
    ensures
        !is_mapped(after_unmap(space, page), page),
        frame_of(after_unmap(space, page), page) is None,
{
}

} // verus!
