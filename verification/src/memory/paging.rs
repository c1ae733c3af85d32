//! Four-level address translation with a recursive self-reference.

use vstd::prelude::*;
use crate::memory::address::{Page, PhysAddr, PhysFrame, VirtAddr};
use crate::memory::allocator::allocator::KernelContext;
use crate::memory::allocator::{after_allocations, FrameAllocator};
use crate::memory::MemoryError;

pub mod address_space;
pub mod helpers;
pub mod page_table;
pub mod page_tables;
pub mod remap_kernel;
pub mod separation;
pub mod tables;
pub mod translator;

verus! {

/// Size of a page in bytes.
pub const PAGE_SIZE: u64 = crate::memory::address::PAGE_SIZE;

/// Virtual address at which the recursive self-reference shows the level 4
/// table that translation currently lands in.
pub const P4: u64 = 0xffff_ffff_ffff_f000;

/// The slot of every level 4 table that is reserved for the self-reference.
pub const RECURSIVE_INDEX: usize = 511;

/// An address inside the page through which `new_page_table` reaches the
/// frame of the table that it makes.
pub const NEW_TABLE_ADDRESS: u64 = 0xcafe_b000;

/// Makes a new level 4 table in the next frame of the allocator of
/// `context`: the frame is mapped at `NEW_TABLE_ADDRESS`, cleared through
/// that page and given its self-reference. The page stays mapped. Returns
/// the frame of the table.
///
/// Fails as `helpers::alloc_page` does, and then changes no address space.
pub fn new_page_table(context: &mut KernelContext) -> (r: Result<PhysFrame, MemoryError>)
    requires
        old(context).wf(),
    ensures
        final(context).wf(),
        final(context).mapper.active_root() == old(context).mapper.active_root(),
        final(context).mapper.root() == old(context).mapper.root(),
        r is Err <==> old(context).mapper.map_error(
            NEW_TABLE_ADDRESS,
            old(context).frame_allocator,
        ) is Some,
        r is Err ==> Some(r->Err_0) == old(context).mapper.map_error(
            NEW_TABLE_ADDRESS,
            old(context).frame_allocator,
        ),
        r is Err ==> final(context).mapper@ == old(context).mapper@,
        r is Ok ==> {
            &&& Some(r->Ok_0@) == old(context).frame_allocator.next_frame()
            &&& final(context).mapper.is_root(r->Ok_0@)
            &&& final(context).mapper.mappings_of(r->Ok_0@) == Map::<u64, (u64, u64)>::empty()
            &&& final(context).mapper@ == old(context).mapper@.insert(
                NEW_TABLE_ADDRESS,
                (r->Ok_0@, 3u64),
            )
        },
        final(context).frame_allocator == after_allocations(
            old(context).frame_allocator,
            old(context).mapper.map_calls(NEW_TABLE_ADDRESS, old(context).frame_allocator),
        ),
{
    let window: VirtAddr = VirtAddr::new(NEW_TABLE_ADDRESS);
    let ghost before = context.mapper;
    let phys: PhysAddr = match helpers::alloc_page(context, window) {
        Ok(phys) => phys,
        Err(e) => {
            return Err(e);
        },
    };
    let ghost mapped = context.mapper;
    let page: Page = Page::containing_address(window);
    proof {
        assert(mapped@.dom().contains(NEW_TABLE_ADDRESS));
        assert(mapped@[NEW_TABLE_ADDRESS] == (phys@, 3u64));
        assert(mapped.resolve(NEW_TABLE_ADDRESS) == Some((phys@, 3u64)));
        before.lemma_roots();
        mapped.lemma_roots();
    }
    match context.mapper.format_root(page) {
        Ok(frame) => Ok(frame),
        Err(e) => Err(e),
    }
}

} // verus!
