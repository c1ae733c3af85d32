//! The translator and the frame allocator that the kernel shares, and the
//! region of the kernel heap.

use vstd::prelude::*;
use crate::memory::address::{is_aligned, PhysAddr, VirtAddr, PAGE_SIZE};
use crate::memory::allocator::boot_info_frame_allocator::BootInfoFrameAllocator;
use crate::memory::allocator::{
    after_allocations, lemma_spent_exactly, lemma_spent_in_turn, spent, FrameAllocator,
};
use crate::memory::paging::helpers::alloc_page;
use crate::memory::paging::separation::separate;
use crate::memory::paging::tables::lemma_lower_half_is_free;
use crate::memory::paging::translator::AddressTranslator;
use crate::memory::MemoryError;

verus! {

/// First address of the kernel heap.
pub const HEAP_START: u64 = 0x4444_4444_0000;

/// Size of the kernel heap in bytes: 100 KiB.
pub const HEAP_SIZE: u64 = 100 * 1024;

/// The number of pages of the kernel heap.
pub open spec fn heap_pages() -> nat {
    (HEAP_SIZE / PAGE_SIZE) as nat
}

/// What every part of the kernel that maps or allocates memory works on:
/// the one translator and the one frame allocator. It is handed on by
/// reference, so that one part at a time can change it.
pub struct KernelContext {
    /// The translator over the active tables.
    pub mapper: AddressTranslator,
    /// The allocator of physical frames.
    pub frame_allocator: BootInfoFrameAllocator,
}

impl KernelContext {
    /// What holds of every context that this crate hands out.
    pub open spec fn wf(&self) -> bool {
        self.mapper.wf()
    }

    /// The context over `mapper` and `frame_allocator`.
    pub fn new(mapper: AddressTranslator, frame_allocator: BootInfoFrameAllocator) -> (r: Self)
        requires
            mapper.wf(),
        ensures
            r.wf(),
            r.mapper == mapper,
            r.frame_allocator == frame_allocator,
    {
        KernelContext { mapper, frame_allocator }
    }
}

/// Lends the frame allocator of `context` to `f` and returns what `f`
/// returns. The translator of `context` is not touched.
pub fn use_allocator<F, R>(context: &mut KernelContext, f: F) -> (r: R) where
    F: FnOnce(&mut BootInfoFrameAllocator) -> R,

    requires
        forall|falloc: &mut BootInfoFrameAllocator|
            *falloc == old(context).frame_allocator ==> call_requires(f, (falloc,)),
    ensures
        final(context).mapper == old(context).mapper,
        exists|falloc: &mut BootInfoFrameAllocator|
            #![trigger call_ensures(f, (falloc,), r)]
            *falloc == old(context).frame_allocator && *final(falloc)
                == final(context).frame_allocator && call_ensures(f, (falloc,), r),
{
    f(&mut context.frame_allocator)
}

/// Whether the page that starts at `page` is a page of the kernel heap.
pub open spec fn is_heap_page(page: u64) -> bool {
    is_aligned(page) && HEAP_START <= page < HEAP_START + HEAP_SIZE
}

/// Whether the page that starts at `page` is in `after` what the mapping of
/// the heap up to `end` makes of it: a page of the heap below `end` was not
/// mapped in `before` and is mapped now, present and writable, to a frame
/// below `limit`; any other page is as it was in `before`.
pub open spec fn heap_page_mapped(
    before: Map<u64, (u64, u64)>,
    after: Map<u64, (u64, u64)>,
    end: u64,
    limit: u64,
    page: u64,
) -> bool {
    if is_heap_page(page) && page < end {
        &&& !before.dom().contains(page)
        &&& after.dom().contains(page)
        &&& after[page].1 == 3
        &&& after[page].0 < limit
    } else {
        &&& after.dom().contains(page) == before.dom().contains(page)
        &&& before.dom().contains(page) ==> after[page] == before[page]
    }
}

/// Whether, of two pages of the heap below `end`, the higher one is mapped
/// to the higher frame.
pub open spec fn heap_frames_ascend(after: Map<u64, (u64, u64)>, end: u64, low: u64, high: u64)
    -> bool {
    is_heap_page(low) && is_heap_page(high) && low < high < end ==> after[low].0 < after[high].0
}

/// Whether `after` is `before` with the pages of the heap from `HEAP_START`
/// up to `end` mapped, each present and writable, to frames that ascend with
/// the pages and lie below `limit`; the other pages are as they were.
pub open spec fn heap_mapped(
    before: Map<u64, (u64, u64)>,
    after: Map<u64, (u64, u64)>,
    end: u64,
    limit: u64,
) -> bool {
    &&& forall|page: u64| #[trigger] heap_page_mapped(before, after, end, limit, page)
    &&& forall|low: u64, high: u64| #[trigger] heap_frames_ascend(after, end, low, high)
}

/// Maps every page of the kernel heap, each to the next frame of the
/// allocator, present and writable. The region from `HEAP_START`, of
/// `HEAP_SIZE` bytes, can then be handed to the heap allocator.
///
/// Fails with `Exhaustion` where the allocator runs out of frames, with
/// `AlreadyMapped` where a page of the heap is mapped, and with
/// `UsageViolation` where the allocator hands out a frame that holds a table.
/// The pages of the heap below the one that failed stay mapped.
///
/// It asks the allocator for at most four frames for each page. Where the
/// allocator has a frame left after that many and may hand out none that
/// holds a table, and no page of the heap is mapped, the call succeeds.
pub fn init_heap(context: &mut KernelContext) -> (r: Result<(), MemoryError>)
    requires
        old(context).wf(),
    ensures
        final(context).wf(),
        final(context).mapper.follows(old(context).mapper),
        r is Ok ==> heap_mapped(
            old(context).mapper@,
            final(context).mapper@,
            (HEAP_START + HEAP_SIZE) as u64,
            final(context).frame_allocator.cursor(),
        ),
        r is Err ==> r->Err_0 == MemoryError::Exhaustion || r->Err_0 == MemoryError::AlreadyMapped
            || r->Err_0 == MemoryError::UsageViolation,
        r == Err::<(), MemoryError>(MemoryError::Exhaustion)
            ==> final(context).frame_allocator.next_frame() is None,
        r == Err::<(), MemoryError>(MemoryError::AlreadyMapped) ==> exists|page: u64|
            is_heap_page(page) && old(context).mapper@.dom().contains(page),
        separate(old(context).mapper, old(context).frame_allocator) ==> separate(
            final(context).mapper,
            final(context).frame_allocator,
        ) && r != Err::<(), MemoryError>(MemoryError::UsageViolation),
        spent(old(context).frame_allocator, final(context).frame_allocator, 4 * heap_pages()),
        ({
            &&& separate(old(context).mapper, old(context).frame_allocator)
            &&& forall|page: u64| is_heap_page(page) ==> !old(context).mapper@.dom().contains(page)
            &&& after_allocations(
                old(context).frame_allocator,
                4 * heap_pages(),
            ).next_frame() is Some
        }) ==> r is Ok,
{
    let mut page: u64 = HEAP_START;
    let ghost source = context.frame_allocator;
    proof {
        lemma_spent_exactly(source, 0, 0);
        context.mapper.lemma_follows_refl();
        assert forall|p: u64| #[trigger]
            heap_page_mapped(
                context.mapper@,
                context.mapper@,
                page,
                context.frame_allocator.cursor(),
                p,
            ) by {}
    }
    while page < HEAP_START + HEAP_SIZE
        invariant
            context.wf(),
            context.mapper.follows(old(context).mapper),
            is_aligned(page),
            HEAP_START <= page <= HEAP_START + HEAP_SIZE,
            heap_mapped(
                old(context).mapper@,
                context.mapper@,
                page,
                context.frame_allocator.cursor(),
            ),
            separate(old(context).mapper, old(context).frame_allocator) ==> separate(
                context.mapper,
                context.frame_allocator,
            ),
            source == old(context).frame_allocator,
            spent(source, context.frame_allocator, 4 * ((page - HEAP_START) / 4096) as nat),
        decreases HEAP_START + HEAP_SIZE - page,
    {
        let ghost before = context.mapper;
        let ghost supply = context.frame_allocator;
        proof {
            lemma_lower_half_is_free(page);
            before.lemma_calls_bounded(page, supply);
        }
        let mapped: Result<PhysAddr, MemoryError> = alloc_page(context, VirtAddr::new(page));
        proof {
            context.mapper.lemma_follows_trans(before, old(context).mapper);
            supply.lemma_after_allocation();
            lemma_spent_exactly(supply, before.map_calls(page, supply), 4);
            lemma_spent_in_turn(
                source,
                supply,
                context.frame_allocator,
                4 * ((page - HEAP_START) / 4096) as nat,
                4,
            );
        }
        match mapped {
            Ok(_) => {},
            Err(e) => {
                proof {
                    if e == MemoryError::Exhaustion {
                        assert(spent(source, context.frame_allocator, 4 * heap_pages()));
                        BootInfoFrameAllocator::lemma_spent_exhausted(
                            source,
                            context.frame_allocator,
                            4 * heap_pages(),
                        );
                    }
                    if e == MemoryError::AlreadyMapped {
                        assert(before@.dom().contains(page));
                        assert(is_heap_page(page));
                        assert(heap_page_mapped(
                            old(context).mapper@,
                            before@,
                            page,
                            supply.cursor(),
                            page,
                        ));
                    }
                }
                return Err(e);
            },
        }
        proof {
            lemma_heap_grows(
                old(context).mapper@,
                before@,
                context.mapper@,
                page,
                supply.cursor(),
                context.frame_allocator.cursor(),
            );
        }
        page = page + PAGE_SIZE;
    }
    Ok(())
}

/// Mapping the heap page at `page` to a frame between the limits extends
/// the mapped part of the heap by that page.
proof fn lemma_heap_grows(
    start: Map<u64, (u64, u64)>,
    before: Map<u64, (u64, u64)>,
    after: Map<u64, (u64, u64)>,
    page: u64,
    low: u64,
    high: u64,
)
    requires
        is_heap_page(page),
        heap_mapped(start, before, page, low),
        !before.dom().contains(page),
        after == before.insert(page, (after[page].0, 3u64)),
        low <= after[page].0 < high,
    ensures
        heap_mapped(start, after, (page + PAGE_SIZE) as u64, high),
{
    let end = (page + PAGE_SIZE) as u64;
    let frame = after[page].0;
    assert(after.dom().contains(page) && after[page] == (frame, 3u64));
    assert(heap_page_mapped(start, before, page, low, page));
    assert forall|p: u64| #[trigger] heap_page_mapped(start, after, end, high, p) by {
        assert(heap_page_mapped(start, before, page, low, p));
        if is_heap_page(p) && p < end {
            if p < page {
                assert(after[p] == before[p]);
            } else {
                lemma_next_heap_page(page, p);
            }
        }
    }
    assert forall|a: u64, b: u64| #[trigger] heap_frames_ascend(after, end, a, b) by {
        if is_heap_page(a) && is_heap_page(b) && a < b < end {
            if a >= page {
                lemma_next_heap_page(page, a);
                lemma_next_heap_page(page, b);
            }
            assert(heap_page_mapped(start, before, page, low, a));
            assert(after[a] == before[a]);
            if b < page {
                assert(heap_page_mapped(start, before, page, low, b));
                assert(after[b] == before[b]);
                assert(heap_frames_ascend(before, page, a, b));
            } else {
                lemma_next_heap_page(page, b);
            }
        }
    }
}

/// The one aligned address from `page` up to the next page is `page`.
proof fn lemma_next_heap_page(page: u64, other: u64)
    requires
        is_aligned(page),
        is_aligned(other),
        page <= other < page + PAGE_SIZE,
    ensures
        other == page,
{
    if page < other {
        assert(false) by (nonlinear_arith)
            requires
                page % 4096 == 0,
                other % 4096 == 0,
                page < other < page + 4096,
        ;
    }
}

} // verus!
