//! Mapping and translating through a given translator and allocator.

use vstd::prelude::*;
use crate::memory::address::{
    align_down, Page, PageTableFlags, PhysAddr, PhysFrame, VirtAddr, PAGE_SIZE,
};
use crate::memory::allocator::allocator::{use_allocator, KernelContext};
use crate::memory::allocator::boot_info_frame_allocator::BootInfoFrameAllocator;
use crate::memory::allocator::{after_allocations, FrameAllocator};
use crate::memory::paging::address_space::after_map;
use crate::memory::paging::separation::{
    lemma_map_exhausted, lemma_separate_kept, lemma_separate_later, lemma_separate_supplies,
    separate,
};
use crate::memory::paging::tables::{
    came_from, is_reserved, lemma_lower_half_is_free, lemma_supply_error_kinds, missing_tables,
};
use crate::memory::paging::translator::{AddressTranslator, MapperFlush};
use crate::memory::MemoryError;

verus! {

/// Maps the page that contains `page_addr`, present and writable, to the
/// next frame of the allocator of `context`, and returns the start address of
/// that frame.
///
/// Fails as `AddressTranslator::map` does, and then changes no address
/// space. Where the allocator may hand out no frame that holds a table, it
/// fails with `UsageViolation` only for a page in the reserved part of the
/// address space.
pub fn alloc_page(context: &mut KernelContext, page_addr: VirtAddr) -> (r: Result<
    PhysAddr,
    MemoryError,
>)
    requires
        old(context).wf(),
    ensures
        final(context).wf(),
        final(context).mapper.follows(old(context).mapper),
        r is Err <==> old(context).mapper.map_error(
            align_down(page_addr@),
            old(context).frame_allocator,
        ) is Some,
        r is Err ==> Some(r->Err_0) == old(context).mapper.map_error(
            align_down(page_addr@),
            old(context).frame_allocator,
        ),
        r is Err ==> final(context).mapper@ == old(context).mapper@,
        r is Err ==> r->Err_0 == MemoryError::AlreadyMapped || r->Err_0
            == MemoryError::UsageViolation || r->Err_0 == MemoryError::Exhaustion,
        r == Err::<PhysAddr, MemoryError>(MemoryError::AlreadyMapped)
            <==> old(context).mapper@.dom().contains(align_down(page_addr@)),
        r is Ok ==> Some(r->Ok_0@) == old(context).frame_allocator.next_frame(),
        r is Ok ==> final(context).mapper@ == old(context).mapper@.insert(
            align_down(page_addr@),
            (r->Ok_0@, 3u64),
        ),
        r is Ok ==> old(context).frame_allocator.cursor() <= r->Ok_0@,
        r is Ok ==> r->Ok_0@ < final(context).frame_allocator.cursor(),
        r is Ok ==> !final(context).mapper.holds_table(r->Ok_0@),
        final(context).frame_allocator == after_allocations(
            old(context).frame_allocator,
            old(context).mapper.map_calls(align_down(page_addr@), old(context).frame_allocator),
        ),
        r == Err::<PhysAddr, MemoryError>(MemoryError::Exhaustion)
            ==> final(context).frame_allocator.next_frame() is None,
        separate(old(context).mapper, old(context).frame_allocator) ==> separate(
            final(context).mapper,
            final(context).frame_allocator,
        ) && (r == Err::<PhysAddr, MemoryError>(MemoryError::UsageViolation) <==> is_reserved(
            align_down(page_addr@),
        )),
{
    let ghost supply = context.frame_allocator;
    let ghost before = context.mapper;
    let ghost page = align_down(page_addr@);
    let ghost calls = before.map_calls(page, supply);
    proof {
        supply.lemma_after_allocation();
        reveal_with_fuel(after_allocations, 2);
        if separate(before, supply) {
            lemma_separate_later(before, supply, 1);
            lemma_separate_supplies(
                before,
                supply.after_allocation(),
                missing_tables(before.tables(), before.root(), page),
            );
            if supply.next_frame() is Some {
                assert(!before.holds_table(supply.next_frame()->Some_0));
            }
        }
        lemma_supply_error_kinds(
            supply.after_allocation(),
            before.tables().dom(),
            missing_tables(before.tables(), before.root(), page),
        );
    }
    let flags: PageTableFlags = PageTableFlags::present_writable();
    let mapped: Result<(PhysFrame, MapperFlush), MemoryError> = context.mapper.map(
        Page::containing_address(page_addr),
        flags,
        &mut context.frame_allocator,
    );
    proof {
        BootInfoFrameAllocator::lemma_cursor_monotone(supply, calls);
        let taken = supply.after_allocation();
        let later = before.map_to_calls(page, taken);
        if separate(before, supply) {
            lemma_separate_kept(before, context.mapper, supply, calls);
        }
        if mapped is Ok {
            let frame = supply.next_frame()->Some_0;
            assert(came_from(before.tables(), context.mapper.tables(), taken, later, frame));
            if context.mapper.holds_table(frame) {
                taken.lemma_handed_out(later, frame);
                assert(taken.cursor() == frame + PAGE_SIZE);
            }
        }
        if mapped is Err && mapped->Err_0 == MemoryError::Exhaustion {
            if supply.next_frame() is Some {
                lemma_map_exhausted(before, page, supply.after_allocation(),
                    context.frame_allocator);
            }
        }
        if mapped is Ok {
            BootInfoFrameAllocator::lemma_cursor_monotone(
                supply.after_allocation(),
                before.map_to_calls(page, supply.after_allocation()),
            );
            crate::memory::allocator::lemma_after_allocations_split(
                supply,
                1,
                before.map_to_calls(page, supply.after_allocation()),
            );
        }
    }
    match mapped {
        Ok((frame, _)) => Ok(frame.start_address()),
        Err(e) => Err(e),
    }
}

/// The physical address that `virt` translates to through the translator
/// of `context`; `None` where its page is not mapped.
pub fn translate_addr(context: &KernelContext, virt: VirtAddr) -> (r: Option<PhysAddr>)
    requires
        context.wf(),
    ensures
        r is Some <==> context.mapper.resolve(align_down(virt@)) is Some,
        r is Some ==> r->Some_0@ == context.mapper.resolve(align_down(virt@))->Some_0.0 + virt@
            % PAGE_SIZE,
{
    translate_addr_with(virt, &context.mapper)
}

/// The physical address that `virt` translates to through `mapper`; `None`
/// where its page is not mapped.
pub fn translate_addr_with(virt: VirtAddr, mapper: &AddressTranslator) -> (r: Option<PhysAddr>)
    requires
        mapper.wf(),
    ensures
        r is Some <==> mapper.resolve(align_down(virt@)) is Some,
        r is Some ==> r->Some_0@ == mapper.resolve(align_down(virt@))->Some_0.0 + virt@ % PAGE_SIZE,
{
    mapper.translate_addr(virt)
}

/// Maps the page that contains `page_addr` to `frame` with `flags` through
/// `mapper`; the tables that are missing are made in frames of `falloc`.
///
/// Fails as `AddressTranslator::map_to` does, and then changes no address
/// space.
pub fn map_to_with_alloc<A: FrameAllocator>(
    page_addr: VirtAddr,
    frame: PhysFrame,
    flags: PageTableFlags,
    mapper: &mut AddressTranslator,
    falloc: &mut A,
) -> (r: Result<MapperFlush, MemoryError>)
    requires
        old(mapper).wf(),
    ensures
        final(mapper).wf(),
        final(mapper).follows(*old(mapper)),
        r is Ok ==> r->Ok_0.page@ == align_down(page_addr@) && final(mapper).reaches(
            align_down(page_addr@),
        ),
        r is Ok ==> final(mapper)@ == after_map(
            old(mapper)@,
            align_down(page_addr@),
            frame@,
            flags@,
        ),
        r is Err ==> final(mapper)@ == old(mapper)@,
        r is Err <==> old(mapper).map_to_error(align_down(page_addr@), *old(falloc)) is Some,
        r is Err ==> Some(r->Err_0) == old(mapper).map_to_error(
            align_down(page_addr@),
            *old(falloc),
        ),
        *final(falloc) == after_allocations(
            *old(falloc),
            old(mapper).map_to_calls(align_down(page_addr@), *old(falloc)),
        ),
        r == Err::<MapperFlush, MemoryError>(MemoryError::AlreadyMapped)
            <==> old(mapper)@.dom().contains(align_down(page_addr@)),
        r is Err ==> r->Err_0 == MemoryError::AlreadyMapped || r->Err_0
            == MemoryError::UsageViolation || r->Err_0 == MemoryError::Exhaustion,
        forall|f: u64| #[trigger]
            came_from(
                old(mapper).tables(),
                final(mapper).tables(),
                *old(falloc),
                old(mapper).map_to_calls(align_down(page_addr@), *old(falloc)),
                f,
            ),
{
    let page: Page = Page::containing_address(page_addr);
    mapper.map_to(page, frame, flags, falloc)
}

/// Maps the page that contains `page_addr` to `frame` with `flags` through
/// `mapper`; the tables that are missing are made in frames of the boot
/// allocator `falloc`.
pub fn map_to_with(
    page_addr: VirtAddr,
    frame: PhysFrame,
    flags: PageTableFlags,
    mapper: &mut AddressTranslator,
    falloc: &mut BootInfoFrameAllocator,
) -> (r: Result<MapperFlush, MemoryError>)
    requires
        old(mapper).wf(),
    ensures
        final(mapper).wf(),
        final(mapper).follows(*old(mapper)),
        r is Ok ==> r->Ok_0.page@ == align_down(page_addr@) && final(mapper).reaches(
            align_down(page_addr@),
        ),
        r is Ok ==> final(mapper)@ == after_map(
            old(mapper)@,
            align_down(page_addr@),
            frame@,
            flags@,
        ),
        r is Err ==> final(mapper)@ == old(mapper)@,
        r is Err <==> old(mapper).map_to_error(align_down(page_addr@), *old(falloc)) is Some,
        r is Err ==> Some(r->Err_0) == old(mapper).map_to_error(
            align_down(page_addr@),
            *old(falloc),
        ),
        *final(falloc) == after_allocations(
            *old(falloc),
            old(mapper).map_to_calls(align_down(page_addr@), *old(falloc)),
        ),
        r == Err::<MapperFlush, MemoryError>(MemoryError::AlreadyMapped)
            <==> old(mapper)@.dom().contains(align_down(page_addr@)),
        r is Err ==> r->Err_0 == MemoryError::AlreadyMapped || r->Err_0
            == MemoryError::UsageViolation || r->Err_0 == MemoryError::Exhaustion,
        separate(*old(mapper), *old(falloc)) ==> separate(*final(mapper), *final(falloc)) && (r
            == Err::<MapperFlush, MemoryError>(MemoryError::UsageViolation) <==> is_reserved(
            align_down(page_addr@),
        )),
{
    let ghost page = align_down(page_addr@);
    proof {
        if separate(*mapper, *falloc) {
            lemma_separate_supplies(
                *mapper,
                *falloc,
                missing_tables(mapper.tables(), mapper.root(), page),
            );
        }
    }
    let r = map_to_with_alloc(page_addr, frame, flags, mapper, falloc);
    proof {
        if separate(*old(mapper), *old(falloc)) {
            lemma_separate_kept(
                *old(mapper),
                *mapper,
                *old(falloc),
                old(mapper).map_to_calls(page, *old(falloc)),
            );
        }
    }
    r
}

/// Maps the page that starts where `frame` starts to `frame` with `flags`
/// through `mapper`; the tables that are missing are made in frames of the
/// boot allocator `falloc`.
///
/// Fails as `AddressTranslator::identity_map` does. Where `falloc` may hand
/// out no frame that holds a table, it does not fail with `UsageViolation`.
pub fn identity_map_with(
    frame: PhysFrame,
    flags: PageTableFlags,
    mapper: &mut AddressTranslator,
    falloc: &mut BootInfoFrameAllocator,
) -> (r: Result<MapperFlush, MemoryError>)
    requires
        old(mapper).wf(),
    ensures
        final(mapper).wf(),
        final(mapper).follows(*old(mapper)),
        r is Ok ==> r->Ok_0.page@ == frame@ && final(mapper).reaches(frame@),
        r is Ok ==> final(mapper)@ == after_map(old(mapper)@, frame@, frame@, flags@),
        r is Err ==> final(mapper)@ == old(mapper)@,
        r is Err <==> old(mapper).identity_map_error(frame@, *old(falloc)) is Some,
        r is Err ==> Some(r->Err_0) == old(mapper).identity_map_error(frame@, *old(falloc)),
        *final(falloc) == after_allocations(
            *old(falloc),
            old(mapper).identity_map_calls(frame@, *old(falloc)),
        ),
        separate(*old(mapper), *old(falloc)) ==> separate(*final(mapper), *final(falloc)) && r
            != Err::<MapperFlush, MemoryError>(MemoryError::UsageViolation),
{
    proof {
        use_type_invariant(&frame);
        if separate(*mapper, *falloc) {
            lemma_separate_supplies(
                *mapper,
                *falloc,
                missing_tables(mapper.tables(), mapper.root(), frame@),
            );
        }
        if frame@ < crate::memory::address::LOWER_HALF_END {
            lemma_lower_half_is_free(frame@);
        }
    }
    let r = mapper.identity_map(frame, flags, falloc);
    proof {
        if separate(*old(mapper), *old(falloc)) {
            lemma_separate_kept(
                *old(mapper),
                *mapper,
                *old(falloc),
                old(mapper).identity_map_calls(frame@, *old(falloc)),
            );
        }
    }
    r
}

/// Maps the page that contains `page_addr` to `frame` with `flags` through
/// the translator of `context`; the tables that are missing are made in
/// frames of its allocator.
///
/// Fails as `AddressTranslator::map_to` does, and then changes no address
/// space.
pub fn map_to(
    context: &mut KernelContext,
    page_addr: VirtAddr,
    frame: PhysFrame,
    flags: PageTableFlags,
) -> (r: Result<MapperFlush, MemoryError>)
    requires
        old(context).wf(),
    ensures
        final(context).wf(),
        final(context).mapper.follows(old(context).mapper),
        r is Ok ==> r->Ok_0.page@ == align_down(page_addr@),
        r is Ok ==> final(context).mapper@ == after_map(
            old(context).mapper@,
            align_down(page_addr@),
            frame@,
            flags@,
        ),
        r is Err ==> final(context).mapper@ == old(context).mapper@,
        r is Err <==> old(context).mapper.map_to_error(
            align_down(page_addr@),
            old(context).frame_allocator,
        ) is Some,
        r is Err ==> Some(r->Err_0) == old(context).mapper.map_to_error(
            align_down(page_addr@),
            old(context).frame_allocator,
        ),
        final(context).frame_allocator == after_allocations(
            old(context).frame_allocator,
            old(context).mapper.map_to_calls(align_down(page_addr@), old(context).frame_allocator),
        ),
{
    map_to_with(page_addr, frame, flags, &mut context.mapper, &mut context.frame_allocator)
}

/// Maps the page that starts where `frame` starts to `frame` with `flags`
/// through the translator of `context`; the tables that are missing are made
/// in frames of its allocator.
///
/// Fails as `AddressTranslator::identity_map` does, and then changes no
/// address space.
pub fn identity_map(context: &mut KernelContext, frame: PhysFrame, flags: PageTableFlags) -> (r:
    Result<MapperFlush, MemoryError>)
    requires
        old(context).wf(),
    ensures
        final(context).wf(),
        final(context).mapper.follows(old(context).mapper),
        r is Ok ==> r->Ok_0.page@ == frame@,
        r is Ok ==> final(context).mapper@ == after_map(
            old(context).mapper@,
            frame@,
            frame@,
            flags@,
        ),
        r is Err ==> final(context).mapper@ == old(context).mapper@,
        r is Err <==> old(context).mapper.identity_map_error(
            frame@,
            old(context).frame_allocator,
        ) is Some,
        r is Err ==> Some(r->Err_0) == old(context).mapper.identity_map_error(
            frame@,
            old(context).frame_allocator,
        ),
        final(context).frame_allocator == after_allocations(
            old(context).frame_allocator,
            old(context).mapper.identity_map_calls(frame@, old(context).frame_allocator),
        ),
{
    identity_map_with(frame, flags, &mut context.mapper, &mut context.frame_allocator)
}

/// Runs `f` on the frame allocator of `context` and returns what it
/// returns. The translator of `context` is not touched.
pub fn use_global_allocator<F, R>(context: &mut KernelContext, f: F) -> (r: R) where
    F: FnOnce(&mut BootInfoFrameAllocator) -> R,

    requires
        forall|falloc: &mut BootInfoFrameAllocator|
            *falloc == old(context).frame_allocator ==> call_requires(f, (falloc,)),
    ensures
        final(context).mapper == old(context).mapper,
        exists|falloc: &mut BootInfoFrameAllocator|
            #![trigger call_ensures(f, (falloc,), r)]
            *falloc == old(context).frame_allocator && *final(falloc)
                == final(context).frame_allocator && call_ensures(f, (falloc,), r),
{
    use_allocator(context, f)
}

} // verus!
