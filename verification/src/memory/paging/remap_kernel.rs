//! Replaces the address space that the boot loader set up by one that holds
//! the kernel image, the video buffer and the boot information, and nothing
//! else.

use vstd::prelude::*;
use crate::memory::address::{
    align_down, is_aligned, Page, PageTableFlags, PhysAddr, PhysFrame, VirtAddr, LOWER_HALF_END,
    PAGE_SIZE,
};
use crate::memory::allocator::boot_info_frame_allocator::BootInfoFrameAllocator;
use crate::memory::allocator::{
    after_allocations, handed_out, lemma_spent_exactly, lemma_spent_in_turn, spent,
    FrameAllocator,
};
use crate::memory::boot_info::{BootMemoryDescriptor, ElfSection};
use crate::memory::paging::helpers::identity_map_with;
use crate::memory::paging::separation::{lemma_map_exhausted, lemma_separate_later, separate};
use crate::memory::paging::page_tables::active_page_table::ActivePageTable;
use crate::memory::paging::page_tables::inactive_page_table::InactivePageTable;
use crate::memory::paging::page_tables::temporary_page::{
    lemma_reservoir_fresh, lemma_reservoir_suffices, table_from_reservoir, TemporaryPage,
    TinyAllocator,
};
use crate::memory::paging::tables::{
    lemma_lower_half_is_free, lemma_supply_error_kinds, missing_tables,
};
use crate::memory::paging::address_space::frame_of;
use crate::memory::paging::translator::AddressTranslator;
use crate::memory::MemoryError;

verus! {

/// Address of the video buffer; its frame is mapped to itself.
pub const VGA_BUFFER_ADDRESS: u64 = 0xb8000;

/// An address inside the page that serves as the temporary page while the
/// new address space is built.
pub const TEMPORARY_PAGE_ADDRESS: u64 = 0xcafe_babe;

/// Whether the page that starts at `page` lies in `[align_down(start), end)`.
pub open spec fn in_range(start: u64, end: u64, page: u64) -> bool {
    is_aligned(page) && align_down(start) <= page < end
}

/// How many pages hold a byte of `[start, end)`.
pub open spec fn range_pages(start: u64, end: u64) -> nat {
    if align_down(start) < end {
        ((end - align_down(start) + PAGE_SIZE - 1) / PAGE_SIZE as int) as nat
    } else {
        0
    }
}

/// The regions that the kernel keeps mapped, in the order in which they are
/// mapped: the sections of the image, then the frame of the video buffer,
/// then the boot information. Region `index` as its first address, the
/// address past its last, and whether it is mapped at all: a section that
/// does not occupy memory at run time is not.
pub open spec fn region(boot_info: BootMemoryDescriptor, index: int) -> (u64, u64, bool) {
    let sections = boot_info.elf_sections@;
    if 0 <= index < sections.len() {
        (sections[index].start_address, sections[index].end_clamped(), sections[index].allocated)
    } else if index == sections.len() {
        (VGA_BUFFER_ADDRESS, (VGA_BUFFER_ADDRESS + PAGE_SIZE) as u64, true)
    } else if index == sections.len() + 1 {
        (boot_info.start_address, boot_info.end_address, true)
    } else {
        (0, 0, false)
    }
}

/// The number of regions.
pub open spec fn region_count(boot_info: BootMemoryDescriptor) -> int {
    boot_info.elf_sections@.len() as int + 2
}

/// Whether the page that starts at `page` holds a byte of region `index`.
pub open spec fn in_region(boot_info: BootMemoryDescriptor, index: int, page: u64) -> bool {
    region(boot_info, index).2 && in_range(
        region(boot_info, index).0,
        region(boot_info, index).1,
        page,
    )
}

/// Whether the page that starts at `page` holds a byte of one of the first
/// `count` regions.
pub open spec fn in_regions(boot_info: BootMemoryDescriptor, count: int, page: u64) -> bool {
    exists|index: int| 0 <= index < count && #[trigger] in_region(boot_info, index, page)
}

/// How many pages the first `count` regions take, a page counted once for
/// each region that it holds a byte of.
pub open spec fn regions_pages(boot_info: BootMemoryDescriptor, count: int) -> nat
    decreases count,
{
    if count <= 0 {
        0
    } else if region(boot_info, count - 1).2 {
        regions_pages(boot_info, count - 1) + range_pages(
            region(boot_info, count - 1).0,
            region(boot_info, count - 1).1,
        )
    } else {
        regions_pages(boot_info, count - 1)
    }
}

/// How many pages the kernel keeps mapped, a page counted once for each
/// region that it holds a byte of.
pub open spec fn kernel_pages(boot_info: BootMemoryDescriptor) -> nat {
    regions_pages(boot_info, region_count(boot_info))
}

/// Whether the page that starts at `page` belongs to what the kernel keeps
/// mapped: it holds a byte of a section of the image that occupies memory at
/// run time, of the video buffer's frame, or of the boot information.
pub open spec fn is_kernel_page(boot_info: BootMemoryDescriptor, page: u64) -> bool {
    in_regions(boot_info, region_count(boot_info), page)
}

/// The address space of the kernel: each of its pages, mapped to the frame at
/// the same address, present and writable.
pub open spec fn kernel_mappings(boot_info: BootMemoryDescriptor) -> Map<u64, (u64, u64)> {
    Map::new(|page: u64| is_kernel_page(boot_info, page), |page: u64| (page, 3u64))
}

/// Whether every section that occupies memory at run time starts at a frame
/// boundary.
pub open spec fn sections_aligned(boot_info: BootMemoryDescriptor) -> bool {
    forall|i: int|
        0 <= i < boot_info.elf_sections@.len() && (#[trigger] boot_info.elf_sections@[i]).allocated
            ==> is_aligned(boot_info.elf_sections@[i].start_address)
}

/// Whether no page holds bytes of two regions.
pub open spec fn regions_disjoint(boot_info: BootMemoryDescriptor) -> bool {
    forall|j: int, k: int, page: u64|
        0 <= j < k < region_count(boot_info) && #[trigger] in_region(boot_info, j, page)
            ==> !#[trigger] in_region(boot_info, k, page)
}

/// `view` together with the pages of the first `count` regions, each mapped
/// to the frame at its own address, present and writable.
pub open spec fn with_regions(view: Map<u64, (u64, u64)>, boot_info: BootMemoryDescriptor,
    count: int)
    -> Map<u64, (u64, u64)> {
    Map::new(
        |page: u64| view.dom().contains(page) || in_regions(boot_info, count, page),
        |page: u64|
            if in_regions(boot_info, count, page) {
                (page, 3u64)
            } else {
                view[page]
            },
    )
}

/// `view` together with the pages that hold a byte of `[start, end)`, each
/// mapped to the frame at its own address, present and writable.
pub open spec fn with_range(view: Map<u64, (u64, u64)>, start: u64, end: u64) -> Map<
    u64,
    (u64, u64),
> {
    Map::new(
        |page: u64| view.dom().contains(page) || in_range(start, end, page),
        |page: u64|
            if in_range(start, end, page) {
                (page, 3u64)
            } else {
                view[page]
            },
    )
}

/// Mapping the page at `cursor` to itself extends the pages of
/// `[start, cursor)` to those of `[start, cursor + 4096)`.
proof fn lemma_range_grows(view: Map<u64, (u64, u64)>, start: u64, cursor: u64)
    requires
        is_aligned(cursor),
        align_down(start) <= cursor,
        cursor + PAGE_SIZE <= u64::MAX,
    ensures
        with_range(view, start, cursor).insert(cursor, (cursor, 3u64)) == with_range(
            view,
            start,
            (cursor + PAGE_SIZE) as u64,
        ),
{
    let next = (cursor + PAGE_SIZE) as u64;
    assert forall|page: u64| in_range(start, next, page) == (in_range(start, cursor, page) || page
        == cursor) by {
        if is_aligned(page) && cursor < page < next {
            assert(false) by (nonlinear_arith)
                requires
                    page % 4096 == 0,
                    cursor % 4096 == 0,
                    cursor < page < cursor + 4096,
            ;
        }
    }
    assert(with_range(view, start, cursor).insert(cursor, (cursor, 3u64)) =~= with_range(
        view,
        start,
        next,
    ));
}

/// The pages of `[start, cursor)` are those of `[start, end)` once the
/// cursor has passed `end` by less than a page.
proof fn lemma_range_done(view: Map<u64, (u64, u64)>, start: u64, cursor: u64, end: u64)
    requires
        is_aligned(cursor),
        align_down(start) <= cursor,
        cursor >= end,
        cursor == align_down(start) || cursor - PAGE_SIZE < end,
    ensures
        with_range(view, start, cursor) == with_range(view, start, end),
        forall|page: u64| in_range(start, end, page) == in_range(start, cursor, page),
{
    assert forall|page: u64| in_range(start, end, page) == in_range(start, cursor, page) by {
        if is_aligned(page) && align_down(start) <= page < cursor && page >= end {
            assert(false) by (nonlinear_arith)
                requires
                    page % 4096 == 0,
                    cursor % 4096 == 0,
                    page < cursor,
                    cursor - 4096 < end,
                    page >= end,
            ;
        }
    }
    assert(with_range(view, start, cursor) =~= with_range(view, start, end));
}

/// Maps the page that starts at `addr` to the frame at the same address,
/// present and writable.
///
/// Fails with `AlignmentViolation` where `addr` is not aligned or lies
/// beyond the lower half of the address space, with `AlreadyMapped` where
/// the page is mapped, and as
/// `AddressTranslator::map_to` does for want of a frame for a table. A
/// failure changes no address space.
pub fn identity_map_page(
    addr: u64,
    mapper: &mut AddressTranslator,
    falloc: &mut BootInfoFrameAllocator,
) -> (r: Result<(), MemoryError>)
    requires
        old(mapper).wf(),
    ensures
        final(mapper).wf(),
        final(mapper).follows(*old(mapper)),
        r is Ok ==> is_aligned(addr) && addr < LOWER_HALF_END && !old(mapper)@.dom().contains(addr)
            && final(mapper)@ == old(mapper)@.insert(addr, (addr, 3u64)),
        r is Err ==> final(mapper)@ == old(mapper)@ && r->Err_0 != MemoryError::NotMapped,
        r == Err::<(), MemoryError>(MemoryError::AlignmentViolation) <==> !is_aligned(addr) || addr
            >= LOWER_HALF_END,
        r == Err::<(), MemoryError>(MemoryError::AlreadyMapped) <==> old(mapper)@.dom().contains(
            addr,
        ) && addr < LOWER_HALF_END,
        r == Err::<(), MemoryError>(MemoryError::Exhaustion) ==> final(falloc).next_frame() is None,
        spent(*old(falloc), *final(falloc), 3),
        separate(*old(mapper), *old(falloc)) ==> separate(*final(mapper), *final(falloc)) && r
            != Err::<(), MemoryError>(MemoryError::UsageViolation),
{
    proof {
        mapper.lemma_follows_refl();
        if mapper@.dom().contains(addr) {
            assert(is_aligned(addr));
        }
        lemma_spent_exactly(*falloc, 0, 3);
        mapper.lemma_calls_bounded(addr, *falloc);
        lemma_spent_exactly(*falloc, mapper.identity_map_calls(addr, *falloc), 3);
    }
    let address: PhysAddr = match PhysAddr::try_new(addr) {
        Some(address) => address,
        None => {
            return Err(MemoryError::AlignmentViolation);
        },
    };
    let frame: PhysFrame = match PhysFrame::from_start_address(address) {
        Ok(frame) => frame,
        Err(_) => {
            return Err(MemoryError::AlignmentViolation);
        },
    };
    let flags: PageTableFlags = PageTableFlags::present_writable();
    let ghost before = *mapper;
    let ghost supply = *falloc;
    proof {
        lemma_supply_error_kinds(
            supply,
            before.tables().dom(),
            missing_tables(before.tables(), before.root(), addr),
        );
    }
    match identity_map_with(frame, flags, mapper, falloc) {
        Ok(_) => Ok(()),
        Err(e) => {
            proof {
                if e == MemoryError::Exhaustion {
                    lemma_map_exhausted(before, addr, supply, *falloc);
                }
            }
            Err(e)
        },
    }
}

/// Maps every page that holds a byte of `[start, end)` to the frame at the
/// same address, present and writable, lowest address first.
///
/// Fails with `AlignmentViolation` where a page of the range lies beyond the
/// lower half of the address space, with `AlreadyMapped` where a page of the
/// range is mapped, and as `AddressTranslator::map_to` does for want of a
/// frame for a table; the pages below the one that failed stay mapped.
pub fn identity_map_range(
    start: u64,
    end: u64,
    mapper: &mut AddressTranslator,
    falloc: &mut BootInfoFrameAllocator,
) -> (r: Result<(), MemoryError>)
    requires
        old(mapper).wf(),
    ensures
        final(mapper).wf(),
        final(mapper).follows(*old(mapper)),
        r is Ok ==> final(mapper)@ == with_range(old(mapper)@, start, end),
        r is Ok ==> forall|page: u64|
            in_range(start, end, page) ==> !old(mapper)@.dom().contains(page) && page
                < LOWER_HALF_END,
        r is Err ==> r->Err_0 != MemoryError::NotMapped,
        r == Err::<(), MemoryError>(MemoryError::AlignmentViolation) ==> exists|page: u64|
            in_range(start, end, page) && page >= LOWER_HALF_END,
        r == Err::<(), MemoryError>(MemoryError::AlreadyMapped) ==> exists|page: u64|
            in_range(start, end, page) && old(mapper)@.dom().contains(page),
        r == Err::<(), MemoryError>(MemoryError::Exhaustion) ==> final(falloc).next_frame() is None,
        spent(*old(falloc), *final(falloc), 3 * range_pages(start, end)),
        separate(*old(mapper), *old(falloc)) ==> separate(*final(mapper), *final(falloc)) && r
            != Err::<(), MemoryError>(MemoryError::UsageViolation),
{
    let mut cursor: u64 = start - start % PAGE_SIZE;
    proof {
        mapper.lemma_follows_refl();
        assert(mapper@ =~= with_range(old(mapper)@, start, cursor));
        lemma_spent_exactly(*falloc, 0, 0);
    }
    while cursor < end
        invariant
            mapper.wf(),
            mapper.follows(*old(mapper)),
            is_aligned(cursor),
            align_down(start) <= cursor,
            cursor == align_down(start) || cursor - PAGE_SIZE < end,
            mapper@ == with_range(old(mapper)@, start, cursor),
            forall|page: u64|
                in_range(start, cursor, page) ==> !old(mapper)@.dom().contains(page) && page
                    < LOWER_HALF_END,
            separate(*old(mapper), *old(falloc)) ==> separate(*mapper, *falloc),
            spent(*old(falloc), *falloc, 3 * range_pages(start, cursor)),
        decreases end + PAGE_SIZE - cursor,
    {
        let ghost before = *mapper;
        let ghost supply = *falloc;
        let mapped: Result<(), MemoryError> = identity_map_page(cursor, mapper, falloc);
        proof {
            mapper.lemma_follows_trans(before, *old(mapper));
            lemma_spent_in_turn(
                *old(falloc),
                supply,
                *falloc,
                3 * range_pages(start, cursor),
                3,
            );
            lemma_range_pages(start, cursor, end);
        }
        match mapped {
            Ok(_) => {},
            Err(e) => {
                proof {
                    assert(in_range(start, end, cursor));
                    if e == MemoryError::AlreadyMapped {
                        assert(!in_range(start, cursor, cursor));
                        assert(old(mapper)@.dom().contains(cursor));
                    }
                }
                return Err(e);
            },
        }
        proof {
            lemma_range_grows(old(mapper)@, start, cursor);
            assert(!in_range(start, cursor, cursor));
            assert(!old(mapper)@.dom().contains(cursor));
            assert forall|page: u64|
                in_range(start, (cursor + PAGE_SIZE) as u64, page)
                    implies !old(mapper)@.dom().contains(page) && page < LOWER_HALF_END by {
                if !in_range(start, cursor, page) {
                    lemma_range_step(start, cursor, page);
                }
            }
        }
        cursor = cursor + PAGE_SIZE;
    }
    proof {
        lemma_range_done(old(mapper)@, start, cursor, end);
        lemma_range_pages_done(start, cursor, end);
    }
    Ok(())
}

/// The pages of `[start, cursor + 4096)` are one more than those of
/// `[start, cursor)`, and no more than those of `[start, end)` where `cursor`
/// lies below `end`.
proof fn lemma_range_pages(start: u64, cursor: u64, end: u64)
    requires
        is_aligned(cursor),
        align_down(start) <= cursor < end,
    ensures
        range_pages(start, cursor) + 1 <= range_pages(start, end),
        cursor + PAGE_SIZE <= u64::MAX ==> range_pages(start, (cursor + PAGE_SIZE) as u64)
            == range_pages(start, cursor) + 1,
{
    let first = align_down(start);
    assert(first % 4096 == 0);
}

/// The pages of `[start, cursor)` are those of `[start, end)` where `cursor`
/// is the first page boundary at or above `end`.
proof fn lemma_range_pages_done(start: u64, cursor: u64, end: u64)
    requires
        is_aligned(cursor),
        align_down(start) <= cursor,
        cursor >= end,
        cursor == align_down(start) || cursor - PAGE_SIZE < end,
    ensures
        range_pages(start, cursor) == range_pages(start, end),
{
    let first = align_down(start);
    assert(first % 4096 == 0);
}

/// The one page of `[start, cursor + 4096)` that is none of `[start, cursor)`
/// is the page at `cursor`.
proof fn lemma_range_step(start: u64, cursor: u64, page: u64)
    requires
        is_aligned(cursor),
        align_down(start) <= cursor,
        cursor + PAGE_SIZE <= u64::MAX,
        in_range(start, (cursor + PAGE_SIZE) as u64, page),
        !in_range(start, cursor, page),
    ensures
        page == cursor,
{
    if cursor < page {
        assert(false) by (nonlinear_arith)
            requires
                page % 4096 == 0,
                cursor % 4096 == 0,
                cursor < page < cursor + 4096,
        ;
    }
}

/// A page holds a byte of one of the first `index + 1` regions exactly when
/// it holds one of the first `index` regions or of region `index`.
proof fn lemma_in_regions_step(boot_info: BootMemoryDescriptor, index: int, page: u64)
    requires
        0 <= index,
    ensures
        in_regions(boot_info, index + 1, page) == (in_regions(boot_info, index, page) || in_region(
            boot_info,
            index,
            page,
        )),
{
    if in_regions(boot_info, index + 1, page) {
        let k = choose|k: int| 0 <= k < index + 1 && #[trigger] in_region(boot_info, k, page);
        if k < index {
            assert(in_regions(boot_info, index, page));
        }
    }
    if in_regions(boot_info, index, page) {
        let k = choose|k: int| 0 <= k < index && #[trigger] in_region(boot_info, k, page);
        assert(in_region(boot_info, k, page));
    }
}

/// The pages of the first `index + 1` regions are those of the first
/// `index` regions and of region `index`.
proof fn lemma_regions_grow(view: Map<u64, (u64, u64)>, boot_info: BootMemoryDescriptor, index: int)
    requires
        0 <= index < region_count(boot_info),
    ensures
        region(boot_info, index).2 ==> with_range(
            with_regions(view, boot_info, index),
            region(boot_info, index).0,
            region(boot_info, index).1,
        ) == with_regions(view, boot_info, index + 1),
        !region(boot_info, index).2 ==> with_regions(view, boot_info, index) == with_regions(
            view,
            boot_info,
            index + 1,
        ),
{
    let inner = with_regions(view, boot_info, index);
    let outer = with_regions(view, boot_info, index + 1);
    if region(boot_info, index).2 {
        let ranged = with_range(inner, region(boot_info, index).0, region(boot_info, index).1);
        assert forall|page: u64| ranged.dom().contains(page) == outer.dom().contains(page) by {
            lemma_in_regions_step(boot_info, index, page);
        }
        assert forall|page: u64| ranged.dom().contains(page) implies ranged[page]
            == outer[page] by {
            lemma_in_regions_step(boot_info, index, page);
        }
        assert(ranged =~= outer);
    } else {
        assert forall|page: u64| inner.dom().contains(page) == outer.dom().contains(page) by {
            lemma_in_regions_step(boot_info, index, page);
        }
        assert forall|page: u64| inner.dom().contains(page) implies inner[page] == outer[page] by {
            lemma_in_regions_step(boot_info, index, page);
        }
        assert(inner =~= outer);
    }
}

/// A region that is not mapped adds nothing to the regions before it.
proof fn lemma_region_skipped(
    before: Map<u64, (u64, u64)>,
    boot_info: BootMemoryDescriptor,
    index: int,
)
    requires
        0 <= index < region_count(boot_info),
        !region(boot_info, index).2,
        regions_mapped(before, boot_info, index),
    ensures
        regions_mapped(before, boot_info, index + 1),
{
    assert forall|page: u64| #[trigger]
        in_regions(boot_info, index + 1, page) implies !before.dom().contains(page) && page
        < LOWER_HALF_END by {
        lemma_in_regions_step(boot_info, index, page);
    }
}

/// Whether the first `count` regions have been mapped on top of `before`:
/// none of their pages was mapped in `before`, no page holds bytes of two
/// of them, and all of them lie in the lower half of the address space.
pub open spec fn regions_mapped(
    before: Map<u64, (u64, u64)>,
    boot_info: BootMemoryDescriptor,
    count: int,
) -> bool {
    &&& forall|page: u64| #[trigger]
        in_regions(boot_info, count, page) ==> !before.dom().contains(page) && page
            < LOWER_HALF_END
    &&& forall|j: int, k: int, page: u64|
        0 <= j < k < count && #[trigger] in_region(boot_info, j, page) ==> !#[trigger] in_region(
            boot_info,
            k,
            page,
        )
}

/// Why mapping the regions has failed, as far as the regions and the address
/// space can tell.
pub open spec fn explains(
    error: MemoryError,
    before: Map<u64, (u64, u64)>,
    boot_info: BootMemoryDescriptor,
) -> bool {
    match error {
        MemoryError::AlignmentViolation => !sections_aligned(boot_info) || exists|page: u64|
            is_kernel_page(boot_info, page) && page >= LOWER_HALF_END,
        MemoryError::AlreadyMapped => !regions_disjoint(boot_info) || exists|page: u64|
            is_kernel_page(boot_info, page) && before.dom().contains(page),
        MemoryError::NotMapped => false,
        _ => true,
    }
}

/// Maps region `index` on top of the regions before it.
fn map_region(
    start: u64,
    end: u64,
    mapper: &mut AddressTranslator,
    falloc: &mut BootInfoFrameAllocator,
    Ghost(before): Ghost<Map<u64, (u64, u64)>>,
    Ghost(boot_info): Ghost<BootMemoryDescriptor>,
    Ghost(index): Ghost<int>,
) -> (r: Result<(), MemoryError>)
    requires
        old(mapper).wf(),
        0 <= index < region_count(boot_info),
        region(boot_info, index) == (start, end, true),
        old(mapper)@ == with_regions(before, boot_info, index),
        regions_mapped(before, boot_info, index),
    ensures
        final(mapper).wf(),
        final(mapper).follows(*old(mapper)),
        r is Ok ==> final(mapper)@ == with_regions(before, boot_info, index + 1) && regions_mapped(
            before,
            boot_info,
            index + 1,
        ),
        r is Err ==> explains(r->Err_0, before, boot_info),
        r == Err::<(), MemoryError>(MemoryError::Exhaustion) ==> final(falloc).next_frame() is None,
        spent(*old(falloc), *final(falloc), 3 * range_pages(start, end)),
        separate(*old(mapper), *old(falloc)) ==> separate(*final(mapper), *final(falloc)) && r
            != Err::<(), MemoryError>(MemoryError::UsageViolation),
{
    let r: Result<(), MemoryError> = identity_map_range(start, end, mapper, falloc);
    proof {
        lemma_regions_grow(before, boot_info, index);
        if r is Ok {
            assert forall|page: u64| #[trigger]
                in_regions(boot_info, index + 1, page) implies !before.dom().contains(page) && page
                < LOWER_HALF_END by {
                lemma_in_regions_step(boot_info, index, page);
                if !in_regions(boot_info, index, page) {
                    assert(in_range(start, end, page));
                    assert(!old(mapper)@.dom().contains(page));
                }
            }
            assert forall|j: int, k: int, page: u64|
                0 <= j < k < index + 1 && #[trigger] in_region(boot_info, j, page)
                    implies !#[trigger] in_region(
                boot_info,
                k,
                page,
            ) by {
                if k == index && in_region(boot_info, k, page) {
                    assert(in_regions(boot_info, index, page));
                    assert(old(mapper)@.dom().contains(page));
                }
            }
        } else {
            let e = r->Err_0;
            if e == MemoryError::AlignmentViolation {
                let page = choose|page: u64| in_range(start, end, page) && page >= LOWER_HALF_END;
                assert(in_region(boot_info, index, page));
                assert(is_kernel_page(boot_info, page));
            }
            if e == MemoryError::AlreadyMapped {
                let page = choose|page: u64|
                    in_range(start, end, page) && old(mapper)@.dom().contains(page);
                assert(in_region(boot_info, index, page));
                assert(is_kernel_page(boot_info, page));
                if in_regions(boot_info, index, page) {
                    let j = choose|j: int| 0 <= j < index
                        && #[trigger] in_region(boot_info, j, page);
                    assert(!regions_disjoint(boot_info));
                } else {
                    assert(before.dom().contains(page));
                }
            }
        }
    }
    r
}

/// Maps what the kernel keeps mapped: every frame that holds a byte of a
/// section of the image that occupies memory at run time, the frame of the
/// video buffer, and every frame that holds a byte of the boot information,
/// each to the page at the same address, present and writable.
///
/// Fails with `AlignmentViolation` where a section that occupies memory does
/// not start at a frame boundary or a page to be mapped lies beyond the
/// lower half of the address space, with `AlreadyMapped` where a page to be
/// mapped is mapped already or two regions share a page, and as
/// `AddressTranslator::map_to` does for want of a frame for a table. What
/// was mapped before the failure stays mapped.
pub fn map_kernel(
    mapper: &mut AddressTranslator,
    falloc: &mut BootInfoFrameAllocator,
    boot_info: &BootMemoryDescriptor,
) -> (r: Result<(), MemoryError>)
    requires
        old(mapper).wf(),
    ensures
        final(mapper).wf(),
        final(mapper).follows(*old(mapper)),
        r is Ok ==> final(mapper)@ == with_regions(
            old(mapper)@,
            *boot_info,
            region_count(*boot_info),
        ),
        r is Ok ==> regions_mapped(old(mapper)@, *boot_info, region_count(*boot_info))
            && sections_aligned(*boot_info),
        r is Err ==> explains(r->Err_0, old(mapper)@, *boot_info),
        r == Err::<(), MemoryError>(MemoryError::Exhaustion) ==> final(falloc).next_frame() is None,
        spent(*old(falloc), *final(falloc), 3 * kernel_pages(*boot_info)),
        separate(*old(mapper), *old(falloc)) ==> separate(*final(mapper), *final(falloc)) && r
            != Err::<(), MemoryError>(MemoryError::UsageViolation),
{
    let ghost before = mapper@;
    let count: usize = boot_info.elf_sections.len();
    let mut i: usize = 0;
    proof {
        mapper.lemma_follows_refl();
        assert(mapper@ =~= with_regions(before, *boot_info, 0));
        lemma_spent_exactly(*falloc, 0, 0);
    }
    while i < count
        invariant
            mapper.wf(),
            mapper.follows(*old(mapper)),
            count == boot_info.elf_sections@.len(),
            0 <= i <= count,
            before == old(mapper)@,
            mapper@ == with_regions(before, *boot_info, i as int),
            regions_mapped(before, *boot_info, i as int),
            forall|k: int|
                0 <= k < i && (#[trigger] boot_info.elf_sections@[k]).allocated ==> is_aligned(
                    boot_info.elf_sections@[k].start_address,
                ),
            separate(*old(mapper), *old(falloc)) ==> separate(*mapper, *falloc),
            spent(*old(falloc), *falloc, 3 * regions_pages(*boot_info, i as int)),
        decreases count - i,
    {
        let section: &ElfSection = &boot_info.elf_sections[i];
        let ghost middle = *mapper;
        let ghost supply = *falloc;
        proof {
            lemma_regions_pages_grow(*boot_info, i as int, i as int + 1);
            lemma_regions_pages_grow(*boot_info, i as int + 1, region_count(*boot_info));
        }
        if section.is_allocated() {
            if section.start_address % PAGE_SIZE != 0 {
                return Err(MemoryError::AlignmentViolation);
            }
            let mapped: Result<(), MemoryError> = map_region(
                section.start_address,
                section.end_address(),
                mapper,
                falloc,
                Ghost(before),
                Ghost(*boot_info),
                Ghost(i as int),
            );
            proof {
                mapper.lemma_follows_trans(middle, *old(mapper));
                lemma_spent_in_turn(
                    *old(falloc),
                    supply,
                    *falloc,
                    3 * regions_pages(*boot_info, i as int),
                    3 * range_pages(section.start_address, section.end_clamped()),
                );
            }
            match mapped {
                Ok(_) => {},
                Err(e) => {
                    return Err(e);
                },
            }
        } else {
            proof {
                lemma_regions_grow(before, *boot_info, i as int);
                lemma_region_skipped(before, *boot_info, i as int);
            }
        }
        i += 1;
    }
    let ghost sections_done = *mapper;
    let ghost sections_supply = *falloc;
    proof {
        lemma_regions_pages_grow(*boot_info, count as int, count as int + 1);
        lemma_regions_pages_grow(*boot_info, count as int + 1, count as int + 2);
    }
    let vga: Result<(), MemoryError> = map_region(
        VGA_BUFFER_ADDRESS,
        VGA_BUFFER_ADDRESS + PAGE_SIZE,
        mapper,
        falloc,
        Ghost(before),
        Ghost(*boot_info),
        Ghost(count as int),
    );
    proof {
        mapper.lemma_follows_trans(sections_done, *old(mapper));
        lemma_spent_in_turn(
            *old(falloc),
            sections_supply,
            *falloc,
            3 * regions_pages(*boot_info, count as int),
            3 * range_pages(VGA_BUFFER_ADDRESS, (VGA_BUFFER_ADDRESS + PAGE_SIZE) as u64),
        );
    }
    match vga {
        Ok(_) => {},
        Err(e) => {
            return Err(e);
        },
    }
    let ghost vga_done = *mapper;
    let ghost vga_supply = *falloc;
    let boot: Result<(), MemoryError> = map_region(
        boot_info.start_address,
        boot_info.end_address,
        mapper,
        falloc,
        Ghost(before),
        Ghost(*boot_info),
        Ghost(count as int + 1),
    );
    proof {
        mapper.lemma_follows_trans(vga_done, *old(mapper));
        lemma_spent_in_turn(
            *old(falloc),
            vga_supply,
            *falloc,
            3 * regions_pages(*boot_info, count as int + 1),
            3 * range_pages(boot_info.start_address, boot_info.end_address),
        );
    }
    boot
}

/// More regions take no fewer pages.
proof fn lemma_regions_pages_grow(boot_info: BootMemoryDescriptor, fewer: int, more: int)
    requires
        fewer <= more,
    ensures
        regions_pages(boot_info, fewer) <= regions_pages(boot_info, more),
    decreases more - fewer,
{
    if fewer < more {
        lemma_regions_pages_grow(boot_info, fewer, more - 1);
    }
}

/// The regions mapped on top of an empty address space are the address space
/// of the kernel.
pub proof fn lemma_kernel_mappings(boot_info: BootMemoryDescriptor)
    ensures
        with_regions(Map::<u64, (u64, u64)>::empty(), boot_info, region_count(boot_info))
            == kernel_mappings(boot_info),
{
    assert(with_regions(Map::<u64, (u64, u64)>::empty(), boot_info, region_count(boot_info))
        =~= kernel_mappings(boot_info));
}

/// The page that serves as the temporary page while the new address space
/// is built.
pub open spec fn temporary_page_address() -> u64 {
    align_down(TEMPORARY_PAGE_ADDRESS)
}

/// Whether `addr` is an address of what the kernel keeps mapped: it lies
/// inside a section of the image that occupies memory at run time, inside the
/// frame of the video buffer, or inside the boot information.
pub open spec fn is_kernel_address(boot_info: BootMemoryDescriptor, addr: u64) -> bool {
    ||| exists|i: int|
        0 <= i < boot_info.elf_sections@.len() && (#[trigger] boot_info.elf_sections@[i]).allocated
            && boot_info.elf_sections@[i].start_address <= addr < boot_info.elf_sections@[i].end()
    ||| VGA_BUFFER_ADDRESS <= addr < VGA_BUFFER_ADDRESS + PAGE_SIZE
    ||| boot_info.start_address <= addr < boot_info.end_address
}

/// In the address space of the kernel, every address of what the kernel
/// keeps mapped translates to itself: its page is mapped to the frame at the
/// page's own address. It is the address space that `remap_kernel` makes the
/// active one, and there every section that occupies memory starts at a
/// frame boundary.
pub proof fn lemma_kernel_addresses_translate(boot_info: BootMemoryDescriptor, addr: u64)
    requires
        sections_aligned(boot_info),
        is_kernel_address(boot_info, addr),
    ensures
        frame_of(kernel_mappings(boot_info), align_down(addr)) == Some(align_down(addr)),
{
    let page = align_down(addr);
    let count = boot_info.elf_sections@.len() as int;
    if exists|i: int|
        0 <= i < count && (#[trigger] boot_info.elf_sections@[i]).allocated
            && boot_info.elf_sections@[i].start_address <= addr < boot_info.elf_sections@[i].end() {
        let i = choose|i: int|
            0 <= i < count && (#[trigger] boot_info.elf_sections@[i]).allocated
                && boot_info.elf_sections@[i].start_address <= addr
                < boot_info.elf_sections@[i].end();
        let start = boot_info.elf_sections@[i].start_address;
        assert(is_aligned(start));
        assert(start <= page) by (nonlinear_arith)
            requires
                start % 4096 == 0,
                start <= addr,
                page == addr - addr % 4096,
        ;
        assert(in_region(boot_info, i, page));
    } else if VGA_BUFFER_ADDRESS <= addr < VGA_BUFFER_ADDRESS + PAGE_SIZE {
        assert(page == VGA_BUFFER_ADDRESS) by (nonlinear_arith)
            requires
                0xb8000 <= addr < 0xb9000,
                page == addr - addr % 4096,
        ;
        assert(in_region(boot_info, count, page));
    } else {
        let start = boot_info.start_address;
        assert(align_down(start) <= page) by (nonlinear_arith)
            requires
                start <= addr,
                page == addr - addr % 4096,
                align_down(start) == start - start % 4096,
        ;
        assert(in_region(boot_info, count + 1, page));
    }
    assert(is_kernel_page(boot_info, page));
}

/// In the address space of the kernel, an address whose page holds no byte
/// of what the kernel keeps mapped does not translate. That holds of the
/// address 0 unless a section of the image or the boot information starts
/// in the first page.
pub proof fn lemma_other_addresses_do_not_translate(boot_info: BootMemoryDescriptor, addr: u64)
    requires
        !is_kernel_page(boot_info, align_down(addr)),
    ensures
        frame_of(kernel_mappings(boot_info), align_down(addr)) is None,
{
}

/// Builds a new address space that holds the kernel image, the video buffer
/// and the boot information, each page mapped to the frame at the same
/// address, and makes it the active one. Returns the address space that was
/// active, which is as it was.
///
/// The steps: a temporary page with a reservoir of three frames; a frame for
/// the new level 4 table, which is reached through the temporary page and
/// given its self-reference; `map_kernel` on the new table while the old one
/// is still active; the switch. What the new address space holds is not
/// visible in the old one, and what the old one holds is gone for the
/// processor after the switch.
///
/// Fails with `UsageViolation` where an address space is being populated
/// already or the temporary page is mapped, with `Exhaustion` where
/// `allocator` runs out of frames, and as `map_kernel` does. It fails with
/// `UsageViolation` for no other reason where `allocator` may hand out no
/// frame that holds a table. The active address space is the same after a
/// failure.
///
/// It asks `allocator` for four frames and for at most three for each page
/// that it maps. Where `allocator` has a frame left after that many, and may
/// hand out none that holds a table, the call succeeds unless one of the
/// reasons above that speak of the address spaces and the regions holds.
pub fn remap_kernel(
    active: &mut ActivePageTable,
    boot_info: &BootMemoryDescriptor,
    allocator: &mut BootInfoFrameAllocator,
) -> (r: Result<InactivePageTable, MemoryError>)
    requires
        old(active).wf(),
    ensures
        final(active).wf(),
        forall|f: u64|
            old(active).page_directory.holds_table(f)
                ==> #[trigger] final(active).page_directory.holds_table(f),
        final(active).page_directory.mappings_of(old(active).page_directory.active_root())
            == old(active).page_directory.active_mappings(),
        r is Ok ==> {
            &&& r->Ok_0.p4_frame@ == old(active).page_directory.active_root()
            &&& final(active).page_directory.is_root(r->Ok_0.p4_frame@)
            &&& final(active).page_directory.active_root()
                != old(active).page_directory.active_root()
            &&& !final(active).page_directory.is_populating()
            &&& !old(active).page_directory.holds_table(final(active).page_directory.active_root())
            &&& final(active).page_directory@ == kernel_mappings(*boot_info)
            &&& sections_aligned(*boot_info)
            &&& regions_disjoint(*boot_info)
        },
        r is Err ==> {
            &&& final(active).page_directory.active_root()
                == old(active).page_directory.active_root()
            &&& final(active).page_directory.root() == old(active).page_directory.root()
            &&& explains(r->Err_0, Map::<u64, (u64, u64)>::empty(), *boot_info)
        },
        (old(active).page_directory.is_populating() || old(active).page_directory.resolve(
            temporary_page_address(),
        ) is Some) ==> r == Err::<InactivePageTable, MemoryError>(MemoryError::UsageViolation),
        r == Err::<InactivePageTable, MemoryError>(MemoryError::Exhaustion)
            ==> final(allocator).next_frame() is None,
        spent(*old(allocator), *final(allocator), 4 + 3 * kernel_pages(*boot_info)),
        separate(old(active).page_directory, *old(allocator)) ==> {
            &&& separate(final(active).page_directory, *final(allocator))
            &&& r == Err::<InactivePageTable, MemoryError>(MemoryError::UsageViolation)
                ==> old(active).page_directory.is_populating()
                    || old(active).page_directory.resolve(
                temporary_page_address(),
            ) is Some
        },
        ({
            &&& separate(old(active).page_directory, *old(allocator))
            &&& !old(active).page_directory.is_populating()
            &&& old(active).page_directory.resolve(temporary_page_address()) is None
            &&& sections_aligned(*boot_info)
            &&& regions_disjoint(*boot_info)
            &&& forall|page: u64| is_kernel_page(*boot_info, page) ==> page < LOWER_HALF_END
            &&& after_allocations(
                *old(allocator),
                4 + 3 * kernel_pages(*boot_info),
            ).next_frame() is Some
        }) ==> r is Ok,
{
    let ghost before = active.page_directory;
    let ghost source = *allocator;
    let ghost bound = 4 + 3 * kernel_pages(*boot_info);
    proof {
        before.lemma_roots();
        lemma_spent_exactly(source, 0, bound);
        lemma_spent_exactly(source, 4, bound);
        reveal_with_fuel(after_allocations, 5);
        if exists|n: nat| n <= bound && after_allocations(source, n).next_frame() is None {
            let n = choose|n: nat|
                n <= bound && after_allocations(source, n).next_frame() is None;
            BootInfoFrameAllocator::lemma_spent_exhausted(
                source,
                after_allocations(source, n),
                bound,
            );
        }
    }
    let shown: PhysFrame = active.page_directory.p4_frame();
    let loaded: PhysFrame = active.page_directory.active_frame();
    proof {
        shown.lemma_view_injective(loaded);
    }
    if shown != loaded {
        return Err(MemoryError::UsageViolation);
    }
    let page: Page = Page::containing_address(VirtAddr::new(TEMPORARY_PAGE_ADDRESS));
    if active.page_directory.translate_page(page).is_ok() {
        return Err(MemoryError::UsageViolation);
    }
    let mut temporary_page: TemporaryPage = TemporaryPage::new(page, allocator);
    let ghost reserved = *allocator;
    let ghost window = temporary_page;
    let frame: PhysFrame = match allocator.allocate_frame() {
        Some(frame) => frame,
        None => {
            proof {
                reserved.lemma_after_allocation();
                if separate(before, source) {
                    lemma_separate_later(before, source, 3);
                }
            }
            return Err(MemoryError::Exhaustion);
        },
    };
    let ghost taken = *allocator;
    proof {
        reveal_with_fuel(after_allocations, 5);
        reserved.lemma_after_allocation();
        assert(taken == after_allocations(source, 4));
        lemma_reservoir_full(source, window.reservoir());
        lemma_reservoir_suffices(
            window.reservoir(),
            before.tables().dom(),
            missing_tables(before.tables(), before.root(), window.page()@),
        );
        lemma_lower_half_is_free(window.page()@);
        if separate(before, source) {
            lemma_reservoir_is_fresh(before, source, window.reservoir(), frame@);
            lemma_reservoir_fresh(
                window.reservoir(),
                before.tables().dom(),
                missing_tables(before.tables(), before.root(), window.page()@),
            );
        }
    }
    let made: Result<InactivePageTable, MemoryError> = InactivePageTable::new(
        frame,
        active,
        &mut temporary_page,
    );
    let ghost built = active.page_directory;
    let ghost window_built = temporary_page;
    proof {
        assert(built.mappings_of(before.active_root()) == before.mappings_of(before.active_root()));
        if separate(before, source) {
            assert forall|f: u64| #[trigger] built.holds_table(f)
                implies !taken.may_hand_out(f) by {
                assert(table_from_reservoir(before, built, window.reservoir(), f) || f == frame@);
                lemma_taken_frame(before, source, window.reservoir(), frame@, f);
            }
        }
    }
    let new_table: InactivePageTable = match made {
        Ok(table) => table,
        Err(e) => {
            return Err(e);
        },
    };
    proof {
        assert(built.is_root(frame@));
        assert(built.reaches(temporary_page.page()@));
        assert(built@ == before@);
        assert(!built@.dom().contains(temporary_page.page()@));
    }
    let populate = (|mapper: &mut AddressTranslator,
        falloc: &mut BootInfoFrameAllocator| -> (out: Result<(), MemoryError>)
            requires
                old(mapper).wf(),
            ensures
                final(mapper).wf(),
                final(mapper).follows(*old(mapper)),
                out is Ok ==> final(mapper)@ == with_regions(
                    old(mapper)@,
                    *boot_info,
                    region_count(*boot_info),
                ),
                out is Ok ==> regions_mapped(old(mapper)@, *boot_info, region_count(*boot_info))
                    && sections_aligned(*boot_info),
                out is Err ==> explains(out->Err_0, old(mapper)@, *boot_info),
                (out is Err && out->Err_0 == MemoryError::Exhaustion)
                    ==> final(falloc).next_frame() is None,
                spent(*old(falloc), *final(falloc), 3 * kernel_pages(*boot_info)),
                separate(*old(mapper), *old(falloc)) ==> separate(*final(mapper), *final(falloc))
                    && !(out is Err && out->Err_0 == MemoryError::UsageViolation),
            { map_kernel(mapper, falloc, boot_info) });
    let ghost population = populate;
    let populated: Result<Result<(), MemoryError>, MemoryError> = active.with(
        &new_table,
        &mut temporary_page,
        allocator,
        populate,
    );
    let ghost filled = active.page_directory;
    proof {
        lemma_kernel_mappings(*boot_info);
        assert(filled.mappings_of(before.active_root()) == before.active_mappings());
        assert forall|f: u64| before.holds_table(f) implies #[trigger] filled.holds_table(f) by {
            assert(built.holds_table(f));
        }
    }
    let outcome: Result<(), MemoryError> = match populated {
        Ok(outcome) => outcome,
        Err(e) => {
            return Err(e);
        },
    };
    proof {
        let (m, a) = choose|m: &mut AddressTranslator, a: &mut BootInfoFrameAllocator|
            #![trigger call_ensures(population, (m, a), outcome)]
            {
                &&& ActivePageTable { page_directory: built }.populating(*m, new_table,
                    window_built)
                &&& *a == taken
                &&& call_ensures(population, (m, a), outcome)
                &&& *final(a) == *allocator
                &&& final(m)@ == filled.mappings_of(frame@)
                &&& final(m).tables().dom() == filled.tables().dom()
            };
        assert(m@ == Map::<u64, (u64, u64)>::empty());
        lemma_spent_in_turn(source, taken, *allocator, 4, 3 * kernel_pages(*boot_info));
        if outcome is Ok {
            assert(filled.mappings_of(frame@) == kernel_mappings(*boot_info));
            assert(regions_mapped(m@, *boot_info, region_count(*boot_info)));
            lemma_disjoint(*boot_info, m@);
        } else {
            assert(explains(outcome->Err_0, Map::<u64, (u64, u64)>::empty(), *boot_info));
        }
        if separate(before, source) {
            assert forall|f: u64| #[trigger] m.holds_table(f) implies !taken.may_hand_out(f) by {
                assert(table_from_reservoir(built, *m, window_built.reservoir(), f));
                if !built.holds_table(f) {
                    assert(window.reservoir().holds(f));
                    lemma_taken_frame(before, source, window.reservoir(), frame@, f);
                }
            }
            assert(separate(*final(m), *allocator));
            assert forall|f: u64| #[trigger] filled.holds_table(f) implies !allocator.may_hand_out(
                f,
            ) by {
                assert(final(m).holds_table(f));
            }
        }
    }
    match outcome {
        Ok(_) => {},
        Err(e) => {
            return Err(e);
        },
    }
    let switched: Result<InactivePageTable, MemoryError> = active.switch(new_table);
    proof {
        let last = active.page_directory;
        assert(last.tables() == filled.tables());
        assert forall|f: u64| before.holds_table(f) implies #[trigger] last.holds_table(f) by {
            assert(filled.holds_table(f));
        }
        if separate(before, source) {
            assert forall|f: u64| #[trigger] last.holds_table(f) implies !allocator.may_hand_out(
                f,
            ) by {
                assert(filled.holds_table(f));
            }
        }
    }
    switched
}

/// The three frames of the reservoir and the frame for the new table, all
/// fresh from an allocator that is separate from the translator, differ from
/// each other and hold no table.
proof fn lemma_reservoir_is_fresh(
    mapper: AddressTranslator,
    source: BootInfoFrameAllocator,
    reservoir: TinyAllocator,
    frame: u64,
)
    requires
        separate(mapper, source),
        reservoir.slots() == (
            source.next_frame(),
            source.after_allocation().next_frame(),
            source.after_allocation().after_allocation().next_frame(),
        ),
        after_allocations(source, 3).next_frame() == Some(frame),
    ensures
        reservoir.slots().0 is Some,
        reservoir.slots().1 is Some,
        reservoir.slots().2 is Some,
        reservoir.slots().0 != reservoir.slots().1,
        reservoir.slots().0 != reservoir.slots().2,
        reservoir.slots().1 != reservoir.slots().2,
        forall|f: u64| reservoir.holds(f) ==> !mapper.tables().dom().contains(f),
        !reservoir.holds(frame),
        !mapper.holds_table(frame),
{
    reveal_with_fuel(after_allocations, 5);
    lemma_reservoir_full(source, reservoir);
    source.lemma_frames_never_repeat(0, 1);
    source.lemma_frames_never_repeat(0, 2);
    source.lemma_frames_never_repeat(1, 2);
    source.lemma_frames_never_repeat(0, 3);
    source.lemma_frames_never_repeat(1, 3);
    source.lemma_frames_never_repeat(2, 3);
    assert forall|f: u64| reservoir.holds(f) implies !mapper.tables().dom().contains(f) by {
        lemma_taken_frame(mapper, source, reservoir, frame, f);
        assert(after_allocations(source, 0).next_frame() == Some(f) || after_allocations(
            source,
            1,
        ).next_frame() == Some(f) || after_allocations(source, 2).next_frame() == Some(f));
        assert(handed_out(source, 3, f));
        source.lemma_handed_out(3, f);
        assert(!mapper.holds_table(f));
    }
    assert(handed_out(source, 4, frame)) by {
        assert(after_allocations(source, 3).next_frame() == Some(frame));
    }
    source.lemma_handed_out(4, frame);
}

/// A frame that held a table before, or is one of the reservoir, or is the
/// frame for the new table, is none that the allocator may hand out after it
/// has handed out these four.
proof fn lemma_taken_frame(
    mapper: AddressTranslator,
    source: BootInfoFrameAllocator,
    reservoir: TinyAllocator,
    frame: u64,
    f: u64,
)
    requires
        separate(mapper, source),
        reservoir.slots() == (
            source.next_frame(),
            source.after_allocation().next_frame(),
            source.after_allocation().after_allocation().next_frame(),
        ),
        after_allocations(source, 3).next_frame() == Some(frame),
        mapper.holds_table(f) || reservoir.holds(f) || f == frame,
    ensures
        !after_allocations(source, 4).may_hand_out(f),
{
    reveal_with_fuel(after_allocations, 5);
    if mapper.holds_table(f) {
        if after_allocations(source, 4).may_hand_out(f) {
            source.lemma_may_hand_out_before(4, f);
        }
    } else {
        assert(after_allocations(source, 0).next_frame() == Some(f) || after_allocations(
            source,
            1,
        ).next_frame() == Some(f) || after_allocations(source, 2).next_frame() == Some(f)
            || after_allocations(source, 3).next_frame() == Some(f));
        assert(handed_out(source, 4, f));
        source.lemma_handed_out(4, f);
    }
}

/// Where all regions are mapped, no page holds bytes of two of them.
proof fn lemma_disjoint(boot_info: BootMemoryDescriptor, view: Map<u64, (u64, u64)>)
    requires
        regions_mapped(view, boot_info, region_count(boot_info)),
    ensures
        regions_disjoint(boot_info),
{
}

/// Where the boot allocator hands out a frame after it has filled the
/// reservoir of a temporary page, the reservoir holds three frames.
proof fn lemma_reservoir_full(source: BootInfoFrameAllocator, reservoir: TinyAllocator)
    requires
        reservoir.slots() == (
            source.next_frame(),
            source.after_allocation().next_frame(),
            source.after_allocation().after_allocation().next_frame(),
        ),
        crate::memory::allocator::after_allocations(source, 3).next_frame() is Some,
    ensures
        reservoir.slots().0 is Some,
        reservoir.slots().1 is Some,
        reservoir.slots().2 is Some,
{
    reveal_with_fuel(crate::memory::allocator::after_allocations, 4);
    source.lemma_after_allocation();
    source.after_allocation().lemma_after_allocation();
    source.after_allocation().after_allocation().lemma_after_allocation();
}

} // verus!
