//! Virtual-memory subsystem of a small x86-64 kernel.
//!
//! The crate discovers usable physical memory from a boot memory descriptor,
//! maintains four-level translation tables with a recursive self-reference,
//! builds a replacement address space that holds only the kernel image, the
//! video buffer and the boot information, and maps the kernel heap.
//!
//! Physical memory that holds translation tables is kept in a
//! [`memory::paging::page_table::TableMemory`]; everything that changes it is
//! verified against an abstract view of each address space as a map from
//! pages to frames.

use vstd::prelude::*;
use crate::memory::address::{PhysFrame, LOWER_HALF_END};
use crate::memory::allocator::allocator::{
    heap_mapped, heap_pages, init_heap, is_heap_page, KernelContext, HEAP_SIZE, HEAP_START,
};
use crate::memory::allocator::boot_info_frame_allocator::{
    memory_supplies, BootInfoFrameAllocator,
};
use crate::memory::allocator::{after_allocations, lemma_spent_in_turn, spent, FrameAllocator};
use crate::memory::boot_info::BootMemoryDescriptor;
use crate::memory::paging::page_tables::active_page_table::ActivePageTable;
use crate::memory::paging::page_tables::inactive_page_table::InactivePageTable;
use crate::memory::paging::separation::separate;
use crate::memory::paging::tables::lemma_lower_half_is_free;
use crate::memory::paging::remap_kernel::{
    is_kernel_page, kernel_mappings, kernel_pages, regions_disjoint, remap_kernel,
    sections_aligned, temporary_page_address,
};
use crate::memory::MemoryError;
use crate::schedule::Scheduler;

pub mod memory;
pub mod schedule;

verus! {

/// How a test run ended, as the emulator is told.
#[derive(Clone, Copy, PartialEq, Eq, Structural, Debug)]
pub enum QemuExitCode {
    Success,
    Failed,
}

impl QemuExitCode {
    /// The number that is written to the emulator's exit port.
    pub fn code(self) -> (r: u32)
        ensures
            r == match self {
                QemuExitCode::Success => 0x10u32,
                QemuExitCode::Failed => 0x11u32,
            },
    {
        match self {
            QemuExitCode::Success => 0x10,
            QemuExitCode::Failed => 0x11,
        }
    }
}

/// Runs every test of `tests` in order and returns the exit code of a run
/// in which none has failed. A test that fails does not return.
pub fn test_runner<F: Fn()>(tests: &[F]) -> (r: QemuExitCode)
    requires
        forall|i: int| 0 <= i < tests@.len() ==> call_requires(#[trigger] tests@[i], ()),
    ensures
        r == QemuExitCode::Success,
        forall|i: int| 0 <= i < tests@.len() ==> call_ensures(#[trigger] tests@[i], (), ()),
{
    let mut i: usize = 0;
    while i < tests.len()
        invariant
            0 <= i <= tests@.len(),
            forall|k: int| 0 <= k < tests@.len() ==> call_requires(#[trigger] tests@[k], ()),
            forall|k: int| 0 <= k < i ==> call_ensures(#[trigger] tests@[k], (), ()),
        decreases tests@.len() - i,
    {
        (tests[i])();
        i += 1;
    }
    QemuExitCode::Success
}

/// The memory of a kernel that has been set up.
pub struct Kernel {
    /// The translator over the new address space, and the frame allocator.
    pub context: KernelContext,
    /// The scheduler with its first task.
    pub scheduler: Scheduler,
    /// The address space of the boot loader, no longer active.
    pub boot_table: InactivePageTable,
}

/// An upper bound of the frames that `init` asks the allocator for: three
/// for the temporary page and one for the new level 4 table, three for each
/// page that the kernel keeps mapped, four for each page of the heap.
pub open spec fn frame_demand(boot_info: BootMemoryDescriptor) -> nat {
    4 + 3 * kernel_pages(boot_info) + 4 * heap_pages()
}

/// Whether `init` succeeds on `boot_info` and `root` whatever the tables
/// look like: `root` is no frame that the allocator hands out, the regions
/// that the kernel keeps mapped are aligned, apart from each other and from
/// the heap, and in the lower half of the address space, and the memory
/// holds frames enough.
pub open spec fn can_init(boot_info: BootMemoryDescriptor, root: u64) -> bool {
    &&& !boot_info.is_usable_frame(root)
    &&& sections_aligned(boot_info)
    &&& regions_disjoint(boot_info)
    &&& forall|page: u64| is_kernel_page(boot_info, page) ==> page < LOWER_HALF_END
    &&& forall|page: u64| is_heap_page(page) ==> !is_kernel_page(boot_info, page)
    &&& memory_supplies(boot_info, frame_demand(boot_info))
}

/// Sets up the memory of the kernel: a frame allocator over the memory that
/// `boot_info` describes; the address space of the boot loader, whose level 4
/// table stands in `root`; the kernel's own address space in its place; the
/// kernel heap mapped in it; and the scheduler with its first task.
///
/// Fails as `remap_kernel` and `init_heap` do, and with `UsageViolation`
/// where `root` is a frame that the allocator hands out.
pub fn init(boot_info: &BootMemoryDescriptor, root: PhysFrame) -> (r: Result<Kernel, MemoryError>)
    ensures
        r is Ok ==> {
            &&& r->Ok_0.context.wf()
            &&& r->Ok_0.boot_table.p4_frame == root
            &&& r->Ok_0.context.mapper.active_root() != root@
            &&& !r->Ok_0.context.mapper.is_populating()
            &&& heap_mapped(
                kernel_mappings(*boot_info),
                r->Ok_0.context.mapper@,
                (HEAP_START + HEAP_SIZE) as u64,
                r->Ok_0.context.frame_allocator.cursor(),
            )
            &&& r->Ok_0.scheduler.tasks@.len() == 1
            &&& r->Ok_0.scheduler.tasks@[0].registers.cr3 == r->Ok_0.context.mapper.active_root()
        },
        r is Err ==> r->Err_0 != MemoryError::NotMapped,
        r == Err::<Kernel, MemoryError>(MemoryError::UsageViolation) <==> boot_info.is_usable_frame(
            root@,
        ),
        r == Err::<Kernel, MemoryError>(MemoryError::AlignmentViolation)
            ==> !boot_info.is_usable_frame(
            root@,
        ) && (!sections_aligned(*boot_info) || exists|page: u64|
            is_kernel_page(*boot_info, page) && page >= LOWER_HALF_END),
        r == Err::<Kernel, MemoryError>(MemoryError::AlreadyMapped) ==> !boot_info.is_usable_frame(
            root@,
        ) && (!regions_disjoint(*boot_info) || exists|page: u64|
            is_heap_page(page) && is_kernel_page(*boot_info, page)),
        r == Err::<Kernel, MemoryError>(MemoryError::Exhaustion) ==> !boot_info.is_usable_frame(
            root@,
        ) && !memory_supplies(*boot_info, frame_demand(*boot_info)),
        can_init(*boot_info, root@) ==> r is Ok,
{
    let mut frame_allocator: BootInfoFrameAllocator = BootInfoFrameAllocator::init(boot_info);
    let ghost source = frame_allocator;
    let ghost first = 4 + 3 * kernel_pages(*boot_info);
    proof {
        frame_allocator.lemma_initial_available(*boot_info, root@);
    }
    if frame_allocator.may_allocate(root) {
        return Err(MemoryError::UsageViolation);
    }
    let mut active: ActivePageTable = ActivePageTable::new(root);
    proof {
        assert(separate(active.page_directory, frame_allocator));
        assert(!active.page_directory@.dom().contains(temporary_page_address()));
        lemma_lower_half_is_free(temporary_page_address());
        assert(active.page_directory.resolve(temporary_page_address()) is None);
    }
    let boot_table: InactivePageTable = match remap_kernel(
        &mut active,
        boot_info,
        &mut frame_allocator,
    ) {
        Ok(table) => table,
        Err(e) => {
            proof {
                if e == MemoryError::Exhaustion {
                    BootInfoFrameAllocator::lemma_spent_exhausted(
                        source,
                        frame_allocator,
                        frame_demand(*boot_info),
                    );
                }
            }
            return Err(e);
        },
    };
    let ghost remapped = frame_allocator;
    proof {
        root.lemma_view_injective(boot_table.p4_frame);
    }
    let mut context: KernelContext = KernelContext::new(active.page_directory, frame_allocator);
    match init_heap(&mut context) {
        Ok(_) => {},
        Err(e) => {
            proof {
                if e == MemoryError::Exhaustion {
                    lemma_spent_in_turn(
                        source,
                        remapped,
                        context.frame_allocator,
                        first,
                        4 * heap_pages(),
                    );
                    BootInfoFrameAllocator::lemma_spent_exhausted(
                        source,
                        context.frame_allocator,
                        frame_demand(*boot_info),
                    );
                }
                if e == MemoryError::AlreadyMapped {
                    let page = choose|page: u64|
                        is_heap_page(page) && kernel_mappings(*boot_info).dom().contains(page);
                    assert(is_kernel_page(*boot_info, page));
                }
            }
            return Err(e);
        },
    }
    let (scheduler, _) = schedule::init(&context.mapper);
    Ok(Kernel { context, scheduler, boot_table })
}

} // verus!
