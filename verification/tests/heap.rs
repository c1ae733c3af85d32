use ros::memory::address::{Page, PageTableFlags, PhysFrame, VirtAddr};
use ros::memory::allocator::allocator::{
    init_heap, use_allocator, KernelContext, HEAP_SIZE, HEAP_START,
};
use ros::memory::allocator::boot_info_frame_allocator::BootInfoFrameAllocator;
use ros::memory::allocator::FrameAllocator;
use ros::memory::boot_info::{BootMemoryDescriptor, ElfSection, MemoryArea};
use ros::memory::paging::helpers::{
    alloc_page, identity_map, identity_map_with, map_to, map_to_with, map_to_with_alloc,
    translate_addr, translate_addr_with, use_global_allocator,
};
use ros::memory::paging::new_page_table;
use ros::memory::paging::translator::{AddressTranslator, MapperFlush};
use ros::memory::MemoryError;

fn descriptor(memory: u64) -> BootMemoryDescriptor {
    BootMemoryDescriptor {
        memory_areas: vec![MemoryArea { start_address: 0x100000, size: memory, usable: true }],
        elf_sections: vec![ElfSection { start_address: 0x100000, size: 0x20000, flags: 0, allocated: true }],
        start_address: 0x120000,
        end_address: 0x121000,
    }
}

fn context(memory: u64) -> KernelContext {
    let mut allocator = BootInfoFrameAllocator::init(&descriptor(memory));
    let root = allocator.allocate_frame().unwrap();
    KernelContext::new(AddressTranslator::new(root), allocator)
}

#[test]
fn heap_is_a_hundred_kilobytes_at_a_fixed_address() {
    assert_eq!(HEAP_START, 0x4444_4444_0000);
    assert_eq!(HEAP_SIZE, 102400);
    assert_eq!(HEAP_SIZE % 4096, 0);
}

#[test]
fn every_page_of_the_heap_gets_a_frame_of_its_own() {
    let mut context = context(0xf00000);
    assert_eq!(init_heap(&mut context), Ok(()));
    let mut last: u64 = 0;
    for page in 0..25u64 {
        let address = HEAP_START + page * 4096;
        let frame = translate_addr(&context, VirtAddr::new(address)).unwrap().as_u64();
        assert!(frame > last);
        assert_eq!(frame % 4096, 0);
        assert!(!context.mapper.is_table(PhysFrame::new(frame)));
        last = frame;
        let inside = translate_addr(&context, VirtAddr::new(address + 0xfff)).unwrap().as_u64();
        assert_eq!(inside, frame + 0xfff);
    }
    assert!(translate_addr(&context, VirtAddr::new(HEAP_START - 1)).is_none());
    assert!(translate_addr(&context, VirtAddr::new(HEAP_START + HEAP_SIZE)).is_none());
    // 1 root + 25 pages + 3 tables
    assert_eq!(context.frame_allocator.allocate_frame(), Some(PhysFrame::new(0x121000 + 29 * 4096)));
}

#[test]
fn heap_is_not_mapped_over_a_mapped_page() {
    let mut context = context(0xf00000);
    let taken = Page::new(HEAP_START + 3 * 4096);
    let flags = PageTableFlags::present_writable();
    context.mapper.map_to(taken, PhysFrame::new(0x9000), flags, &mut context.frame_allocator).unwrap();
    assert_eq!(init_heap(&mut context), Err(MemoryError::AlreadyMapped));
    assert_eq!(
        translate_addr(&context, VirtAddr::new(HEAP_START + 3 * 4096)).map(|a| a.as_u64()),
        Some(0x9000)
    );
    assert!(translate_addr(&context, VirtAddr::new(HEAP_START + 4 * 4096)).is_none());
}

#[test]
fn heap_needs_twenty_eight_frames() {
    let mut short = context(0x21000 + 28 * 4096);
    assert_eq!(init_heap(&mut short), Err(MemoryError::Exhaustion));
    assert_eq!(short.frame_allocator.allocate_frame(), None);
    let mut enough = context(0x21000 + 29 * 4096);
    assert_eq!(init_heap(&mut enough), Ok(()));
    assert_eq!(enough.frame_allocator.allocate_frame(), None);
}

#[test]
fn alloc_page_maps_the_next_frame() {
    let mut context = context(0xf00000);
    let first = alloc_page(&mut context, VirtAddr::new(0xcafe_babe)).unwrap();
    assert_eq!(first.as_u64(), 0x122000);
    assert_eq!(
        translate_addr(&context, VirtAddr::new(0xcafe_babe)).map(|a| a.as_u64()),
        Some(0x122abe)
    );
    assert_eq!(
        translate_addr_with(VirtAddr::new(0xcafe_b000), &context.mapper).map(|a| a.as_u64()),
        Some(0x122000)
    );
    let second = alloc_page(&mut context, VirtAddr::new(0xcafe_c000)).unwrap();
    assert_eq!(second.as_u64(), 0x126000);
    assert_eq!(alloc_page(&mut context, VirtAddr::new(0xcafe_cfff)), Err(MemoryError::AlreadyMapped));
    assert_eq!(
        alloc_page(&mut context, VirtAddr::new(0xffff_ffff_ffff_f000)),
        Err(MemoryError::UsageViolation)
    );
    assert_eq!(context.frame_allocator.allocate_frame(), Some(PhysFrame::new(0x127000)));
}

#[test]
fn alloc_page_fails_without_frames() {
    let mut context = context(0x21000 + 4096);
    assert_eq!(alloc_page(&mut context, VirtAddr::new(0x1000)), Err(MemoryError::Exhaustion));
    assert!(translate_addr(&context, VirtAddr::new(0x1000)).is_none());
}

#[test]
fn helpers_map_through_the_context() {
    let mut context = context(0xf00000);
    let flags = PageTableFlags::present_writable();
    assert_eq!(
        map_to(&mut context, VirtAddr::new(0x7abc), PhysFrame::new(0x9000), flags),
        Ok(MapperFlush { page: Page::new(0x7000) })
    );
    assert_eq!(translate_addr(&context, VirtAddr::new(0x7abc)).map(|a| a.as_u64()), Some(0x9abc));
    assert_eq!(
        identity_map(&mut context, PhysFrame::new(0xb8000), flags),
        Ok(MapperFlush { page: Page::new(0xb8000) })
    );
    assert_eq!(translate_addr(&context, VirtAddr::new(0xb8001)).map(|a| a.as_u64()), Some(0xb8001));
    assert_eq!(
        map_to(&mut context, VirtAddr::new(0x7000), PhysFrame::new(0xa000), flags),
        Err(MemoryError::AlreadyMapped)
    );
    assert_eq!(
        identity_map(&mut context, PhysFrame::new(0x000f_ffff_ffff_f000), flags),
        Err(MemoryError::AlignmentViolation)
    );
}

#[test]
fn helpers_map_through_a_given_translator() {
    let mut allocator = BootInfoFrameAllocator::init(&descriptor(0xf00000));
    let mut other = BootInfoFrameAllocator::init(&descriptor(0xf00000));
    let mut mapper = AddressTranslator::new(PhysFrame::new(0x1000));
    let flags = PageTableFlags::present_writable();
    assert!(map_to_with(VirtAddr::new(0x7abc), PhysFrame::new(0x9000), flags, &mut mapper, &mut allocator).is_ok());
    assert_eq!(
        map_to_with_alloc(VirtAddr::new(0x8abc), PhysFrame::new(0xa000), flags, &mut mapper, &mut other),
        Ok(MapperFlush { page: Page::new(0x8000) })
    );
    assert_eq!(other.allocate_frame(), Some(PhysFrame::new(0x121000)));
    assert!(identity_map_with(PhysFrame::new(0xb000), flags, &mut mapper, &mut allocator).is_ok());
    assert_eq!(translate_addr_with(VirtAddr::new(0x7abc), &mapper).map(|a| a.as_u64()), Some(0x9abc));
    assert_eq!(translate_addr_with(VirtAddr::new(0x8abc), &mapper).map(|a| a.as_u64()), Some(0xaabc));
    assert_eq!(translate_addr_with(VirtAddr::new(0xbabc), &mapper).map(|a| a.as_u64()), Some(0xbabc));
    assert_eq!(allocator.allocate_frame(), Some(PhysFrame::new(0x124000)));
}

#[test]
fn global_allocator_is_lent_to_a_closure() {
    let mut context = context(0xf00000);
    let frames = use_global_allocator(&mut context, |falloc| {
        (falloc.allocate_frame(), falloc.allocate_frame())
    });
    assert_eq!(frames, (Some(PhysFrame::new(0x122000)), Some(PhysFrame::new(0x123000))));
    assert_eq!(context.frame_allocator.allocate_frame(), Some(PhysFrame::new(0x124000)));
}

#[test]
fn allocator_is_lent_to_a_closure() {
    let mut context = context(0xf00000);
    let frame = use_allocator(&mut context, |falloc| falloc.allocate_frame());
    assert_eq!(frame, Some(PhysFrame::new(0x122000)));
    let count = use_allocator(&mut context, |falloc| {
        let mut count = 0;
        while falloc.allocate_frame().is_some() {
            count += 1;
        }
        count
    });
    assert_eq!(count, (0x1000000 - 0x123000) / 4096);
    assert_eq!(context.frame_allocator.allocate_frame(), None);
}

#[test]
fn new_page_table_stays_mapped_at_its_window() {
    let mut context = context(0xf00000);
    let frame = new_page_table(&mut context).unwrap();
    assert_eq!(frame, PhysFrame::new(0x122000));
    assert!(context.mapper.is_table(frame));
    assert_eq!(translate_addr(&context, VirtAddr::new(0xcafe_b000)).map(|a| a.as_u64()), Some(0x122000));
    assert_eq!(new_page_table(&mut context), Err(MemoryError::AlreadyMapped));
    assert!(context.mapper.switch_to(frame).is_ok());
    assert!(translate_addr(&context, VirtAddr::new(0xcafe_b000)).is_none());
    assert_eq!(
        translate_addr(&context, VirtAddr::new(0xffff_ffff_ffff_f000)).map(|a| a.as_u64()),
        Some(0x122000)
    );
}
