use ros::memory::address::{Page, PageTableFlags, PhysFrame, VirtAddr};
use ros::memory::allocator::boot_info_frame_allocator::BootInfoFrameAllocator;
use ros::memory::allocator::FrameAllocator;
use ros::memory::boot_info::{BootMemoryDescriptor, ElfSection, MemoryArea};
use ros::memory::paging::page_tables::active_page_table::ActivePageTable;
use ros::memory::paging::remap_kernel::{
    identity_map_page, identity_map_range, map_kernel, remap_kernel,
};
use ros::memory::paging::translator::AddressTranslator;
use ros::memory::MemoryError;

fn section(start: u64, size: u64, allocated: bool) -> ElfSection {
    ElfSection { start_address: start, size, flags: 0, allocated }
}

fn descriptor(sections: Vec<ElfSection>, memory: u64) -> BootMemoryDescriptor {
    BootMemoryDescriptor {
        memory_areas: vec![MemoryArea { start_address: 0x100000, size: memory, usable: true }],
        elf_sections: sections,
        start_address: 0x120000,
        end_address: 0x121000,
    }
}

fn usual() -> BootMemoryDescriptor {
    descriptor(
        vec![
            section(0x100000, 0x1800, true),
            section(0x102000, 0x1e000, true),
            section(0, 0x500, false),
        ],
        0xf00000,
    )
}

fn translate(mapper: &AddressTranslator, address: u64) -> Option<u64> {
    mapper.translate_addr(VirtAddr::new(address)).map(|a| a.as_u64())
}

#[test]
fn remapped_space_holds_kernel_video_buffer_and_boot_information() {
    let mut allocator = BootInfoFrameAllocator::init(&usual());
    let root = allocator.allocate_frame().unwrap();
    let mut active = ActivePageTable::new(root);
    let flags = PageTableFlags::present_writable();
    let zero = Page::containing_address(VirtAddr::new(0));
    active.page_directory.map_to(zero, PhysFrame::new(0), flags, &mut allocator).unwrap();
    assert!(translate(&active.page_directory, 0).is_some());

    let old = remap_kernel(&mut active, &usual(), &mut allocator).unwrap();
    assert_eq!(old.p4_frame, root);
    assert!(active.page_directory.active_frame() != root);
    assert_eq!(active.frame(), active.page_directory.active_frame());

    for address in [
        0x100000u64, 0x100fff, 0x101000, 0x1017ff, 0x101fff, 0x102000, 0x11ffff, 0xb8000, 0xb8abc,
        0xb8fff, 0x120000, 0x120fff,
    ] {
        assert_eq!(translate(&active.page_directory, address), Some(address));
    }
    for address in [0u64, 0xfff, 0xb7fff, 0xb9000, 0x121000, 0xfffff, 0xcafeb000, 0x4444_4444_0000] {
        assert_eq!(translate(&active.page_directory, address), None);
    }

    let back = active.switch(old).unwrap();
    assert!(back.p4_frame != root);
    assert_eq!(translate(&active.page_directory, 0), Some(0));
    assert_eq!(translate(&active.page_directory, 0x100000), None);
    assert_eq!(translate(&active.page_directory, 0xcafeb000), None);
}

#[test]
fn remap_takes_frames_in_order() {
    let mut allocator = BootInfoFrameAllocator::init(&usual());
    let root = allocator.allocate_frame().unwrap();
    assert_eq!(root, PhysFrame::new(0x121000));
    let mut active = ActivePageTable::new(root);
    remap_kernel(&mut active, &usual(), &mut allocator).unwrap();
    // three for the reservoir, one for the new level 4 table
    assert_eq!(active.page_directory.active_frame(), PhysFrame::new(0x125000));
    // level 3, level 2 and one level 1 table serve all that the kernel maps
    assert_eq!(allocator.allocate_frame(), Some(PhysFrame::new(0x129000)));
}

#[test]
fn section_that_does_not_start_a_frame_is_refused() {
    let boot_info = descriptor(vec![section(0x100000, 0x1000, true), section(0x101800, 0x800, true)], 0xf00000);
    let mut allocator = BootInfoFrameAllocator::init(&boot_info);
    let root = allocator.allocate_frame().unwrap();
    let mut active = ActivePageTable::new(root);
    assert_eq!(remap_kernel(&mut active, &boot_info, &mut allocator), Err(MemoryError::AlignmentViolation));
    assert_eq!(active.page_directory.active_frame(), root);
    assert_eq!(active.page_directory.p4_frame(), root);
    assert_eq!(translate(&active.page_directory, 0x100000), None);
}

#[test]
fn unaligned_section_that_takes_no_memory_is_skipped() {
    let boot_info = descriptor(vec![section(0x100000, 0x1000, true), section(0x101800, 0x800, false)], 0xf00000);
    let mut allocator = BootInfoFrameAllocator::init(&boot_info);
    let mut active = ActivePageTable::new(allocator.allocate_frame().unwrap());
    assert!(remap_kernel(&mut active, &boot_info, &mut allocator).is_ok());
    assert_eq!(translate(&active.page_directory, 0x100000), Some(0x100000));
    assert_eq!(translate(&active.page_directory, 0x101800), None);
}

#[test]
fn sections_that_share_a_frame_are_refused() {
    let boot_info = descriptor(vec![section(0x100000, 0x1800, true), section(0x101000, 0x800, true)], 0xf00000);
    let mut allocator = BootInfoFrameAllocator::init(&boot_info);
    let root = allocator.allocate_frame().unwrap();
    let mut active = ActivePageTable::new(root);
    assert_eq!(remap_kernel(&mut active, &boot_info, &mut allocator), Err(MemoryError::AlreadyMapped));
    assert_eq!(active.page_directory.active_frame(), root);
}

#[test]
fn kernel_beyond_the_lower_half_is_refused() {
    let boot_info = descriptor(vec![section(0x7fff_ffff_f000, 0x2000, true)], 0xf00000);
    let mut allocator = BootInfoFrameAllocator::init(&boot_info);
    let mut active = ActivePageTable::new(PhysFrame::new(0x1000));
    assert_eq!(remap_kernel(&mut active, &boot_info, &mut allocator), Err(MemoryError::AlignmentViolation));
}

#[test]
fn remap_fails_when_memory_runs_out() {
    for frames in 0..8u64 {
        let boot_info = descriptor(vec![section(0x100000, 0x20000, true)], 0x21000 + frames * 4096);
        let mut allocator = BootInfoFrameAllocator::init(&boot_info);
        let mut active = ActivePageTable::new(PhysFrame::new(0x1000));
        let result = remap_kernel(&mut active, &boot_info, &mut allocator);
        if frames < 7 {
            assert_eq!(result, Err(MemoryError::Exhaustion));
            assert_eq!(allocator.allocate_frame(), None);
            assert_eq!(active.page_directory.active_frame(), PhysFrame::new(0x1000));
        } else {
            assert!(result.is_ok());
        }
    }
}

#[test]
fn remap_is_refused_while_the_temporary_page_is_in_use() {
    let mut allocator = BootInfoFrameAllocator::init(&usual());
    let root = allocator.allocate_frame().unwrap();
    let mut active = ActivePageTable::new(root);
    let flags = PageTableFlags::present_writable();
    active.page_directory.map_to(Page::new(0xcafe_b000), PhysFrame::new(0), flags, &mut allocator).unwrap();
    let next = allocator.allocate_frame().unwrap();
    assert_eq!(remap_kernel(&mut active, &usual(), &mut allocator), Err(MemoryError::UsageViolation));
    assert_eq!(allocator.allocate_frame(), Some(PhysFrame::new(next.as_u64() + 4096)));
}

#[test]
fn range_is_mapped_frame_by_frame() {
    let mut allocator = BootInfoFrameAllocator::init(&usual());
    let mut mapper = AddressTranslator::new(allocator.allocate_frame().unwrap());
    assert_eq!(identity_map_range(0x5800, 0x7001, &mut mapper, &mut allocator), Ok(()));
    assert_eq!(translate(&mapper, 0x4fff), None);
    assert_eq!(translate(&mapper, 0x5000), Some(0x5000));
    assert_eq!(translate(&mapper, 0x6abc), Some(0x6abc));
    assert_eq!(translate(&mapper, 0x7fff), Some(0x7fff));
    assert_eq!(translate(&mapper, 0x8000), None);
    assert_eq!(identity_map_range(0x9000, 0x9000, &mut mapper, &mut allocator), Ok(()));
    assert_eq!(identity_map_range(0xa000, 0x9000, &mut mapper, &mut allocator), Ok(()));
    assert_eq!(translate(&mapper, 0x9000), None);
    assert_eq!(translate(&mapper, 0xa000), None);
    assert_eq!(
        identity_map_range(0x3000, 0x6000, &mut mapper, &mut allocator),
        Err(MemoryError::AlreadyMapped)
    );
    assert_eq!(translate(&mapper, 0x3000), Some(0x3000));
    assert_eq!(translate(&mapper, 0x4000), Some(0x4000));
    assert_eq!(identity_map_page(0x4000, &mut mapper, &mut allocator), Err(MemoryError::AlreadyMapped));
    assert_eq!(identity_map_page(0x9000, &mut mapper, &mut allocator), Ok(()));
    assert_eq!(
        identity_map_page(0x8000_0000_0000, &mut mapper, &mut allocator),
        Err(MemoryError::AlignmentViolation)
    );
}

#[test]
fn kernel_is_mapped_on_top_of_what_is_there() {
    let mut allocator = BootInfoFrameAllocator::init(&usual());
    let mut mapper = AddressTranslator::new(allocator.allocate_frame().unwrap());
    let flags = PageTableFlags::present_writable();
    mapper.map_to(Page::new(0x7000), PhysFrame::new(0x9000), flags, &mut allocator).unwrap();
    assert_eq!(map_kernel(&mut mapper, &mut allocator, &usual()), Ok(()));
    assert_eq!(translate(&mapper, 0x7000), Some(0x9000));
    assert_eq!(translate(&mapper, 0x100000), Some(0x100000));
    assert_eq!(translate(&mapper, 0xb8000), Some(0xb8000));
    assert_eq!(translate(&mapper, 0x120000), Some(0x120000));
    assert_eq!(map_kernel(&mut mapper, &mut allocator, &usual()), Err(MemoryError::AlreadyMapped));
}
