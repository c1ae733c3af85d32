use ros::memory::address::{Page, PageTableFlags, PhysFrame, VirtAddr};
use ros::memory::allocator::boot_info_frame_allocator::BootInfoFrameAllocator;
use ros::memory::allocator::FrameAllocator;
use ros::memory::boot_info::{BootMemoryDescriptor, MemoryArea};
use ros::memory::paging::page_tables::active_page_table::ActivePageTable;
use ros::memory::paging::page_tables::inactive_page_table::InactivePageTable;
use ros::memory::paging::page_tables::temporary_page::{TemporaryPage, TinyAllocator};
use ros::memory::paging::translator::{AddressTranslator, MapperFlush, MapperFlushAll};
use ros::memory::MemoryError;

fn allocator_from(start: u64, frames: u64) -> BootInfoFrameAllocator {
    BootInfoFrameAllocator::init(&BootMemoryDescriptor {
        memory_areas: vec![MemoryArea { start_address: start, size: frames * 4096, usable: true }],
        elf_sections: vec![],
        start_address: 0,
        end_address: 0,
    })
}

fn flags() -> PageTableFlags {
    PageTableFlags::present_writable()
}

fn translate(mapper: &AddressTranslator, address: u64) -> Option<u64> {
    mapper.translate_addr(VirtAddr::new(address)).map(|a| a.as_u64())
}

#[test]
fn tiny_allocator_hands_out_its_three_frames_in_order() {
    let mut source = allocator_from(0x200000, 5);
    let mut tiny = TinyAllocator::new(&mut source);
    assert_eq!(source.allocate_frame(), Some(PhysFrame::new(0x203000)));
    assert_eq!(tiny.allocate_frame(), Some(PhysFrame::new(0x200000)));
    assert_eq!(tiny.allocate_frame(), Some(PhysFrame::new(0x201000)));
    assert_eq!(tiny.allocate_frame(), Some(PhysFrame::new(0x202000)));
    assert_eq!(tiny.allocate_frame(), None);
    assert_eq!(tiny.allocate_frame(), None);
}

#[test]
fn tiny_allocator_takes_what_is_left() {
    let mut source = allocator_from(0x200000, 2);
    let mut tiny = TinyAllocator::new(&mut source);
    assert_eq!(source.allocate_frame(), None);
    assert_eq!(tiny.allocate_frame(), Some(PhysFrame::new(0x200000)));
    assert_eq!(tiny.allocate_frame(), Some(PhysFrame::new(0x201000)));
    assert_eq!(tiny.allocate_frame(), None);
}

#[test]
fn temporary_page_is_mapped_with_its_own_frames() {
    let mut source = allocator_from(0x200000, 16);
    let mut active = ActivePageTable::new(source.allocate_frame().unwrap());
    let mut window = TemporaryPage::new(Page::new(0xcafe_b000), &mut source);
    assert_eq!(source.allocate_frame(), Some(PhysFrame::new(0x204000)));
    let start = window.map(PhysFrame::new(0x9000), &mut active);
    assert_eq!(start, Ok(VirtAddr::new(0xcafe_b000)));
    assert_eq!(source.allocate_frame(), Some(PhysFrame::new(0x205000)));
    assert_eq!(translate(&active.page_directory, 0xcafe_b010), Some(0x9010));
    assert!(active.page_directory.is_table(PhysFrame::new(0x201000)));
    assert!(active.page_directory.is_table(PhysFrame::new(0x202000)));
    assert!(active.page_directory.is_table(PhysFrame::new(0x203000)));
}

#[test]
fn temporary_page_cannot_be_mapped_twice() {
    let mut source = allocator_from(0x200000, 16);
    let mut active = ActivePageTable::new(source.allocate_frame().unwrap());
    let mut window = TemporaryPage::new(Page::new(0xcafe_b000), &mut source);
    assert!(window.map(PhysFrame::new(0x9000), &mut active).is_ok());
    assert_eq!(
        window.map(PhysFrame::new(0xa000), &mut active),
        Err(MemoryError::UsageViolation)
    );
    assert_eq!(
        window.map_table_frame(PhysFrame::new(0xa000), &mut active),
        Err(MemoryError::UsageViolation)
    );
    assert_eq!(translate(&active.page_directory, 0xcafe_b000), Some(0x9000));
    assert_eq!(
        window.unmap(&mut active),
        Ok(MapperFlush { page: Page::new(0xcafe_b000) })
    );
    assert_eq!(window.unmap(&mut active), Err(MemoryError::NotMapped));
    assert_eq!(
        window.map_table_frame(PhysFrame::new(0xa000), &mut active),
        Ok(Page::new(0xcafe_b000))
    );
    assert_eq!(translate(&active.page_directory, 0xcafe_b000), Some(0xa000));
}

#[test]
fn temporary_page_needs_its_reservoir_once() {
    let mut source = allocator_from(0x200000, 3);
    let mut active = ActivePageTable::new(source.allocate_frame().unwrap());
    let mut window = TemporaryPage::new(Page::new(0xcafe_b000), &mut source);
    assert_eq!(
        window.map(PhysFrame::new(0x9000), &mut active),
        Err(MemoryError::Exhaustion)
    );
    assert_eq!(translate(&active.page_directory, 0xcafe_b000), None);
}

#[test]
fn new_inactive_table_is_empty_and_leaves_the_active_space() {
    let mut source = allocator_from(0x200000, 16);
    let root = source.allocate_frame().unwrap();
    let mut active = ActivePageTable::new(root);
    active.page_directory.map_to(Page::new(0x1000), PhysFrame::new(0x1000), flags(), &mut source).unwrap();
    let mut window = TemporaryPage::new(Page::new(0xcafe_b000), &mut source);
    let frame = source.allocate_frame().unwrap();
    let table = InactivePageTable::new(frame, &mut active, &mut window).unwrap();
    assert_eq!(table.p4_frame, frame);
    assert!(active.page_directory.is_table(frame));
    assert_eq!(active.page_directory.active_frame(), root);
    assert_eq!(active.page_directory.p4_frame(), root);
    assert_eq!(translate(&active.page_directory, 0xcafe_b000), None);
    assert_eq!(translate(&active.page_directory, 0x1000), Some(0x1000));
    assert_eq!(
        InactivePageTable::new(frame, &mut active, &mut window),
        Err(MemoryError::UsageViolation)
    );
    assert_eq!(
        InactivePageTable::new(root, &mut active, &mut window),
        Err(MemoryError::UsageViolation)
    );
    assert_eq!(translate(&active.page_directory, 0xcafe_b000), None);
}

#[test]
fn populated_mappings_show_after_the_switch_only() {
    let mut source = allocator_from(0x200000, 32);
    let root = source.allocate_frame().unwrap();
    let mut active = ActivePageTable::new(root);
    active.page_directory.map_to(Page::new(0x1000), PhysFrame::new(0x1000), flags(), &mut source).unwrap();
    let mut window = TemporaryPage::new(Page::new(0xcafe_b000), &mut source);
    let frame = source.allocate_frame().unwrap();
    let table = InactivePageTable::new(frame, &mut active, &mut window).unwrap();

    let seen = active
        .with(&table, &mut window, &mut source, |mapper, falloc| {
            assert_eq!(mapper.p4_frame(), frame);
            assert_eq!(mapper.active_frame(), root);
            mapper.map_to(Page::new(0x7000), PhysFrame::new(0x8000), PageTableFlags::present_writable(), falloc).unwrap();
            (
                mapper.translate_addr(VirtAddr::new(0x7000)).map(|a| a.as_u64()),
                mapper.translate_addr(VirtAddr::new(0x1000)).map(|a| a.as_u64()),
                mapper.translate_addr(VirtAddr::new(0xcafe_b000)).map(|a| a.as_u64()),
            )
        })
        .unwrap();
    assert_eq!(seen, (Some(0x8000), None, None));

    assert_eq!(active.page_directory.p4_frame(), root);
    assert_eq!(active.frame(), root);
    assert_eq!(translate(&active.page_directory, 0x7000), None);
    assert_eq!(translate(&active.page_directory, 0x1000), Some(0x1000));
    assert_eq!(translate(&active.page_directory, 0xcafe_b000), None);

    let old = active.switch(table).unwrap();
    assert_eq!(old.p4_frame, root);
    assert_eq!(active.page_directory.active_frame(), frame);
    assert_eq!(active.frame(), frame);
    assert_eq!(translate(&active.page_directory, 0x7000), Some(0x8000));
    assert_eq!(translate(&active.page_directory, 0x1000), None);

    let back = active.switch(old).unwrap();
    assert_eq!(back.p4_frame, frame);
    assert_eq!(translate(&active.page_directory, 0x7000), None);
    assert_eq!(translate(&active.page_directory, 0x1000), Some(0x1000));
}

#[test]
fn populating_twice_at_once_is_refused() {
    let mut source = allocator_from(0x200000, 32);
    let root = source.allocate_frame().unwrap();
    let mut active = ActivePageTable::new(root);
    let mut window = TemporaryPage::new(Page::new(0xcafe_b000), &mut source);
    let first = InactivePageTable::new(source.allocate_frame().unwrap(), &mut active, &mut window).unwrap();
    let second = InactivePageTable::new(source.allocate_frame().unwrap(), &mut active, &mut window).unwrap();

    assert_eq!(active.page_directory.redirect(first.p4_frame), Ok(MapperFlushAll));
    assert_eq!(active.page_directory.p4_frame(), first.p4_frame);
    assert_eq!(active.page_directory.redirect(second.p4_frame), Err(MemoryError::UsageViolation));
    assert_eq!(active.switch(second), Err(MemoryError::UsageViolation));
    let refused = active.with(&second, &mut window, &mut source, |_, _| 1u8);
    assert_eq!(refused, Err(MemoryError::UsageViolation));
    assert_eq!(active.page_directory.p4_frame(), first.p4_frame);
    assert_eq!(active.page_directory.active_frame(), root);

    // The window is not mapped in the active space: the way back is closed.
    assert_eq!(
        active.page_directory.restore(Page::new(0xcafe_b000)),
        Err(MemoryError::UsageViolation)
    );
    assert_eq!(active.page_directory.p4_frame(), first.p4_frame);
}

#[test]
fn populating_the_active_table_is_refused() {
    let mut source = allocator_from(0x200000, 32);
    let root = source.allocate_frame().unwrap();
    let mut active = ActivePageTable::new(root);
    let mut window = TemporaryPage::new(Page::new(0xcafe_b000), &mut source);
    let itself = InactivePageTable { p4_frame: root };
    let refused = active.with(&itself, &mut window, &mut source, |_, _| 1u8);
    assert_eq!(refused, Err(MemoryError::UsageViolation));
}

#[test]
fn redirect_and_restore_by_hand() {
    let mut source = allocator_from(0x200000, 32);
    let root = source.allocate_frame().unwrap();
    let mut active = ActivePageTable::new(root);
    let mut window = TemporaryPage::new(Page::new(0xcafe_b000), &mut source);
    let table = InactivePageTable::new(source.allocate_frame().unwrap(), &mut active, &mut window).unwrap();
    window.map(root, &mut active).unwrap();
    assert_eq!(active.page_directory.redirect(table.p4_frame), Ok(MapperFlushAll));
    assert_eq!(translate(&active.page_directory, 0xffff_ffff_ffff_f000), Some(table.p4_frame.as_u64()));
    assert_eq!(translate(&active.page_directory, 0xcafe_b000), None);
    assert_eq!(active.page_directory.restore(Page::new(0xcafe_b000)), Ok(MapperFlushAll));
    assert_eq!(translate(&active.page_directory, 0xffff_ffff_ffff_f000), Some(root.as_u64()));
    assert_eq!(translate(&active.page_directory, 0xcafe_b000), Some(root.as_u64()));
}

#[test]
fn format_root_makes_an_empty_space_of_a_mapped_frame() {
    let mut source = allocator_from(0x200000, 32);
    let root = source.allocate_frame().unwrap();
    let mut mapper = AddressTranslator::new(root);
    assert_eq!(mapper.format_root(Page::new(0x3000)), Err(MemoryError::NotMapped));
    mapper.map_to(Page::new(0x3000), PhysFrame::new(0x9000), flags(), &mut source).unwrap();
    assert_eq!(mapper.format_root(Page::new(0x3000)), Ok(PhysFrame::new(0x9000)));
    assert!(mapper.is_table(PhysFrame::new(0x9000)));
    assert_eq!(mapper.format_root(Page::new(0x3000)), Err(MemoryError::UsageViolation));
    assert_eq!(mapper.switch_to(PhysFrame::new(0x9000)), Ok(root));
    assert_eq!(translate(&mapper, 0x3000), None);
    assert_eq!(translate(&mapper, 0xffff_ffff_ffff_f000), Some(0x9000));
}
