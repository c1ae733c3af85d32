use ros::memory::address::{Page, PageTableFlags, PhysFrame, VirtAddr};
use ros::memory::allocator::FrameAllocator;
use ros::memory::paging::translator::{AddressTranslator, MapperFlush};
use ros::memory::MemoryError;

/// Hands out the frames of a list, first to last.
struct ListAllocator {
    frames: Vec<u64>,
    next: usize,
}

impl ListAllocator {
    fn new(frames: &[u64]) -> Self {
        ListAllocator { frames: frames.to_vec(), next: 0 }
    }

    fn handed_out(&self) -> usize {
        self.next
    }
}

impl FrameAllocator for ListAllocator {
    fn next_frame(&self) -> Option<u64> {
        self.frames.get(self.next).copied()
    }

    fn after_allocation(&self) -> Self {
        ListAllocator { frames: self.frames.clone(), next: self.next + 1 }
    }

    fn allocate_frame(&mut self) -> Option<PhysFrame> {
        if self.next < self.frames.len() {
            self.next += 1;
            Some(PhysFrame::new(self.frames[self.next - 1]))
        } else {
            self.next += 1;
            None
        }
    }
}

fn flags() -> PageTableFlags {
    PageTableFlags::present_writable()
}

fn translate(mapper: &AddressTranslator, address: u64) -> Option<u64> {
    mapper.translate_addr(VirtAddr::new(address)).map(|a| a.as_u64())
}

#[test]
fn new_space_maps_nothing_but_its_tables() {
    let mapper = AddressTranslator::new(PhysFrame::new(0x5000));
    assert_eq!(mapper.p4_frame(), PhysFrame::new(0x5000));
    assert_eq!(mapper.active_frame(), PhysFrame::new(0x5000));
    assert!(mapper.is_table(PhysFrame::new(0x5000)));
    assert!(!mapper.is_table(PhysFrame::new(0x6000)));
    assert_eq!(translate(&mapper, 0), None);
    assert_eq!(translate(&mapper, 0x5000), None);
    assert_eq!(mapper.translate_page(Page::new(0x7000)), Err(MemoryError::NotMapped));
    assert_eq!(translate(&mapper, 0xffff_ffff_ffff_f000), Some(0x5000));
    assert_eq!(translate(&mapper, 0xffff_ffff_ffff_f123), Some(0x5123));
}

#[test]
fn mapped_page_translates_to_its_frame() {
    let mut mapper = AddressTranslator::new(PhysFrame::new(0x5000));
    let mut allocator = ListAllocator::new(&[0x10000, 0x11000, 0x12000, 0x13000]);
    let page = Page::new(0x4444_4444_0000);
    let flush = mapper.map_to(page, PhysFrame::new(0xabc000), flags(), &mut allocator);
    assert_eq!(flush, Ok(MapperFlush { page }));
    assert_eq!(allocator.handed_out(), 3);
    assert!(mapper.is_table(PhysFrame::new(0x10000)));
    assert!(mapper.is_table(PhysFrame::new(0x11000)));
    assert!(mapper.is_table(PhysFrame::new(0x12000)));
    assert!(!mapper.is_table(PhysFrame::new(0x13000)));
    assert!(!mapper.is_table(PhysFrame::new(0xabc000)));
    assert_eq!(mapper.translate_page(page), Ok(PhysFrame::new(0xabc000)));
    assert_eq!(translate(&mapper, 0x4444_4444_0000), Some(0xabc000));
    assert_eq!(translate(&mapper, 0x4444_4444_0fff), Some(0xabcfff));
    assert_eq!(translate(&mapper, 0x4444_4444_1000), None);
    assert_eq!(translate(&mapper, 0x4444_4443_f000), None);
}

#[test]
fn translation_stays_while_other_pages_come_and_go() {
    let mut mapper = AddressTranslator::new(PhysFrame::new(0x5000));
    let mut allocator = ListAllocator::new(&[0x10000, 0x11000, 0x12000, 0x13000, 0x14000, 0x15000]);
    let page = Page::new(0x4444_4444_0000);
    mapper.map_to(page, PhysFrame::new(0xabc000), flags(), &mut allocator).unwrap();
    let neighbour = Page::new(0x4444_4444_1000);
    mapper.map_to(neighbour, PhysFrame::new(0xdef000), flags(), &mut allocator).unwrap();
    assert_eq!(allocator.handed_out(), 3);
    let far = Page::new(0x1000);
    mapper.map_to(far, PhysFrame::new(0xabc000), flags(), &mut allocator).unwrap();
    assert_eq!(allocator.handed_out(), 6);
    assert_eq!(mapper.translate_page(page), Ok(PhysFrame::new(0xabc000)));
    assert_eq!(mapper.translate_page(neighbour), Ok(PhysFrame::new(0xdef000)));
    assert_eq!(mapper.translate_page(far), Ok(PhysFrame::new(0xabc000)));
    assert_eq!(mapper.unmap(neighbour), Ok((PhysFrame::new(0xdef000), MapperFlush { page: neighbour })));
    assert_eq!(mapper.unmap(far), Ok((PhysFrame::new(0xabc000), MapperFlush { page: far })));
    assert_eq!(mapper.translate_page(page), Ok(PhysFrame::new(0xabc000)));
    assert_eq!(mapper.translate_page(neighbour), Err(MemoryError::NotMapped));
    assert_eq!(mapper.translate_page(far), Err(MemoryError::NotMapped));
}

#[test]
fn mapping_a_mapped_page_is_refused_and_overwrites_nothing() {
    let mut mapper = AddressTranslator::new(PhysFrame::new(0x5000));
    let mut allocator = ListAllocator::new(&[0x10000, 0x11000, 0x12000, 0x13000]);
    let page = Page::new(0x20_0000);
    mapper.map_to(page, PhysFrame::new(0xabc000), flags(), &mut allocator).unwrap();
    let again = mapper.map_to(page, PhysFrame::new(0xdef000), flags(), &mut allocator);
    assert_eq!(again, Err(MemoryError::AlreadyMapped));
    assert_eq!(allocator.handed_out(), 3);
    assert_eq!(mapper.translate_page(page), Ok(PhysFrame::new(0xabc000)));
}

#[test]
fn unmapping_an_unmapped_page_is_refused() {
    let mut mapper = AddressTranslator::new(PhysFrame::new(0x5000));
    let mut allocator = ListAllocator::new(&[0x10000, 0x11000, 0x12000]);
    assert_eq!(mapper.unmap(Page::new(0x20_0000)), Err(MemoryError::NotMapped));
    mapper.map_to(Page::new(0x20_0000), PhysFrame::new(0xabc000), flags(), &mut allocator).unwrap();
    assert_eq!(mapper.unmap(Page::new(0x20_1000)), Err(MemoryError::NotMapped));
    assert_eq!(mapper.unmap(Page::new(0x4000_0000)), Err(MemoryError::NotMapped));
    assert_eq!(mapper.unmap(Page::new(0xffff_ffff_ffff_f000)), Err(MemoryError::NotMapped));
    assert_eq!(mapper.translate_page(Page::new(0x20_0000)), Ok(PhysFrame::new(0xabc000)));
}

#[test]
fn map_then_unmap_gives_the_frame_back() {
    let mut mapper = AddressTranslator::new(PhysFrame::new(0x5000));
    let mut allocator = ListAllocator::new(&[0x10000, 0x11000, 0x12000]);
    let page = Page::new(0x7fff_ffff_f000);
    mapper.map_to(page, PhysFrame::new(0x000f_ffff_ffff_f000), flags(), &mut allocator).unwrap();
    assert_eq!(
        mapper.unmap(page),
        Ok((PhysFrame::new(0x000f_ffff_ffff_f000), MapperFlush { page }))
    );
    assert_eq!(mapper.translate_page(page), Err(MemoryError::NotMapped));
    assert_eq!(mapper.unmap(page), Err(MemoryError::NotMapped));
    mapper.map_to(page, PhysFrame::new(0x1000), flags(), &mut allocator).unwrap();
    assert_eq!(allocator.handed_out(), 3);
    assert_eq!(mapper.translate_page(page), Ok(PhysFrame::new(0x1000)));
}

#[test]
fn flags_are_kept_with_the_frame() {
    let mut mapper = AddressTranslator::new(PhysFrame::new(0x5000));
    let mut allocator = ListAllocator::new(&[0x10000, 0x11000, 0x12000]);
    let no_execute = PageTableFlags::from_bits_truncate(PageTableFlags::NO_EXECUTE | PageTableFlags::PRESENT);
    mapper.map_to(Page::new(0x3000), PhysFrame::new(0), no_execute, &mut allocator).unwrap();
    assert_eq!(mapper.translate_page(Page::new(0x3000)), Ok(PhysFrame::new(0)));
    assert_eq!(mapper.unmap(Page::new(0x3000)).map(|r| r.0), Ok(PhysFrame::new(0)));
}

#[test]
fn an_entry_of_zero_maps_nothing() {
    let mut mapper = AddressTranslator::new(PhysFrame::new(0x5000));
    let mut allocator = ListAllocator::new(&[0x10000, 0x11000, 0x12000]);
    let page = Page::new(0x3000);
    assert!(mapper.map_to(page, PhysFrame::new(0), PageTableFlags::empty(), &mut allocator).is_ok());
    assert_eq!(mapper.translate_page(page), Err(MemoryError::NotMapped));
    assert!(mapper.map_to(page, PhysFrame::new(0x8000), flags(), &mut allocator).is_ok());
    assert_eq!(mapper.translate_page(page), Ok(PhysFrame::new(0x8000)));
}

#[test]
fn reserved_part_cannot_be_mapped() {
    let mut mapper = AddressTranslator::new(PhysFrame::new(0x5000));
    let mut allocator = ListAllocator::new(&[0x10000, 0x11000, 0x12000]);
    let page = Page::new(0xffff_ff80_0000_0000);
    assert_eq!(
        mapper.map_to(page, PhysFrame::new(0x8000), flags(), &mut allocator),
        Err(MemoryError::UsageViolation)
    );
    assert_eq!(allocator.handed_out(), 0);
    let below = Page::new(0xffff_ff7f_ffff_f000);
    assert!(mapper.map_to(below, PhysFrame::new(0x8000), flags(), &mut allocator).is_ok());
    assert_eq!(translate(&mapper, 0xffff_ff7f_ffff_f010), Some(0x8010));
    assert_eq!(translate(&mapper, 0xffff_ffff_ffff_f000), Some(0x5000));
}

#[test]
fn mapping_fails_when_frames_for_tables_run_out() {
    let mut mapper = AddressTranslator::new(PhysFrame::new(0x5000));
    let mut allocator = ListAllocator::new(&[0x10000, 0x11000]);
    let page = Page::new(0x20_0000);
    assert_eq!(
        mapper.map_to(page, PhysFrame::new(0x8000), flags(), &mut allocator),
        Err(MemoryError::Exhaustion)
    );
    assert_eq!(allocator.handed_out(), 3);
    assert_eq!(mapper.translate_page(page), Err(MemoryError::NotMapped));
    let mut more = ListAllocator::new(&[0x12000, 0x13000]);
    assert!(mapper.map_to(page, PhysFrame::new(0x8000), flags(), &mut more).is_ok());
    assert_eq!(more.handed_out(), 1);
    assert_eq!(mapper.translate_page(page), Ok(PhysFrame::new(0x8000)));
}

#[test]
fn a_frame_that_holds_a_table_is_not_taken_for_another() {
    let mut mapper = AddressTranslator::new(PhysFrame::new(0x5000));
    let mut allocator = ListAllocator::new(&[0x10000, 0x5000, 0x12000]);
    let page = Page::new(0x20_0000);
    assert_eq!(
        mapper.map_to(page, PhysFrame::new(0x8000), flags(), &mut allocator),
        Err(MemoryError::UsageViolation)
    );
    assert_eq!(allocator.handed_out(), 2);
    assert_eq!(translate(&mapper, 0xffff_ffff_ffff_f000), Some(0x5000));
    let mut twice = ListAllocator::new(&[0x10000, 0x12000]);
    assert_eq!(
        mapper.map_to(page, PhysFrame::new(0x8000), flags(), &mut twice),
        Err(MemoryError::UsageViolation)
    );
    assert_eq!(twice.handed_out(), 1);
}

#[test]
fn identity_maps_page_to_frame_of_same_address() {
    let mut mapper = AddressTranslator::new(PhysFrame::new(0x5000));
    let mut allocator = ListAllocator::new(&[0x10000, 0x11000, 0x12000]);
    let flush = mapper.identity_map(PhysFrame::new(0xb8000), flags(), &mut allocator);
    assert_eq!(flush, Ok(MapperFlush { page: Page::new(0xb8000) }));
    assert_eq!(translate(&mapper, 0xb8abc), Some(0xb8abc));
    assert_eq!(
        mapper.identity_map(PhysFrame::new(0x8000_0000_0000), flags(), &mut allocator),
        Err(MemoryError::AlignmentViolation)
    );
    assert_eq!(
        mapper.identity_map(PhysFrame::new(0xb8000), flags(), &mut allocator),
        Err(MemoryError::AlreadyMapped)
    );
}

#[test]
fn tables_show_in_the_reserved_part() {
    let mut mapper = AddressTranslator::new(PhysFrame::new(0x5000));
    let mut allocator = ListAllocator::new(&[0x10000, 0x11000, 0x12000]);
    mapper.map_to(Page::new(0xcafe_b000), PhysFrame::new(0x8000), flags(), &mut allocator).unwrap();
    // level 3 table of the page: indices 511, 511, 511, 0
    assert_eq!(translate(&mapper, 0xffff_ffff_ffe0_0000), Some(0x10000));
    // level 2 table: indices 511, 511, 0, 3
    assert_eq!(translate(&mapper, 0xffff_ffff_c000_3000), Some(0x11000));
    // level 1 table: indices 511, 0, 3, 87
    assert_eq!(translate(&mapper, 0xffff_ff80_0065_7000), Some(0x12000));
}

#[test]
fn map_takes_the_frame_from_the_allocator() {
    let mut mapper = AddressTranslator::new(PhysFrame::new(0x5000));
    let mut allocator = ListAllocator::new(&[0x10000, 0x11000, 0x12000, 0x13000, 0x14000]);
    let page = Page::new(0x4444_4444_0000);
    assert_eq!(
        mapper.map(page, flags(), &mut allocator),
        Ok((PhysFrame::new(0x10000), MapperFlush { page }))
    );
    assert_eq!(allocator.handed_out(), 4);
    assert_eq!(mapper.translate_page(page), Ok(PhysFrame::new(0x10000)));
    assert!(!mapper.is_table(PhysFrame::new(0x10000)));
    assert!(mapper.is_table(PhysFrame::new(0x11000)));
    assert_eq!(mapper.map(page, flags(), &mut allocator), Err(MemoryError::AlreadyMapped));
    assert_eq!(
        mapper.map(Page::new(0xffff_ffff_ffff_e000), flags(), &mut allocator),
        Err(MemoryError::UsageViolation)
    );
    assert_eq!(allocator.handed_out(), 4);
    let neighbour = Page::new(0x4444_4444_1000);
    assert_eq!(
        mapper.map(neighbour, flags(), &mut allocator),
        Ok((PhysFrame::new(0x14000), MapperFlush { page: neighbour }))
    );
    assert_eq!(mapper.map(Page::new(0x1000), flags(), &mut allocator), Err(MemoryError::Exhaustion));
    assert_eq!(allocator.handed_out(), 6);
}

#[test]
fn map_does_not_take_a_frame_that_holds_a_table() {
    let mut mapper = AddressTranslator::new(PhysFrame::new(0x5000));
    let mut allocator = ListAllocator::new(&[0x5000, 0x11000]);
    assert_eq!(
        mapper.map(Page::new(0x1000), flags(), &mut allocator),
        Err(MemoryError::UsageViolation)
    );
    assert_eq!(allocator.handed_out(), 1);
    assert_eq!(mapper.translate_page(Page::new(0x1000)), Err(MemoryError::NotMapped));
}

#[test]
fn tables_can_be_read_out() {
    let mut mapper = AddressTranslator::new(PhysFrame::new(0x5000));
    let mut allocator = ListAllocator::new(&[0x10000, 0x11000, 0x12000]);
    mapper.map_to(Page::new(0xcafe_b000), PhysFrame::new(0x8000), flags(), &mut allocator).unwrap();
    let frames: Vec<u64> = mapper.table_frames().iter().map(|f| f.as_u64()).collect();
    assert_eq!(frames, vec![0x5000, 0x10000, 0x11000, 0x12000]);
    let entry = |table: u64, index: u16| {
        mapper
            .read_entry(PhysFrame::new(table), ros::memory::address::PageTableIndex::new(index))
            .map(|(address, flags)| (address.as_u64(), flags.bits()))
    };
    assert_eq!(entry(0x5000, 511), Some((0x5000, 3)));
    assert_eq!(entry(0x5000, 0), Some((0x10000, 3)));
    assert_eq!(entry(0x5000, 1), Some((0, 0)));
    assert_eq!(entry(0x10000, 3), Some((0x11000, 3)));
    assert_eq!(entry(0x11000, 87), Some((0x12000, 3)));
    assert_eq!(entry(0x12000, 491), Some((0x8000, 3)));
    assert_eq!(entry(0x12000, 490), Some((0, 0)));
    assert_eq!(entry(0x8000, 0), None);
}
