use ros::memory::address::{
    AddressNotAligned, Page, PageTableFlags, PageTableIndex, PhysAddr, PhysFrame, VirtAddr,
};

#[test]
fn physical_addresses_have_52_bits() {
    assert_eq!(PhysAddr::try_new(0x000f_ffff_ffff_ffff).map(|a| a.as_u64()), Some(0x000f_ffff_ffff_ffff));
    assert!(PhysAddr::try_new(0x0010_0000_0000_0000).is_none());
    assert!(PhysAddr::try_new(u64::MAX).is_none());
    assert_eq!(PhysAddr::new(0x1234).as_u64(), 0x1234);
    assert!(PhysAddr::new(0x2000).is_aligned());
    assert!(!PhysAddr::new(0x2001).is_aligned());
}

#[test]
fn virtual_addresses_are_canonical() {
    assert!(VirtAddr::try_new(0x0000_7fff_ffff_ffff).is_some());
    assert!(VirtAddr::try_new(0x0000_8000_0000_0000).is_none());
    assert!(VirtAddr::try_new(0xffff_7fff_ffff_ffff).is_none());
    assert!(VirtAddr::try_new(0xffff_8000_0000_0000).is_some());
    assert_eq!(VirtAddr::new(0xffff_ffff_ffff_f000).as_u64(), 0xffff_ffff_ffff_f000);
    assert_eq!(VirtAddr::new(0xcafe_babe).page_offset(), 0xabe);
    assert!(VirtAddr::new(0xcafe_b000).is_aligned());
    assert!(!VirtAddr::new(0xcafe_babe).is_aligned());
}

#[test]
fn frames_and_pages_start_at_multiples_of_4096() {
    let frame = PhysFrame::containing_address(PhysAddr::new(0x1234));
    assert_eq!(frame.start_address().as_u64(), 0x1000);
    assert_eq!(frame.as_u64(), 0x1000);
    assert_eq!(PhysFrame::from_start_address(PhysAddr::new(0x1234)), Err(AddressNotAligned));
    assert_eq!(PhysFrame::from_start_address(PhysAddr::new(0x3000)), Ok(PhysFrame::new(0x3000)));

    let page = Page::containing_address(VirtAddr::new(0xcafe_babe));
    assert_eq!(page.start_address().as_u64(), 0xcafe_b000);
    assert_eq!(page.as_u64(), 0xcafe_b000);
    assert_eq!(Page::from_start_address(VirtAddr::new(0xcafe_babe)), Err(AddressNotAligned));
    assert_eq!(Page::from_start_address(VirtAddr::new(0xcafe_b000)), Ok(Page::new(0xcafe_b000)));
}

#[test]
fn table_indices_are_nine_bits_each() {
    let heap = Page::new(0x4444_4444_0000);
    assert_eq!(heap.p4_index().as_usize(), 0x88);
    assert_eq!(heap.p3_index().as_usize(), 0x111);
    assert_eq!(heap.p2_index().as_usize(), 0x22);
    assert_eq!(heap.p1_index().as_usize(), 0x40);

    let window = Page::new(0xcafe_b000);
    assert_eq!(window.p4_index().as_usize(), 0);
    assert_eq!(window.p3_index().as_usize(), 3);
    assert_eq!(window.p2_index().as_usize(), 87);
    assert_eq!(window.p1_index().as_usize(), 491);

    let recursive = Page::new(0xffff_ffff_ffff_f000);
    assert_eq!(recursive.p4_index().as_usize(), 511);
    assert_eq!(recursive.p3_index().as_usize(), 511);
    assert_eq!(recursive.p2_index().as_usize(), 511);
    assert_eq!(recursive.p1_index().as_usize(), 511);

    assert_eq!(PageTableIndex::new(511).as_usize(), 511);
    assert_eq!(PageTableIndex::new_truncate(513).as_usize(), 1);
}

#[test]
fn flags_lie_outside_the_address_field() {
    assert_eq!(PageTableFlags::empty().bits(), 0);
    assert_eq!(PageTableFlags::present_writable().bits(), 3);
    assert_eq!(PageTableFlags::PRESENT | PageTableFlags::WRITABLE, 3);
    assert!(PageTableFlags::from_bits(0x1000).is_none());
    assert_eq!(PageTableFlags::from_bits(0x8000_0000_0000_0083).map(|f| f.bits()), Some(0x8000_0000_0000_0083));
    assert_eq!(PageTableFlags::from_bits_truncate(0x1003).bits(), 3);
    assert_eq!(PageTableFlags::from_bits_truncate(0x000f_ffff_ffff_f000).bits(), 0);
    let present = PageTableFlags::from_bits_truncate(PageTableFlags::PRESENT);
    let huge = PageTableFlags::from_bits_truncate(PageTableFlags::HUGE_PAGE);
    assert_eq!(present.union(huge).bits(), 0x81);
    assert!(present.union(huge).contains(present));
    assert!(!present.contains(huge));
    assert!(PageTableFlags::present_writable().contains(present));
}
