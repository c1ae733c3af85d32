use ros::memory::address::PhysFrame;
use ros::memory::allocator::boot_info_frame_allocator::BootInfoFrameAllocator;
use ros::memory::allocator::FrameAllocator;
use ros::memory::boot_info::{BootMemoryDescriptor, ElfSection, MemoryArea};

fn area(start: u64, size: u64, usable: bool) -> MemoryArea {
    MemoryArea { start_address: start, size, usable }
}

fn section(start: u64, size: u64) -> ElfSection {
    ElfSection { start_address: start, size, flags: 0, allocated: true }
}

fn descriptor() -> BootMemoryDescriptor {
    BootMemoryDescriptor {
        memory_areas: vec![area(0x100000, 0xf00000, true)],
        elf_sections: vec![section(0x100000, 0x20000)],
        start_address: 0x120000,
        end_address: 0x121000,
    }
}

fn addr(frame: Option<PhysFrame>) -> Option<u64> {
    frame.map(|f| f.start_address().as_u64())
}

fn all_frames(allocator: &mut BootInfoFrameAllocator) -> Vec<u64> {
    let mut frames = Vec::new();
    while let Some(frame) = allocator.allocate_frame() {
        frames.push(frame.as_u64());
    }
    frames
}

#[test]
fn first_frame_follows_kernel_and_boot_information() {
    let mut allocator = BootInfoFrameAllocator::init(&descriptor());
    assert_eq!(addr(allocator.allocate_frame()), Some(0x121000));
    assert_eq!(addr(allocator.allocate_frame()), Some(0x122000));
    assert_eq!(addr(allocator.allocate_frame()), Some(0x123000));
}

#[test]
fn frames_ascend_until_the_area_ends() {
    let mut allocator = BootInfoFrameAllocator::init(&descriptor());
    let frames = all_frames(&mut allocator);
    assert_eq!(frames.len(), 3807);
    assert_eq!(frames[0], 0x121000);
    assert_eq!(frames[3806], 0xfff000);
    for pair in frames.windows(2) {
        assert_eq!(pair[0] + 4096, pair[1]);
    }
    assert_eq!(addr(allocator.allocate_frame()), None);
    assert_eq!(addr(allocator.allocate_frame()), None);
}

#[test]
fn same_descriptor_gives_same_frames() {
    let mut first = BootInfoFrameAllocator::init(&descriptor());
    let mut second = BootInfoFrameAllocator::init(&descriptor());
    for _ in 0..100 {
        assert_eq!(first.allocate_frame(), second.allocate_frame());
    }
}

#[test]
fn no_frame_below_one_megabyte() {
    let boot_info = BootMemoryDescriptor {
        memory_areas: vec![area(0, 0x9fc00, true), area(0xff000, 0x3000, true)],
        elf_sections: vec![],
        start_address: 0,
        end_address: 0,
    };
    let mut allocator = BootInfoFrameAllocator::init(&boot_info);
    assert_eq!(all_frames(&mut allocator), vec![0x100000, 0x101000]);
}

#[test]
fn frames_lie_wholly_in_usable_areas() {
    let boot_info = BootMemoryDescriptor {
        memory_areas: vec![
            area(0x200800, 0x2000, true),
            area(0x300000, 0x2000, false),
            area(0x400000, 0xfff, true),
            area(0x500000, 0x1000, true),
        ],
        elf_sections: vec![],
        start_address: 0,
        end_address: 0,
    };
    let mut allocator = BootInfoFrameAllocator::init(&boot_info);
    assert_eq!(all_frames(&mut allocator), vec![0x201000, 0x500000]);
}

#[test]
fn frames_avoid_kernel_image_and_boot_information() {
    let boot_info = BootMemoryDescriptor {
        memory_areas: vec![area(0x100000, 0x10000, true)],
        elf_sections: vec![section(0x102800, 0x1000), section(0x105000, 0x800)],
        start_address: 0x108fff,
        end_address: 0x10a001,
    };
    let mut allocator = BootInfoFrameAllocator::init(&boot_info);
    assert_eq!(
        all_frames(&mut allocator),
        vec![0x100000, 0x101000, 0x106000, 0x107000, 0x10b000, 0x10c000, 0x10d000, 0x10e000, 0x10f000]
    );
}

#[test]
fn lowest_frame_comes_first_whatever_the_order_of_areas() {
    let boot_info = BootMemoryDescriptor {
        memory_areas: vec![area(0x300000, 0x2000, true), area(0x200000, 0x2000, true), area(0x200000, 0x3000, true)],
        elf_sections: vec![],
        start_address: 0,
        end_address: 0,
    };
    let mut allocator = BootInfoFrameAllocator::init(&boot_info);
    assert_eq!(all_frames(&mut allocator), vec![0x200000, 0x201000, 0x202000, 0x300000, 0x301000]);
}

#[test]
fn no_frame_is_handed_out_twice() {
    let boot_info = BootMemoryDescriptor {
        memory_areas: vec![area(0x100000, 0x40000, true), area(0x120000, 0x40000, true)],
        elf_sections: vec![section(0x110000, 0x4000)],
        start_address: 0x130000,
        end_address: 0x130010,
    };
    let mut allocator = BootInfoFrameAllocator::init(&boot_info);
    let frames = all_frames(&mut allocator);
    let mut sorted = frames.clone();
    sorted.sort();
    sorted.dedup();
    assert_eq!(sorted, frames);
    assert_eq!(frames.len(), 0x60 - 4 - 1);
    for frame in frames {
        assert!(frame + 4096 <= 0x110000 || frame >= 0x114000);
        assert!(frame + 4096 <= 0x130000 || frame >= 0x130010);
    }
}

#[test]
fn may_allocate_tells_what_is_still_to_come() {
    let mut allocator = BootInfoFrameAllocator::init(&descriptor());
    assert!(!allocator.may_allocate(PhysFrame::new(0x100000)));
    assert!(!allocator.may_allocate(PhysFrame::new(0x120000)));
    assert!(allocator.may_allocate(PhysFrame::new(0x121000)));
    assert!(allocator.may_allocate(PhysFrame::new(0xfff000)));
    assert!(!allocator.may_allocate(PhysFrame::new(0x1000000)));
    assert_eq!(addr(allocator.allocate_frame()), Some(0x121000));
    assert!(!allocator.may_allocate(PhysFrame::new(0x121000)));
    assert!(allocator.may_allocate(PhysFrame::new(0x122000)));
}

#[test]
fn kernel_image_spans_all_sections() {
    let boot_info = BootMemoryDescriptor {
        memory_areas: vec![],
        elf_sections: vec![section(0x105000, 0x800), section(0x102800, 0x1000), section(0x104000, 0x10)],
        start_address: 0,
        end_address: 0,
    };
    assert_eq!(boot_info.kernel_image(), Some((0x102800, 0x105800)));
    let empty = BootMemoryDescriptor {
        memory_areas: vec![],
        elf_sections: vec![],
        start_address: 0,
        end_address: 0,
    };
    assert_eq!(empty.kernel_image(), None);
    assert_eq!(section(u64::MAX - 1, 5).end_address(), u64::MAX);
    assert_eq!(section(0x1000, 5).end_address(), 0x1005);
    assert_eq!(area(u64::MAX, 1, true).end_address(), u64::MAX);
    assert!(section(1, 1).is_allocated());
}
