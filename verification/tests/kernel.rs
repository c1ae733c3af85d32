use std::cell::Cell;

use ros::memory::address::{PhysFrame, VirtAddr};
use ros::memory::allocator::allocator::{HEAP_SIZE, HEAP_START};
use ros::memory::allocator::FrameAllocator;
use ros::memory::boot_info::{BootMemoryDescriptor, ElfSection, MemoryArea};
use ros::memory::paging::translator::AddressTranslator;
use ros::memory::MemoryError;
use ros::schedule::{Registers, Scheduler, Task};
use ros::{init, test_runner, QemuExitCode};

fn descriptor(memory: u64) -> BootMemoryDescriptor {
    BootMemoryDescriptor {
        memory_areas: vec![
            MemoryArea { start_address: 0, size: 0x9fc00, usable: true },
            MemoryArea { start_address: 0x9fc00, size: 0x60400, usable: false },
            MemoryArea { start_address: 0x100000, size: memory, usable: true },
        ],
        elf_sections: vec![
            ElfSection { start_address: 0x100000, size: 0x8000, flags: 6, allocated: true },
            ElfSection { start_address: 0x108000, size: 0x17fff, flags: 3, allocated: true },
            ElfSection { start_address: 0, size: 0x1234, flags: 0, allocated: false },
        ],
        start_address: 0x120800,
        end_address: 0x121810,
    }
}

#[test]
fn kernel_comes_up_with_its_own_space_heap_and_first_task() {
    let mut kernel = init(&descriptor(0xf00000), PhysFrame::new(0x1000)).unwrap();
    let mapper = &kernel.context.mapper;
    let translate = |address: u64| mapper.translate_addr(VirtAddr::new(address)).map(|a| a.as_u64());
    assert_eq!(kernel.boot_table.p4_frame, PhysFrame::new(0x1000));
    // the boot information ends in the frame at 0x121000: the first free frame follows it
    assert_eq!(mapper.active_frame(), PhysFrame::new(0x125000));
    assert_eq!(mapper.p4_frame(), PhysFrame::new(0x125000));
    for address in [0x100000u64, 0x107fff, 0x108000, 0x11fffe, 0x11ffff, 0xb8000, 0x120000, 0x120800, 0x12180f, 0x121fff] {
        assert_eq!(translate(address), Some(address));
    }
    for address in [0u64, 0x1000, 0xfffff, 0x122000, 0xcafe_b000] {
        assert_eq!(translate(address), None);
    }
    for page in 0..HEAP_SIZE / 4096 {
        assert!(translate(HEAP_START + page * 4096).is_some());
    }
    assert_eq!(translate(HEAP_START + HEAP_SIZE), None);
    assert_eq!(kernel.scheduler.tasks.len(), 1);
    assert_eq!(kernel.scheduler.tasks[0].registers, Registers { cr3: 0x125000, ..Registers::new() });
    assert!(kernel.context.frame_allocator.allocate_frame().is_some());
}

#[test]
fn kernel_does_not_come_up_on_a_root_in_free_memory() {
    let result = init(&descriptor(0xf00000), PhysFrame::new(0x200000));
    assert_eq!(result.err(), Some(MemoryError::UsageViolation));
    assert!(init(&descriptor(0xf00000), PhysFrame::new(0x100000)).is_ok());
    assert!(init(&descriptor(0xf00000), PhysFrame::new(0x121000)).is_ok());
    assert!(init(&descriptor(0xf00000), PhysFrame::new(0xf000)).is_ok());
}

#[test]
fn kernel_does_not_come_up_without_memory() {
    let result = init(&descriptor(0x22000 + 20 * 4096), PhysFrame::new(0x1000));
    assert_eq!(result.err(), Some(MemoryError::Exhaustion));
}

#[test]
fn kernel_comes_up_where_memory_holds_what_it_may_ask_for() {
    // 35 pages are kept mapped and 25 are the heap's: at most 4 + 3 * 35 + 4 * 25 frames
    let demand = 4 + 3 * 35 + 4 * 25;
    let boot_info = descriptor(0x22000 + (demand + 1) * 4096);
    let mut kernel = init(&boot_info, PhysFrame::new(0x1000)).unwrap();
    let mut left = 0;
    while kernel.context.frame_allocator.allocate_frame().is_some() {
        left += 1;
    }
    // 4 frames and 3 tables for the kernel's space, 25 frames and 3 tables for the heap
    assert_eq!(left, demand + 1 - (4 + 3 + 25 + 3));
}

#[test]
fn kernel_does_not_come_up_on_an_unaligned_section() {
    let mut boot_info = descriptor(0xf00000);
    boot_info.elf_sections[1].start_address = 0x108010;
    let result = init(&boot_info, PhysFrame::new(0x1000));
    assert_eq!(result.err(), Some(MemoryError::AlignmentViolation));
}

#[test]
fn kernel_does_not_come_up_where_the_image_covers_the_heap() {
    let mut boot_info = descriptor(0xf00000);
    boot_info.elf_sections.push(ElfSection {
        start_address: HEAP_START + 0x5000,
        size: 1,
        flags: 0,
        allocated: true,
    });
    // the image now spans all memory below the heap: free frames lie above it
    boot_info.memory_areas.push(MemoryArea {
        start_address: 0x4445_0000_0000,
        size: 0xf00000,
        usable: true,
    });
    let result = init(&boot_info, PhysFrame::new(0x1000));
    assert_eq!(result.err(), Some(MemoryError::AlreadyMapped));
    boot_info.elf_sections[3].allocated = false;
    assert!(init(&boot_info, PhysFrame::new(0x1000)).is_ok());
}

#[test]
fn registers_start_at_zero() {
    let registers = Registers::new();
    assert_eq!(registers.eax, 0);
    assert_eq!(registers.eip, 0);
    assert_eq!(registers.eflags, 0);
    assert_eq!(registers.cr3, 0);
    assert_eq!(registers, Registers::default());
    assert_eq!(Task::new().registers, registers);
    assert!(Scheduler::new().tasks.is_empty());
}

#[test]
fn first_task_runs_in_the_space_of_the_translator() {
    let mapper = AddressTranslator::new(PhysFrame::new(0x7000));
    let mut scheduler = Scheduler::new();
    assert_eq!(scheduler.setup(&mapper), PhysFrame::new(0x7000));
    assert_eq!(scheduler.tasks.len(), 1);
    assert_eq!(scheduler.tasks[0].registers.cr3, 0x7000);
    assert_eq!(scheduler.tasks[0].registers.esp, 0);
    assert_eq!(scheduler.setup(&mapper), PhysFrame::new(0x7000));
    assert_eq!(scheduler.tasks.len(), 2);
    let (made, frame) = ros::schedule::init(&mapper);
    assert_eq!(frame, PhysFrame::new(0x7000));
    assert_eq!(made.tasks.len(), 1);
    assert_eq!(made.tasks[0].registers.cr3, 0x7000);
}

#[test]
fn exit_codes_are_what_the_emulator_expects() {
    assert_eq!(QemuExitCode::Success.code(), 0x10);
    assert_eq!(QemuExitCode::Failed.code(), 0x11);
}

#[test]
fn test_runner_runs_every_test_once() {
    let count = Cell::new(0u32);
    let first = || count.set(count.get() * 2 + 1);
    let second = || count.set(count.get() * 2 + 10);
    let tests: [&dyn Fn(); 3] = [&first, &second, &first];
    assert_eq!(test_runner(&tests), QemuExitCode::Success);
    assert_eq!(count.get(), 25);
    let none: [&dyn Fn(); 0] = [];
    assert_eq!(test_runner(&none), QemuExitCode::Success);
    assert_eq!(count.get(), 25);
}
