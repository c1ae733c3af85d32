//! The scheduler: so far it makes one task and runs it in the active
//! address space.

use vstd::prelude::*;
use crate::memory::address::{PhysAddr, PhysFrame, VirtAddr};
use crate::memory::paging::translator::AddressTranslator;
use crate::memory::paging::P4;

verus! {

/// The registers of a task as they are saved while it does not run.
#[derive(Clone, Copy, PartialEq, Eq, Structural, Debug)]
pub struct Registers {
    pub eax: u64,
    pub ebx: u64,
    pub ecx: u64,
    pub edx: u64,
    pub esi: u64,
    pub edi: u64,
    pub esp: u64,
    pub ebp: u64,
    pub eip: u64,
    pub eflags: u64,
    /// Physical address of the task's level 4 table.
    pub cr3: u64,
}

impl Registers {
    /// Registers that are all zero.
    pub fn new() -> (r: Self)
        ensures
            r == Registers::zeroed(),
    {
        Registers {
            eax: 0,
            ebx: 0,
            ecx: 0,
            edx: 0,
            esi: 0,
            edi: 0,
            esp: 0,
            ebp: 0,
            eip: 0,
            eflags: 0,
            cr3: 0,
        }
    }

    /// Registers that are all zero.
    pub open spec fn zeroed() -> Registers {
        Registers {
            eax: 0,
            ebx: 0,
            ecx: 0,
            edx: 0,
            esi: 0,
            edi: 0,
            esp: 0,
            ebp: 0,
            eip: 0,
            eflags: 0,
            cr3: 0,
        }
    }
}

impl Default for Registers {
    fn default() -> (r: Self)
        ensures
            r == Registers::zeroed(),
    {
        Registers::new()
    }
}

/// A task: what is saved of it while it does not run.
#[derive(Clone, Copy, PartialEq, Eq, Structural, Debug)]
pub struct Task {
    pub registers: Registers,
}

impl Task {
    /// A task whose registers are all zero.
    pub fn new() -> (r: Self)
        ensures
            r.registers == Registers::zeroed(),
    {
        Task { registers: Registers::new() }
    }
}

/// The tasks of the kernel, in the order in which they were made.
pub struct Scheduler {
    pub tasks: Vec<Task>,
}

impl Scheduler {
    /// A scheduler without tasks.
    pub fn new() -> (r: Self)
        ensures
            r.tasks@ == Seq::<Task>::empty(),
    {
        Scheduler { tasks: Vec::new() }
    }

    /// Makes the first task. Its saved registers are zero but for the address
    /// of its level 4 table, which is the table that `mapper` works on, found
    /// by translating the address at which the recursive self-reference shows
    /// it. Returns the frame of that table: it is what the table-base
    /// register must be loaded with to run the task.
    pub fn setup(&mut self, mapper: &AddressTranslator) -> (r: PhysFrame)
        requires
            mapper.wf(),
        ensures
            r@ == mapper.root(),
            final(self).tasks@ == old(self).tasks@.push(
                Task { registers: Registers { cr3: mapper.root(), ..Registers::zeroed() } },
            ),
    {
        let mut new_task: Task = Task::new();
        proof {
            mapper.lemma_recursive_address();
        }
        let shown: PhysFrame = mapper.p4_frame();
        proof {
            use_type_invariant(&shown);
        }
        let phys_p4: PhysAddr = match mapper.translate_addr(VirtAddr::new(P4)) {
            Some(phys) => phys,
            None => shown.start_address(),
        };
        new_task.registers.cr3 = phys_p4.as_u64();
        self.tasks.push(new_task);
        PhysFrame::containing_address(phys_p4)
    }
}

/// A scheduler with its first task, and the frame of the level 4 table that
/// the task runs in.
pub fn init(mapper: &AddressTranslator) -> (r: (Scheduler, PhysFrame))
    requires
        mapper.wf(),
    ensures
        r.1@ == mapper.root(),
        r.0.tasks@ == seq![
            Task { registers: Registers { cr3: mapper.root(), ..Registers::zeroed() } },
        ],
{
    let mut scheduler: Scheduler = Scheduler::new();
    let frame: PhysFrame = scheduler.setup(mapper);
    proof {
        assert(scheduler.tasks@ =~= seq![
            Task { registers: Registers { cr3: mapper.root(), ..Registers::zeroed() } },
        ]);
    }
    (scheduler, frame)
}

} // verus!
