//! What the boot loader reports about memory: the memory map, the sections
//! of the kernel image and the place of the boot information itself.

use vstd::prelude::*;

verus! {

/// One area of the boot memory map.
#[derive(Clone, Copy, PartialEq, Eq, Structural, Debug)]
pub struct MemoryArea {
    /// First address of the area.
    pub start_address: u64,
    /// Length of the area in bytes.
    pub size: u64,
    /// Whether the area is free memory that the kernel may use.
    pub usable: bool,
}

impl MemoryArea {
    /// One past the last address of the area.
    pub open spec fn end(self) -> int {
        self.start_address + self.size
    }

    /// One past the last address of the area; `u64::MAX` where that sum does
    /// not fit.
    pub fn end_address(&self) -> (r: u64)
        ensures
            self.end() <= u64::MAX ==> r == self.end(),
            self.end() > u64::MAX ==> r == u64::MAX,
    {
        match self.start_address.checked_add(self.size) {
            Some(end) => end,
            None => u64::MAX,
        }
    }
}

/// One section of the kernel image.
#[derive(Clone, Copy, PartialEq, Eq, Structural, Debug)]
pub struct ElfSection {
    /// Address at which the section is loaded.
    pub start_address: u64,
    /// Length of the section in bytes.
    pub size: u64,
    /// The section's flags as the image gives them.
    pub flags: u64,
    /// Whether the section occupies memory at run time.
    pub allocated: bool,
}

impl ElfSection {
    /// One past the last address of the section.
    pub open spec fn end(self) -> int {
        self.start_address + self.size
    }

    /// One past the last address of the section, or `u64::MAX` where that
    /// does not fit.
    pub open spec fn end_clamped(self) -> u64 {
        if self.end() <= u64::MAX {
            self.end() as u64
        } else {
            u64::MAX
        }
    }

    /// One past the last address of the section; `u64::MAX` where that sum
    /// does not fit.
    pub fn end_address(&self) -> (r: u64)
        ensures
            r == self.end_clamped(),
    {
        match self.start_address.checked_add(self.size) {
            Some(end) => end,
            None => u64::MAX,
        }
    }

    /// Whether the section occupies memory at run time.
    pub fn is_allocated(&self) -> (r: bool)
        ensures
            r == self.allocated,
    {
        self.allocated
    }
}

/// `start` is the least start address of `sections`.
pub open spec fn is_image_start(sections: Seq<ElfSection>, start: u64) -> bool {
    &&& forall|i: int| 0 <= i < sections.len() ==> start <= (#[trigger] sections[i]).start_address
    &&& exists|i: int| 0 <= i < sections.len() && start == (#[trigger] sections[i]).start_address
}

/// `end` is the greatest end address of `sections`, or `u64::MAX` where a
/// section ends beyond it.
pub open spec fn is_image_end(sections: Seq<ElfSection>, end: u64) -> bool {
    &&& forall|i: int| 0 <= i < sections.len() ==> (#[trigger] sections[i]).end() <= end || end
        == u64::MAX
    &&& exists|i: int|
        0 <= i < sections.len() && (end == (#[trigger] sections[i]).end() || (end == u64::MAX
            && sections[i].end() > u64::MAX))
}

/// The boot memory descriptor.
pub struct BootMemoryDescriptor {
    /// The memory map, in the order in which the boot loader reports it.
    pub memory_areas: Vec<MemoryArea>,
    /// The sections of the kernel image.
    pub elf_sections: Vec<ElfSection>,
    /// First address of the boot information.
    pub start_address: u64,
    /// One past the last address of the boot information.
    pub end_address: u64,
}

impl BootMemoryDescriptor {
    /// Whether the frame at `frame` shares a byte with the kernel image: the
    /// range from the least start to the greatest end of its sections.
    pub open spec fn frame_in_image(&self, frame: u64) -> bool {
        &&& exists|i: int|
            0 <= i < self.elf_sections@.len() && (#[trigger] self.elf_sections@[i]).start_address
                < frame + 4096
        &&& exists|j: int|
            0 <= j < self.elf_sections@.len() && frame < (#[trigger] self.elf_sections@[j]).end()
    }

    /// Whether the frame at `frame` shares a byte with the boot information.
    pub open spec fn frame_in_boot_info(&self, frame: u64) -> bool {
        frame < self.end_address && self.start_address < frame + 4096
    }

    /// Whether the frame at `frame` is free memory for the kernel to use: it
    /// lies wholly in a usable area of the memory map, at or above 1 MiB, and
    /// shares no byte with the kernel image or the boot information.
    pub open spec fn is_usable_frame(&self, frame: u64) -> bool {
        &&& frame % 4096 == 0
        &&& frame < 0x10_0000_0000_0000
        &&& frame >= 0x10_0000
        &&& exists|i: int|
            0 <= i < self.memory_areas@.len() && (#[trigger] self.memory_areas@[i]).usable
                && self.memory_areas@[i].start_address <= frame && frame + 4096
                <= self.memory_areas@[i].end()
        &&& !self.frame_in_image(frame)
        &&& !self.frame_in_boot_info(frame)
    }

    /// The bounds of the kernel image: the least start and the greatest end of
    /// its sections. `None` where there is no section.
    pub fn kernel_image(&self) -> (r: Option<(u64, u64)>)
        ensures
            r is None <==> self.elf_sections@.len() == 0,
            r is Some ==> is_image_start(self.elf_sections@, r->Some_0.0),
            r is Some ==> is_image_end(self.elf_sections@, r->Some_0.1),
    {
        if self.elf_sections.len() == 0 {
            return None;
        }
        let mut start: u64 = self.elf_sections[0].start_address;
        let mut end: u64 = self.elf_sections[0].end_address();
        let mut i: usize = 1;
        proof {
            let first = self.elf_sections@.take(1);
            assert(first[0] == self.elf_sections@[0]);
        }
        while i < self.elf_sections.len()
            invariant
                1 <= i <= self.elf_sections@.len(),
                is_image_start(self.elf_sections@.take(i as int), start),
                is_image_end(self.elf_sections@.take(i as int), end),
            decreases self.elf_sections@.len() - i,
        {
            let section = &self.elf_sections[i];
            let ghost before = self.elf_sections@.take(i as int);
            let ghost after = self.elf_sections@.take(i + 1);
            let ghost ws = choose|k: int| 0 <= k < before.len() && start
                == (#[trigger] before[k]).start_address;
            let ghost we = choose|k: int|
                0 <= k < before.len() && (end == (#[trigger] before[k]).end() || (end == u64::MAX
                    && before[k].end() > u64::MAX));
            let section_end: u64 = section.end_address();
            let ghost mut ns = ws;
            let ghost mut ne = we;
            if section.start_address < start {
                start = section.start_address;
                proof {
                    ns = i as int;
                }
            }
            if section_end > end {
                end = section_end;
                proof {
                    ne = i as int;
                }
            }
            proof {
                assert(forall|k: int| 0 <= k < before.len() ==> after[k] == before[k]);
                assert(after[i as int] == *section);
                assert(after[ns].start_address == start);
                assert(end == after[ne].end() || (end == u64::MAX && after[ne].end() > u64::MAX));
                assert forall|k: int| 0 <= k < after.len() implies start <= (
                #[trigger] after[k]).start_address by {
                    if k < i {
                        assert(before[k].start_address == after[k].start_address);
                    }
                }
                assert forall|k: int| 0 <= k < after.len() implies (#[trigger] after[k]).end()
                    <= end || end == u64::MAX by {
                    if k < i {
                        assert(before[k].end() == after[k].end());
                    }
                }
            }
            i += 1;
        }
        proof {
            assert(self.elf_sections@.take(i as int) =~= self.elf_sections@);
        }
        Some((start, end))
    }
}

} // verus!
