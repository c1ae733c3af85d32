//! The frame allocator of the boot phase: it hands out the usable frames of
//! the boot memory map in ascending order and never takes one back.

use vstd::prelude::*;
use crate::memory::address::{is_aligned, is_frame_addr, PhysAddr, PhysFrame, PAGE_SIZE,
    PHYS_ADDR_LIMIT};
use crate::memory::allocator::{
    after_allocations, handed_out, lemma_after_allocations_split, spent, FrameAllocator,
};
use crate::memory::boot_info::{is_image_end, is_image_start, BootMemoryDescriptor, MemoryArea};

verus! {

/// No frame below this address (1 MiB) is ever handed out.
pub const FIRST_USABLE_ADDRESS: u64 = 0x10_0000;

/// Whether the frame that starts at `frame` shares a byte with `[start, end)`.
pub open spec fn frame_overlaps(frame: u64, start: u64, end: u64) -> bool {
    frame < end && start < frame + PAGE_SIZE
}

/// Whether the frame that starts at `frame` lies wholly inside the usable
/// area `area`.
pub open spec fn frame_in_area(frame: u64, area: MemoryArea) -> bool {
    area.usable && area.start_address <= frame && frame + PAGE_SIZE <= area.end()
}

/// The least aligned address that is not below `addr`.
fn align_up(addr: u64) -> (r: u64)
    requires
        addr <= PHYS_ADDR_LIMIT,
    ensures
        is_aligned(r),
        addr <= r < addr + PAGE_SIZE,
        r <= PHYS_ADDR_LIMIT,
        forall|b: u64| is_aligned(b) && b >= addr ==> b >= r,
{
    let rest: u64 = addr % PAGE_SIZE;
    if rest == 0 {
        addr
    } else {
        let r: u64 = addr - rest + PAGE_SIZE;
        assert forall|b: u64| is_aligned(b) && b >= addr implies b >= r by {
            if b < r {
                assert(b - (addr - rest) < PAGE_SIZE);
                assert((addr - rest) % 4096 == 0);
                assert(b % 4096 == 0);
                assert(b == addr - rest) by (nonlinear_arith)
                    requires
                        b % 4096 == 0,
                        (addr - rest) % 4096 == 0,
                        0 <= b - (addr - rest) < 4096,
                ;
            }
        }
        r
    }
}

/// Hands out the frames of the usable areas of the boot memory map, lowest
/// address first, leaving out the first megabyte, the kernel image and the
/// boot information.
pub struct BootInfoFrameAllocator {
    areas: Vec<MemoryArea>,
    kernel_start: u64,
    kernel_end: u64,
    boot_start: u64,
    boot_end: u64,
    next: u64,
}

impl BootInfoFrameAllocator {
    /// The memory map that the allocator draws from.
    pub closed spec fn areas(&self) -> Seq<MemoryArea> {
        self.areas@
    }

    /// First address of the kernel image.
    pub closed spec fn kernel_start(&self) -> u64 {
        self.kernel_start
    }

    /// One past the last address of the kernel image.
    pub closed spec fn kernel_end(&self) -> u64 {
        self.kernel_end
    }

    /// First address of the boot information.
    pub closed spec fn boot_start(&self) -> u64 {
        self.boot_start
    }

    /// One past the last address of the boot information.
    pub closed spec fn boot_end(&self) -> u64 {
        self.boot_end
    }

    /// The cursor: every frame handed out so far lies below it, every frame
    /// still to come at or above it.
    pub closed spec fn cursor(&self) -> u64 {
        self.next
    }

    /// Whether the frame at `addr` may be handed out as far as `area` goes.
    pub open spec fn available_in(&self, addr: u64, area: MemoryArea) -> bool {
        &&& is_frame_addr(addr)
        &&& addr >= FIRST_USABLE_ADDRESS
        &&& frame_in_area(addr, area)
        &&& !frame_overlaps(addr, self.kernel_start(), self.kernel_end())
        &&& !frame_overlaps(addr, self.boot_start(), self.boot_end())
    }

    /// Whether the frame at `addr` belongs to those that the allocator hands
    /// out over its lifetime: it lies wholly in a usable area, at or above
    /// 1 MiB, and shares no byte with the kernel image or the boot
    /// information.
    pub open spec fn is_available(&self, addr: u64) -> bool {
        exists|i: int| 0 <= i < self.areas().len()
            && self.available_in(addr, #[trigger] self.areas()[i])
    }

    /// Whether the frame at `addr` is the one handed out next: the lowest
    /// available frame at or above the cursor.
    pub open spec fn is_next(&self, addr: u64) -> bool {
        &&& self.is_available(addr)
        &&& addr >= self.cursor()
        &&& forall|b: u64| self.is_available(b) && b >= self.cursor() ==> addr <= b
    }

    /// Whether the allocator may still hand out the frame at `addr`: the
    /// frame is available and does not lie below the cursor.
    pub open spec fn may_hand_out(&self, addr: u64) -> bool {
        self.is_available(addr) && addr >= self.cursor()
    }

    /// Whether `self` is the allocator that `init` makes for `boot_info`.
    pub open spec fn is_initial(&self, boot_info: BootMemoryDescriptor) -> bool {
        &&& self.areas() == boot_info.memory_areas@
        &&& self.boot_start() == boot_info.start_address
        &&& self.boot_end() == boot_info.end_address
        &&& self.cursor() == 0
        &&& boot_info.elf_sections@.len() == 0 ==> self.kernel_start() == 0 && self.kernel_end()
            == 0
        &&& boot_info.elf_sections@.len() > 0 ==> is_image_start(
            boot_info.elf_sections@,
            self.kernel_start(),
        ) && is_image_end(boot_info.elf_sections@, self.kernel_end())
    }

    /// An allocator over the memory that `boot_info` describes. Nothing has
    /// been handed out yet.
    pub fn init(boot_info: &BootMemoryDescriptor) -> (r: Self)
        ensures
            r.is_initial(*boot_info),
    {
        let (kernel_start, kernel_end): (u64, u64) = match boot_info.kernel_image() {
            Some(bounds) => bounds,
            None => (0, 0),
        };
        let mut areas: Vec<MemoryArea> = Vec::new();
        let mut i: usize = 0;
        while i < boot_info.memory_areas.len()
            invariant
                0 <= i <= boot_info.memory_areas@.len(),
                areas@ == boot_info.memory_areas@.take(i as int),
            decreases boot_info.memory_areas@.len() - i,
        {
            areas.push(boot_info.memory_areas[i]);
            proof {
                assert(areas@ =~= boot_info.memory_areas@.take(i + 1));
            }
            i += 1;
        }
        proof {
            assert(areas@ =~= boot_info.memory_areas@);
        }
        BootInfoFrameAllocator {
            areas,
            kernel_start,
            kernel_end,
            boot_start: boot_info.start_address,
            boot_end: boot_info.end_address,
            next: 0,
        }
    }

    /// The frames that the allocator for `boot_info` hands out over its
    /// lifetime are the usable frames of `boot_info`.
    pub proof fn lemma_initial_available(self, boot_info: BootMemoryDescriptor, frame: u64)
        requires
            self.is_initial(boot_info),
        ensures
            self.is_available(frame) == boot_info.is_usable_frame(frame),
            self.may_hand_out(frame) == boot_info.is_usable_frame(frame),
    {
        let sections = boot_info.elf_sections@;
        if sections.len() > 0 {
            let lo = choose|i: int|
                0 <= i < sections.len() && self.kernel_start() == (
                #[trigger] sections[i]).start_address;
            let hi = choose|i: int|
                0 <= i < sections.len() && (self.kernel_end() == (#[trigger] sections[i]).end() || (
                self.kernel_end() == u64::MAX && sections[i].end() > u64::MAX));
            if frame_overlaps(frame, self.kernel_start(), self.kernel_end()) && frame
                < 0x10_0000_0000_0000 {
                assert(sections[lo].start_address < frame + 4096);
                assert(frame < sections[hi].end());
                assert(boot_info.frame_in_image(frame));
            }
            if boot_info.frame_in_image(frame) {
                let i = choose|i: int|
                    0 <= i < sections.len()
                        && (#[trigger] sections[i]).start_address < frame + 4096;
                let j = choose|j: int|
                    0 <= j < sections.len() && frame < (#[trigger] sections[j]).end();
                assert(self.kernel_start() <= sections[i].start_address);
                assert(sections[j].end() <= self.kernel_end() || self.kernel_end() == u64::MAX);
                assert(frame_overlaps(frame, self.kernel_start(), self.kernel_end()) || frame
                    == u64::MAX);
            }
        }
        if self.is_available(frame) {
            let i = choose|i: int|
                0 <= i < self.areas().len() && self.available_in(frame, #[trigger] self.areas()[i]);
            assert(boot_info.memory_areas@[i].usable);
        }
        if boot_info.is_usable_frame(frame) {
            let i = choose|i: int|
                0 <= i < boot_info.memory_areas@.len() && (
                #[trigger] boot_info.memory_areas@[i]).usable
                    && boot_info.memory_areas@[i].start_address <= frame && frame + 4096
                    <= boot_info.memory_areas@[i].end();
            assert(self.available_in(frame, self.areas()[i]));
        }
    }

    /// Whether the allocator may still hand out `frame`.
    pub fn may_allocate(&self, frame: PhysFrame) -> (r: bool)
        ensures
            r == self.may_hand_out(frame@),
    {
        let addr: u64 = frame.as_u64();
        if addr < self.next || addr < FIRST_USABLE_ADDRESS {
            return false;
        }
        if addr < self.kernel_end && self.kernel_start < addr + PAGE_SIZE {
            return false;
        }
        if addr < self.boot_end && self.boot_start < addr + PAGE_SIZE {
            return false;
        }
        let mut i: usize = 0;
        while i < self.areas.len()
            invariant
                0 <= i <= self.areas@.len(),
                addr == frame@,
                is_frame_addr(addr),
                addr >= FIRST_USABLE_ADDRESS,
                addr >= self.cursor(),
                !frame_overlaps(addr, self.kernel_start(), self.kernel_end()),
                !frame_overlaps(addr, self.boot_start(), self.boot_end()),
                forall|k: int| 0 <= k < i ==> !frame_in_area(addr, #[trigger] self.areas()[k]),
            decreases self.areas@.len() - i,
        {
            let area: &MemoryArea = &self.areas[i];
            if area.usable && area.start_address <= addr && addr + PAGE_SIZE <= area.end_address() {
                assert(self.available_in(addr, self.areas()[i as int]));
                return true;
            }
            i += 1;
        }
        false
    }

    /// A frame that the allocator hands out within some calls is one that it
    /// may hand out before them, and none that it may hand out after them.
    pub proof fn lemma_handed_out(self, calls: nat, frame: u64)
        requires
            handed_out(self, calls, frame),
        ensures
            self.may_hand_out(frame),
            !after_allocations(self, calls).may_hand_out(frame),
    {
        let k = choose|k: nat|
            k < calls && (#[trigger] after_allocations(self, k)).next_frame() == Some(frame);
        let then = after_allocations(self, k);
        Self::lemma_ranges_kept(self, k);
        Self::lemma_cursor_monotone(self, k);
        then.lemma_after_allocation();
        lemma_after_allocations_split(self, k, (calls - k) as nat);
        let rest: nat = (calls - k - 1) as nat;
        assert(after_allocations(then, (calls - k) as nat) == after_allocations(
            then.after_allocation(),
            rest,
        ));
        Self::lemma_cursor_monotone(then.after_allocation(), rest);
        assert(self.is_available(frame)) by {
            let i = choose|i: int|
                0 <= i < then.areas().len() && then.available_in(frame, #[trigger] then.areas()[i]);
            assert(self.available_in(frame, self.areas()[i]));
        }
    }

    /// What the allocator may hand out after some calls, it may hand out
    /// before them.
    pub proof fn lemma_may_hand_out_before(self, calls: nat, frame: u64)
        requires
            after_allocations(self, calls).may_hand_out(frame),
        ensures
            self.may_hand_out(frame),
    {
        let then = after_allocations(self, calls);
        Self::lemma_ranges_kept(self, calls);
        Self::lemma_cursor_monotone(self, calls);
        let i = choose|i: int|
            0 <= i < then.areas().len() && then.available_in(frame, #[trigger] then.areas()[i]);
        assert(self.available_in(frame, self.areas()[i]));
    }

    /// An allocator that has run out of frames stays as it is.
    pub proof fn lemma_exhausted_stays(self, calls: nat)
        requires
            self.next_frame() is None,
        ensures
            after_allocations(self, calls) == self,
        decreases calls,
    {
        if calls > 0 {
            self.lemma_after_allocation();
            self.lemma_exhausted_stays((calls - 1) as nat);
        }
    }

    /// An allocator that has run out of frames within `bound` calls has none
    /// left after `bound` calls.
    pub proof fn lemma_spent_exhausted(before: Self, after: Self, bound: nat)
        requires
            spent(before, after, bound),
            after.next_frame() is None,
        ensures
            after_allocations(before, bound).next_frame() is None,
    {
        let n = choose|n: nat| n <= bound && after == #[trigger] after_allocations(before, n);
        lemma_after_allocations_split(before, n, (bound - n) as nat);
        after.lemma_exhausted_stays((bound - n) as nat);
    }

    /// The memory map and the reserved ranges stay as the allocator hands out
    /// frames.
    pub proof fn lemma_ranges_kept(allocator: Self, count: nat)
        ensures
            after_allocations(allocator, count).areas() == allocator.areas(),
            after_allocations(allocator, count).kernel_start() == allocator.kernel_start(),
            after_allocations(allocator, count).kernel_end() == allocator.kernel_end(),
            after_allocations(allocator, count).boot_start() == allocator.boot_start(),
            after_allocations(allocator, count).boot_end() == allocator.boot_end(),
        decreases count,
    {
        if count > 0 {
            allocator.lemma_after_allocation();
            Self::lemma_ranges_kept(allocator.after_allocation(), (count - 1) as nat);
        }
    }

    /// Moves `candidate` past `[start, end)` where its frame overlaps that
    /// range. `None` where no frame is left beyond the range.
    fn skip_reserved(candidate: u64, start: u64, end: u64) -> (r: Option<u64>)
        requires
            is_aligned(candidate),
            candidate <= PHYS_ADDR_LIMIT,
        ensures
            r is Some ==> is_aligned(r->Some_0) && candidate <= r->Some_0 <= PHYS_ADDR_LIMIT
                && !frame_overlaps(r->Some_0, start, end),
            r is Some ==> (r->Some_0 == candidate || r->Some_0 >= end),
            r is Some ==> forall|b: u64|
                is_aligned(b) && b >= candidate && !frame_overlaps(b, start, end) ==> b
                    >= r->Some_0,
            r is None ==> forall|b: u64|
                is_frame_addr(b) && b >= candidate ==> frame_overlaps(b, start, end),
    {
        if candidate < end && start < candidate + PAGE_SIZE {
            if end > PHYS_ADDR_LIMIT {
                None
            } else {
                Some(align_up(end))
            }
        } else {
            Some(candidate)
        }
    }

    /// The lowest frame at or above the cursor that may be handed out as far
    /// as `area` goes.
    fn first_in_area(&self, area: &MemoryArea) -> (r: Option<u64>)
        ensures
            r is Some ==> self.available_in(r->Some_0, *area) && r->Some_0 >= self.cursor(),
            r is Some ==> forall|b: u64|
                self.available_in(b, *area) && b >= self.cursor() ==> r->Some_0 <= b,
            r is None ==> forall|b: u64| !(self.available_in(b, *area) && b >= self.cursor()),
    {
        if !area.usable {
            return None;
        }
        let end: u64 = area.end_address();
        let mut start: u64 = self.next;
        if area.start_address > start {
            start = area.start_address;
        }
        if FIRST_USABLE_ADDRESS > start {
            start = FIRST_USABLE_ADDRESS;
        }
        if start >= PHYS_ADDR_LIMIT {
            return None;
        }
        let c0: u64 = align_up(start);
        let c1: u64 = match Self::skip_reserved(c0, self.kernel_start, self.kernel_end) {
            Some(c) => c,
            None => {
                return None;
            },
        };
        let c2: u64 = match Self::skip_reserved(c1, self.boot_start, self.boot_end) {
            Some(c) => c,
            None => {
                return None;
            },
        };
        let c3: u64 = match Self::skip_reserved(c2, self.kernel_start, self.kernel_end) {
            Some(c) => c,
            None => {
                return None;
            },
        };
        if c3 < PHYS_ADDR_LIMIT && c3 + PAGE_SIZE <= end {
            Some(c3)
        } else {
            None
        }
    }

    /// The frame that `allocate_frame` hands out next is the only one that
    /// `is_next` holds of.
    pub proof fn lemma_next_frame(self, addr: u64)
        requires
            self.is_next(addr),
        ensures
            self.next_frame() == Some(addr),
    {
        let chosen = choose|a: u64| self.is_next(a);
        assert(self.is_next(chosen));
        assert(chosen <= addr && addr <= chosen);
    }

    /// What a call of `allocate_frame` leaves of the allocator: the memory map
    /// and the reserved ranges stay, and the cursor moves past the frame that
    /// was handed out.
    pub proof fn lemma_after_allocation(self)
        ensures
            self.after_allocation().areas() == self.areas(),
            self.after_allocation().kernel_start() == self.kernel_start(),
            self.after_allocation().kernel_end() == self.kernel_end(),
            self.after_allocation().boot_start() == self.boot_start(),
            self.after_allocation().boot_end() == self.boot_end(),
            self.next_frame() is Some ==> self.after_allocation().cursor()
                == self.next_frame()->Some_0 + PAGE_SIZE,
            self.next_frame() is None ==> self.after_allocation() == self,
            self.next_frame() is Some ==> self.is_next(self.next_frame()->Some_0),
            self.next_frame() is None ==> forall|b: u64|
                !(self.is_available(b) && b >= self.cursor()),
    {
        if exists|a: u64| self.is_next(a) {
            let chosen = choose|a: u64| self.is_next(a);
            assert(self.is_next(chosen));
            assert(chosen + PAGE_SIZE <= PHYS_ADDR_LIMIT) by {
                assert(chosen % 4096 == 0 && chosen < 0x10_0000_0000_0000);
            }
        } else {
            self.lemma_none_available();
        }
    }

    /// Where no frame is next, none at or above the cursor is available.
    proof fn lemma_none_available(self)
        requires
            !exists|a: u64| self.is_next(a),
        ensures
            forall|b: u64| !(self.is_available(b) && b >= self.cursor()),
    {
        if exists|b: u64| self.is_available(b) && b >= self.cursor() {
            let b = choose|b: u64| self.is_available(b) && b >= self.cursor();
            self.lemma_least_exists(b, b as nat);
        }
    }

    /// Below any available frame at or above the cursor there is a least one.
    proof fn lemma_least_exists(self, b: u64, fuel: nat)
        requires
            self.is_available(b),
            b >= self.cursor(),
            fuel == b,
        ensures
            exists|a: u64| self.is_next(a),
        decreases fuel,
    {
        if forall|c: u64| self.is_available(c) && c >= self.cursor() ==> b <= c {
            assert(self.is_next(b));
        } else {
            let c = choose|c: u64| self.is_available(c) && c >= self.cursor() && c < b;
            self.lemma_least_exists(c, c as nat);
        }
    }

    /// The allocator never returns the same frame twice: of two frames that a
    /// sequence of calls hands out, the later one lies strictly above the
    /// earlier one.
    pub proof fn lemma_frames_never_repeat(self, earlier: nat, later: nat)
        requires
            earlier < later,
            after_allocations(self, earlier).next_frame() is Some,
            after_allocations(self, later).next_frame() is Some,
        ensures
            after_allocations(self, earlier).next_frame()->Some_0 < after_allocations(
                self,
                later,
            ).next_frame()->Some_0,
        decreases later,
    {
        let first = after_allocations(self, earlier);
        first.lemma_after_allocation();
        lemma_after_allocations_split(self, earlier, (later - earlier) as nat);
        let rest: nat = (later - earlier - 1) as nat;
        assert(after_allocations(first, (later - earlier) as nat) == after_allocations(
            first.after_allocation(),
            rest,
        ));
        Self::lemma_cursor_monotone(first.after_allocation(), rest);
        let last = after_allocations(self, later);
        last.lemma_after_allocation();
    }

    /// The cursor never moves down.
    pub proof fn lemma_cursor_monotone(allocator: Self, count: nat)
        ensures
            after_allocations(allocator, count).cursor() >= allocator.cursor(),
        decreases count,
    {
        if count > 0 {
            allocator.lemma_after_allocation();
            Self::lemma_cursor_monotone(allocator.after_allocation(), (count - 1) as nat);
        }
    }

    /// No frame that the allocator for `boot_info` ever hands out shares a
    /// byte with the kernel image, with any of its sections, or with the boot
    /// information: it is a usable frame of `boot_info`.
    pub proof fn lemma_frames_avoid_reserved(
        self,
        boot_info: BootMemoryDescriptor,
        calls: nat,
        frame: u64,
    )
        requires
            self.is_initial(boot_info),
            handed_out(self, calls, frame),
        ensures
            boot_info.is_usable_frame(frame),
            !boot_info.frame_in_image(frame),
            !boot_info.frame_in_boot_info(frame),
            forall|i: int|
                0 <= i < boot_info.elf_sections@.len() ==> {
                    let section = #[trigger] boot_info.elf_sections@[i];
                    !(frame < section.end() && section.start_address < frame + PAGE_SIZE)
                },
    {
        self.lemma_handed_out(calls, frame);
        self.lemma_initial_available(boot_info, frame);
    }
}

/// Whether the memory that `boot_info` describes holds more than `count`
/// frames that may be handed out: the allocator that `init` makes for it has
/// a frame left after `count` calls.
pub open spec fn memory_supplies(boot_info: BootMemoryDescriptor, count: nat) -> bool {
    forall|allocator: BootInfoFrameAllocator| #[trigger]
        allocator.is_initial(boot_info) ==> after_allocations(
            allocator,
            count,
        ).next_frame() is Some
}

impl FrameAllocator for BootInfoFrameAllocator {
    open spec fn next_frame(&self) -> Option<u64> {
        if exists|a: u64| self.is_next(a) {
            Some(choose|a: u64| self.is_next(a))
        } else {
            None
        }
    }

    closed spec fn after_allocation(&self) -> Self {
        match self.next_frame() {
            Some(addr) => BootInfoFrameAllocator {
                areas: self.areas,
                kernel_start: self.kernel_start,
                kernel_end: self.kernel_end,
                boot_start: self.boot_start,
                boot_end: self.boot_end,
                next: (addr + PAGE_SIZE) as u64,
            },
            None => *self,
        }
    }

    /// Returns the lowest available frame at or above the cursor and moves the
    /// cursor past it; `None`, with the allocator unchanged, when no such
    /// frame is left.
    fn allocate_frame(&mut self) -> (frame: Option<PhysFrame>)
        ensures
            frame is Some ==> old(self).is_next(frame->Some_0@),
            frame is None ==> forall|b: u64| !(old(self).is_available(b)
                && b >= old(self).cursor()),
    {
        let mut best: Option<u64> = None;
        let mut i: usize = 0;
        while i < self.areas.len()
            invariant
                0 <= i <= self.areas@.len(),
                *self == *old(self),
                best is Some ==> self.is_available(best->Some_0) && best->Some_0 >= self.cursor(),
                forall|k: int, b: u64|
                    0 <= k < i && b >= self.cursor()
                        && #[trigger] self.available_in(b, self.areas()[k])
                        ==> best is Some && best->Some_0 <= b,
            decreases self.areas@.len() - i,
        {
            let found: Option<u64> = self.first_in_area(&self.areas[i]);
            match found {
                Some(c) => {
                    let better: bool = match best {
                        Some(b) => c < b,
                        None => true,
                    };
                    if better {
                        best = Some(c);
                    }
                    assert(self.available_in(c, self.areas()[i as int]));
                },
                None => {},
            }
            i += 1;
        }
        match best {
            Some(addr) => {
                proof {
                    assert(self.is_next(addr));
                    self.lemma_next_frame(addr);
                    assert(addr % 4096 == 0 && addr < 0x10_0000_0000_0000);
                }
                self.next = addr + PAGE_SIZE;
                let frame: PhysFrame = PhysFrame::containing_address(PhysAddr::new(addr));
                Some(frame)
            },
            None => {
                proof {
                    assert(forall|b: u64| !(self.is_available(b) && b >= self.cursor()));
                    assert(!exists|a: u64| self.is_next(a));
                }
                None
            },
        }
    }
}

} // verus!
