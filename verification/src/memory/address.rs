//! Validated addresses, frames, pages, table indices and entry flags.

use vstd::prelude::*;

verus! {

/// Size of a page and of a frame in bytes.
pub const PAGE_SIZE: u64 = 4096;

/// One past the largest physical address (52 address bits).
pub const PHYS_ADDR_LIMIT: u64 = 0x10_0000_0000_0000;

/// One past the last address of the lower canonical half.
pub const LOWER_HALF_END: u64 = 0x8000_0000_0000;

/// First address of the upper canonical half.
pub const UPPER_HALF_START: u64 = 0xffff_8000_0000_0000;

/// Bits of a table entry that hold the frame address.
pub const ENTRY_ADDR_MASK: u64 = 0x000f_ffff_ffff_f000;

/// A physical address is valid when bits 52 to 63 are zero.
pub open spec fn is_phys_addr(addr: u64) -> bool {
    addr < PHYS_ADDR_LIMIT
}

/// A virtual address is canonical when bits 48 to 63 repeat bit 47.
pub open spec fn is_canonical(addr: u64) -> bool {
    addr < LOWER_HALF_END || addr >= UPPER_HALF_START
}

/// Whether `addr` is a multiple of the page size.
pub open spec fn is_aligned(addr: u64) -> bool {
    addr % PAGE_SIZE == 0
}

/// The greatest aligned address that is not above `addr`.
pub open spec fn align_down(addr: u64) -> u64 {
    (addr - addr % PAGE_SIZE) as u64
}

/// Start address of a frame: aligned and a valid physical address.
pub open spec fn is_frame_addr(addr: u64) -> bool {
    is_aligned(addr) && is_phys_addr(addr)
}

/// Start address of a page: aligned and canonical.
pub open spec fn is_page_addr(addr: u64) -> bool {
    is_aligned(addr) && is_canonical(addr)
}

/// Index into the level 1 table (bits 12 to 20).
pub open spec fn p1_index_of(addr: u64) -> int {
    ((addr / 0x1000) % 512) as int
}

/// Index into the level 2 table (bits 21 to 29).
pub open spec fn p2_index_of(addr: u64) -> int {
    ((addr / 0x20_0000) % 512) as int
}

/// Index into the level 3 table (bits 30 to 38).
pub open spec fn p3_index_of(addr: u64) -> int {
    ((addr / 0x4000_0000) % 512) as int
}

/// Index into the level 4 table (bits 39 to 47).
pub open spec fn p4_index_of(addr: u64) -> int {
    ((addr / 0x80_0000_0000) % 512) as int
}

/// Flag bits are valid when none of them lies in the address field.
pub open spec fn is_flag_bits(bits: u64) -> bool {
    bits & ENTRY_ADDR_MASK == 0
}

/// Two page addresses with the same four table indices are the same page.
pub proof fn lemma_indices_determine_page(a: u64, b: u64)
    requires
        is_page_addr(a),
        is_page_addr(b),
        p1_index_of(a) == p1_index_of(b),
        p2_index_of(a) == p2_index_of(b),
        p3_index_of(a) == p3_index_of(b),
        p4_index_of(a) == p4_index_of(b),
    ensures
        a == b,
{
    assert((a % 4096 == 0 && b % 4096 == 0 && (a < 0x8000_0000_0000 || a >= 0xffff_8000_0000_0000)
        && (b < 0x8000_0000_0000 || b >= 0xffff_8000_0000_0000) && (a / 0x1000) % 512 == (b
        / 0x1000) % 512 && (a / 0x20_0000) % 512 == (b / 0x20_0000) % 512 && (a / 0x4000_0000)
        % 512 == (b / 0x4000_0000) % 512 && (a / 0x80_0000_0000) % 512 == (b / 0x80_0000_0000)
        % 512) ==> a == b) by (bit_vector);
}

/// A physical address: below 2^52.
#[derive(Clone, Copy, PartialEq, Eq, Structural, Debug)]
pub struct PhysAddr {
    addr: u64,
}

impl View for PhysAddr {
    type V = u64;

    closed spec fn view(&self) -> u64 {
        self.addr
    }
}

impl PhysAddr {
    /// What holds of every value of the type.
    #[verifier::type_invariant]
    pub open spec fn inv(self) -> bool {
        is_phys_addr(self@)
    }

    /// Two physical addresses are equal exactly when their values are.
    pub proof fn lemma_view_injective(self, other: PhysAddr)
        ensures
            self@ == other@ <==> self == other,
    {
    }

    /// The address `addr`, which must be a valid physical address.
    pub fn new(addr: u64) -> (r: PhysAddr)
        requires
            is_phys_addr(addr),
        ensures
            r@ == addr,
    {
        PhysAddr { addr }
    }

    /// The address `addr`, if it is a valid physical address.
    pub fn try_new(addr: u64) -> (r: Option<PhysAddr>)
        ensures
            r is Some <==> is_phys_addr(addr),
            r is Some ==> r->Some_0@ == addr,
    {
        if addr < PHYS_ADDR_LIMIT {
            Some(PhysAddr { addr })
        } else {
            None
        }
    }

    /// The address as a number.
    pub fn as_u64(self) -> (r: u64)
        ensures
            r == self@,
            is_phys_addr(r),
    {
        proof {
            use_type_invariant(&self);
        }
        self.addr
    }

    /// Whether the address is a multiple of the page size.
    pub fn is_aligned(self) -> (r: bool)
        ensures
            r == is_aligned(self@),
    {
        self.addr % PAGE_SIZE == 0
    }
}

/// A canonical virtual address.
#[derive(Clone, Copy, PartialEq, Eq, Structural, Debug)]
pub struct VirtAddr {
    addr: u64,
}

impl View for VirtAddr {
    type V = u64;

    closed spec fn view(&self) -> u64 {
        self.addr
    }
}

impl VirtAddr {
    /// What holds of every value of the type.
    #[verifier::type_invariant]
    pub open spec fn inv(self) -> bool {
        is_canonical(self@)
    }

    /// Two virtual addresses are equal exactly when their values are.
    pub proof fn lemma_view_injective(self, other: VirtAddr)
        ensures
            self@ == other@ <==> self == other,
    {
    }

    /// The address `addr`, which must be canonical.
    pub fn new(addr: u64) -> (r: VirtAddr)
        requires
            is_canonical(addr),
        ensures
            r@ == addr,
    {
        VirtAddr { addr }
    }

    /// The address `addr`, if it is canonical.
    pub fn try_new(addr: u64) -> (r: Option<VirtAddr>)
        ensures
            r is Some <==> is_canonical(addr),
            r is Some ==> r->Some_0@ == addr,
    {
        if addr < LOWER_HALF_END || addr >= UPPER_HALF_START {
            Some(VirtAddr { addr })
        } else {
            None
        }
    }

    /// The address as a number.
    pub fn as_u64(self) -> (r: u64)
        ensures
            r == self@,
            is_canonical(r),
    {
        proof {
            use_type_invariant(&self);
        }
        self.addr
    }

    /// Whether the address is a multiple of the page size.
    pub fn is_aligned(self) -> (r: bool)
        ensures
            r == is_aligned(self@),
    {
        self.addr % PAGE_SIZE == 0
    }

    /// Offset of the address inside its page.
    pub fn page_offset(self) -> (r: u64)
        ensures
            r == self@ % PAGE_SIZE,
    {
        self.addr % PAGE_SIZE
    }
}

/// An index into a translation table: always below 512.
#[derive(Clone, Copy, PartialEq, Eq, Structural, Debug)]
pub struct PageTableIndex {
    index: u16,
}

impl View for PageTableIndex {
    type V = int;

    closed spec fn view(&self) -> int {
        self.index as int
    }
}

impl PageTableIndex {
    /// What holds of every value of the type.
    #[verifier::type_invariant]
    pub open spec fn inv(self) -> bool {
        0 <= self@ < 512
    }

    /// The index `index`, which must be below 512.
    pub fn new(index: u16) -> (r: PageTableIndex)
        requires
            index < 512,
        ensures
            r@ == index,
    {
        PageTableIndex { index }
    }

    /// The index `index % 512`.
    pub fn new_truncate(index: u16) -> (r: PageTableIndex)
        ensures
            r@ == index % 512,
    {
        PageTableIndex { index: index % 512 }
    }

    /// The index as a number.
    pub fn as_usize(self) -> (r: usize)
        ensures
            r == self@,
            r < 512,
    {
        proof {
            use_type_invariant(&self);
        }
        self.index as usize
    }
}

/// Returned where an address had to be 4 KiB aligned and is not.
#[derive(Clone, Copy, PartialEq, Eq, Structural, Debug)]
pub struct AddressNotAligned;

/// A 4 KiB frame of physical memory, named by its start address.
#[derive(Clone, Copy, PartialEq, Eq, Structural, Debug)]
pub struct PhysFrame {
    start: u64,
}

impl View for PhysFrame {
    type V = u64;

    closed spec fn view(&self) -> u64 {
        self.start
    }
}

impl PhysFrame {
    /// What holds of every value of the type.
    #[verifier::type_invariant]
    pub open spec fn inv(self) -> bool {
        is_frame_addr(self@)
    }

    /// Two frames are equal exactly when their start addresses are.
    pub proof fn lemma_view_injective(self, other: PhysFrame)
        ensures
            self@ == other@ <==> self == other,
    {
    }

    /// The frame that starts at `addr`, which must be the start address of a
    /// frame.
    pub fn new(addr: u64) -> (r: PhysFrame)
        requires
            is_frame_addr(addr),
        ensures
            r@ == addr,
    {
        PhysFrame { start: addr }
    }

    /// The frame that starts at `address`, or an error if it is not aligned.
    pub fn from_start_address(address: PhysAddr) -> (r: Result<PhysFrame, AddressNotAligned>)
        ensures
            r is Ok <==> is_aligned(address@),
            r is Ok ==> r->Ok_0@ == address@,
    {
        let addr: u64 = address.as_u64();
        if addr % PAGE_SIZE == 0 {
            Ok(PhysFrame { start: addr })
        } else {
            Err(AddressNotAligned)
        }
    }

    /// The frame that contains `address`.
    pub fn containing_address(address: PhysAddr) -> (r: PhysFrame)
        ensures
            r@ == align_down(address@),
            r@ <= address@ < r@ + PAGE_SIZE,
    {
        let addr: u64 = address.as_u64();
        PhysFrame { start: addr - addr % PAGE_SIZE }
    }

    /// The address at which the frame starts.
    pub fn start_address(self) -> (r: PhysAddr)
        ensures
            r@ == self@,
            is_frame_addr(self@),
    {
        proof {
            use_type_invariant(&self);
        }
        PhysAddr::new(self.start)
    }

    /// The start address as a plain number.
    pub fn as_u64(self) -> (r: u64)
        ensures
            r == self@,
            is_frame_addr(r),
    {
        proof {
            use_type_invariant(&self);
        }
        self.start
    }
}

/// A 4 KiB page of virtual memory, named by its start address.
#[derive(Clone, Copy, PartialEq, Eq, Structural, Debug)]
pub struct Page {
    start: u64,
}

impl View for Page {
    type V = u64;

    closed spec fn view(&self) -> u64 {
        self.start
    }
}

impl Page {
    /// What holds of every value of the type.
    #[verifier::type_invariant]
    pub open spec fn inv(self) -> bool {
        is_page_addr(self@)
    }

    /// Two pages are equal exactly when their start addresses are.
    pub proof fn lemma_view_injective(self, other: Page)
        ensures
            self@ == other@ <==> self == other,
    {
    }

    /// The page that starts at `addr`, which must be the start address of a
    /// page.
    pub fn new(addr: u64) -> (r: Page)
        requires
            is_page_addr(addr),
        ensures
            r@ == addr,
    {
        Page { start: addr }
    }

    /// The page that starts at `address`, or an error if it is not aligned.
    pub fn from_start_address(address: VirtAddr) -> (r: Result<Page, AddressNotAligned>)
        ensures
            r is Ok <==> is_aligned(address@),
            r is Ok ==> r->Ok_0@ == address@,
    {
        let addr: u64 = address.as_u64();
        if addr % PAGE_SIZE == 0 {
            Ok(Page { start: addr })
        } else {
            Err(AddressNotAligned)
        }
    }

    /// The page that contains `address`.
    pub fn containing_address(address: VirtAddr) -> (r: Page)
        ensures
            r@ == align_down(address@),
            r@ <= address@ < r@ + PAGE_SIZE,
    {
        let addr: u64 = address.as_u64();
        Page { start: addr - addr % PAGE_SIZE }
    }

    /// The address at which the page starts.
    pub fn start_address(self) -> (r: VirtAddr)
        ensures
            r@ == self@,
            is_page_addr(self@),
    {
        proof {
            use_type_invariant(&self);
        }
        VirtAddr::new(self.start)
    }

    /// The start address as a plain number.
    pub fn as_u64(self) -> (r: u64)
        ensures
            r == self@,
            is_page_addr(r),
    {
        proof {
            use_type_invariant(&self);
        }
        self.start
    }

    /// The index of the page's entry in its level 1 table.
    pub fn p1_index(self) -> (r: PageTableIndex)
        ensures
            r@ == p1_index_of(self@),
    {
        PageTableIndex::new(((self.start / 0x1000) % 512) as u16)
    }

    /// The index of the page's entry in its level 2 table.
    pub fn p2_index(self) -> (r: PageTableIndex)
        ensures
            r@ == p2_index_of(self@),
    {
        PageTableIndex::new(((self.start / 0x20_0000) % 512) as u16)
    }

    /// The index of the page's entry in its level 3 table.
    pub fn p3_index(self) -> (r: PageTableIndex)
        ensures
            r@ == p3_index_of(self@),
    {
        PageTableIndex::new(((self.start / 0x4000_0000) % 512) as u16)
    }

    /// The index of the page's entry in its level 4 table.
    pub fn p4_index(self) -> (r: PageTableIndex)
        ensures
            r@ == p4_index_of(self@),
    {
        PageTableIndex::new(((self.start / 0x80_0000_0000) % 512) as u16)
    }
}

/// Flags of a table entry: any bits outside the address field.
#[derive(Clone, Copy, PartialEq, Eq, Structural, Debug)]
pub struct PageTableFlags {
    bits: u64,
}

impl View for PageTableFlags {
    type V = u64;

    closed spec fn view(&self) -> u64 {
        self.bits
    }
}

impl PageTableFlags {
    /// The mapped frame or table is loaded in memory.
    pub const PRESENT: u64 = 1;

    /// Writes to the mapped frame are allowed.
    pub const WRITABLE: u64 = 2;

    /// Accesses from user mode are allowed.
    pub const USER_ACCESSIBLE: u64 = 4;

    /// The entry maps a huge frame instead of a table.
    pub const HUGE_PAGE: u64 = 0x80;

    /// Code may not be executed from the mapped frame.
    pub const NO_EXECUTE: u64 = 0x8000_0000_0000_0000;

    /// What holds of every value of the type.
    #[verifier::type_invariant]
    pub open spec fn inv(self) -> bool {
        is_flag_bits(self@)
    }

    /// Two flag sets are equal exactly when their bits are.
    pub proof fn lemma_view_injective(self, other: PageTableFlags)
        ensures
            self@ == other@ <==> self == other,
    {
    }

    /// No flag at all.
    pub fn empty() -> (r: PageTableFlags)
        ensures
            r@ == 0,
    {
        assert(0u64 & ENTRY_ADDR_MASK == 0) by (bit_vector);
        PageTableFlags { bits: 0 }
    }

    /// The flags in `bits`, if none of them lies in the address field.
    pub fn from_bits(bits: u64) -> (r: Option<PageTableFlags>)
        ensures
            r is Some <==> is_flag_bits(bits),
            r is Some ==> r->Some_0@ == bits,
    {
        if bits & ENTRY_ADDR_MASK == 0 {
            Some(PageTableFlags { bits })
        } else {
            None
        }
    }

    /// The flags in `bits`, without the bits of the address field.
    pub fn from_bits_truncate(bits: u64) -> (r: PageTableFlags)
        ensures
            r@ == bits & !ENTRY_ADDR_MASK,
            is_flag_bits(bits) ==> r@ == bits,
    {
        let kept: u64 = bits & !ENTRY_ADDR_MASK;
        assert((bits & !ENTRY_ADDR_MASK) & ENTRY_ADDR_MASK == 0) by (bit_vector);
        assert(bits & ENTRY_ADDR_MASK == 0 ==> bits & !ENTRY_ADDR_MASK == bits) by (bit_vector);
        PageTableFlags { bits: kept }
    }

    /// Present and writable: the flags of every entry that this crate writes
    /// for a table, and of the kernel's own mappings.
    pub fn present_writable() -> (r: PageTableFlags)
        ensures
            r@ == 3,
    {
        assert(3u64 & ENTRY_ADDR_MASK == 0) by (bit_vector);
        PageTableFlags { bits: 3 }
    }

    /// The flags as bits.
    pub fn bits(self) -> (r: u64)
        ensures
            r == self@,
            is_flag_bits(r),
    {
        proof {
            use_type_invariant(&self);
        }
        self.bits
    }

    /// Whether every flag of `other` is set in `self`.
    pub fn contains(self, other: PageTableFlags) -> (r: bool)
        ensures
            r == (self@ & other@ == other@),
    {
        self.bits & other.bits == other.bits
    }

    /// The flags of `self` together with those of `other`.
    pub fn union(self, other: PageTableFlags) -> (r: PageTableFlags)
        ensures
            r@ == self@ | other@,
    {
        proof {
            use_type_invariant(&self);
            use_type_invariant(&other);
        }
        let a: u64 = self.bits;
        let b: u64 = other.bits;
        assert(a & ENTRY_ADDR_MASK == 0 && b & ENTRY_ADDR_MASK == 0 ==> (a | b) & ENTRY_ADDR_MASK
            == 0) by (bit_vector);
        PageTableFlags { bits: a | b }
    }
}

} // verus!
