//! Physical frames, address translation and the kernel heap region.

use vstd::prelude::*;

pub mod address;
pub mod allocator;
pub mod boot_info;
pub mod paging;

verus! {

/// Why an operation of the memory subsystem was refused.
#[derive(Clone, Copy, PartialEq, Eq, Structural, Debug)]
pub enum MemoryError {
    /// The frame allocator has no more usable frames.
    Exhaustion,
    /// The page is already mapped; nothing was overwritten.
    AlreadyMapped,
    /// The page is not mapped.
    NotMapped,
    /// An address that must start a frame or a page is not 4 KiB aligned,
    /// or is not a valid address at all.
    AlignmentViolation,
    /// The temporary page window was borrowed while already in use, a page of
    /// the reserved recursive region was named, or a frame that already holds
    /// a table was handed in as unused.
    UsageViolation,
}

} // verus!
