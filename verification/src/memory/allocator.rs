//! Allocation of physical frames, and the region of the kernel heap.

use vstd::prelude::*;

pub mod allocator;
pub mod boot_info_frame_allocator;

verus! {

/// A source of unused physical frames.
///
/// An allocator is deterministic: what it hands out next, and what it is
/// afterwards, depend on its present value alone.
pub trait FrameAllocator: Sized {
    /// Start address of the frame that the next call of `allocate_frame`
    /// returns, if it returns one.
    spec fn next_frame(&self) -> Option<u64>;

    /// The allocator after the next call of `allocate_frame`.
    spec fn after_allocation(&self) -> Self;

    /// Hands out the next unused frame, or `None` when there is none left.
    fn allocate_frame(&mut self) -> (frame: Option<crate::memory::address::PhysFrame>)
        ensures
            frame is Some <==> old(self).next_frame() is Some,
            frame is Some ==> frame->Some_0@ == old(self).next_frame()->Some_0,
            *final(self) == old(self).after_allocation(),
    ;
}

/// The allocator after `count` calls of `allocate_frame`.
pub open spec fn after_allocations<A: FrameAllocator>(allocator: A, count: nat) -> A
    decreases count,
{
    if count == 0 {
        allocator
    } else {
        after_allocations(allocator.after_allocation(), (count - 1) as nat)
    }
}

/// Whether `frame` is among the frames that `allocator` hands out in its
/// next `calls` calls.
pub open spec fn handed_out<A: FrameAllocator>(allocator: A, calls: nat, frame: u64) -> bool {
    exists|k: nat|
        k < calls && (#[trigger] after_allocations(allocator, k)).next_frame() == Some(frame)
}

/// What is handed out in fewer calls is handed out in more.
pub proof fn lemma_handed_out_grows<A: FrameAllocator>(
    allocator: A,
    fewer: nat,
    more: nat,
    frame: u64,
)
    requires
        fewer <= more,
        handed_out(allocator, fewer, frame),
    ensures
        handed_out(allocator, more, frame),
{
    let k = choose|k: nat|
        k < fewer && (#[trigger] after_allocations(allocator, k)).next_frame() == Some(frame);
    assert(k < more && after_allocations(allocator, k).next_frame() == Some(frame));
}

/// What the allocator hands out after `first` calls, it hands out in
/// `first + count` calls.
pub proof fn lemma_handed_out_later<A: FrameAllocator>(
    allocator: A,
    first: nat,
    count: nat,
    frame: u64,
)
    requires
        handed_out(after_allocations(allocator, first), count, frame),
    ensures
        handed_out(allocator, first + count, frame),
{
    let k = choose|k: nat|
        k < count && #[trigger] after_allocations(
            after_allocations(allocator, first),
            k,
        ).next_frame() == Some(frame);
    lemma_after_allocations_split(allocator, first, k);
    assert(after_allocations(allocator, first + k).next_frame() == Some(frame));
}

/// Allocating `a + b` times is allocating `a` times and then `b` times.
pub proof fn lemma_after_allocations_split<A: FrameAllocator>(allocator: A, a: nat, b: nat)
    ensures
        after_allocations(allocator, a + b)
            == after_allocations(after_allocations(allocator, a), b),
    decreases a,
{
    if a > 0 {
        lemma_after_allocations_split(allocator.after_allocation(), (a - 1) as nat, b);
        assert(after_allocations(allocator, a + b) == after_allocations(
            allocator.after_allocation(),
            (a + b - 1) as nat,
        ));
    }
}

/// Allocating once more after `count` times is allocating `count + 1` times.
pub proof fn lemma_after_allocations_next<A: FrameAllocator>(allocator: A, count: nat)
    ensures
        after_allocations(allocator, count + 1) == after_allocations(
            allocator,
            count,
        ).after_allocation(),
{
    lemma_after_allocations_split(allocator, count, 1);
    reveal_with_fuel(after_allocations, 2);
}

/// Whether `after` is what at most `bound` calls of `allocate_frame` leave
/// of `before`.
pub open spec fn spent<A: FrameAllocator>(before: A, after: A, bound: nat) -> bool {
    exists|n: nat| n <= bound && after == #[trigger] after_allocations(before, n)
}

/// Exactly `calls` calls are at most `bound` calls where `calls` is no more
/// than `bound`.
pub proof fn lemma_spent_exactly<A: FrameAllocator>(before: A, calls: nat, bound: nat)
    requires
        calls <= bound,
    ensures
        spent(before, after_allocations(before, calls), bound),
{
}

/// At most `first` calls and then at most `second` calls are at most
/// `first + second` calls.
pub proof fn lemma_spent_in_turn<A: FrameAllocator>(
    before: A,
    between: A,
    after: A,
    first: nat,
    second: nat,
)
    requires
        spent(before, between, first),
        spent(between, after, second),
    ensures
        spent(before, after, first + second),
{
    let m = choose|n: nat| n <= first && between == #[trigger] after_allocations(before, n);
    let n = choose|n: nat| n <= second && after == #[trigger] after_allocations(between, n);
    lemma_after_allocations_split(before, m, n);
    assert(after == after_allocations(before, m + n));
}

} // verus!
