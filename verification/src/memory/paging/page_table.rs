//! Physical memory as far as it holds translation tables.
//!
//! A table is an `x86_64::structures::paging::PageTable`: 512 entries, each a
//! frame address together with flags. The functions of this file that touch
//! one are the only code of the crate that is not verified; their contracts
//! say what the `x86_64` crate's source shows.

use vstd::prelude::*;
use x86_64::structures::paging::PageTable;
use x86_64::structures::paging::PageTableFlags;
use x86_64::PhysAddr;
use crate::memory::address::{is_flag_bits, is_frame_addr};

verus! {

/// `x86_64::structures::paging::PageTable`: a table of 512 entries. Nothing
/// is known of a table but what the functions below say.
#[verifier::external_type_specification]
#[verifier::external_body]
pub struct ExPageTable(PageTable);

/// The entries of a table, each as the pair of its frame address and its
/// flag bits.
pub uninterp spec fn table_entries(table: &PageTable) -> Seq<(u64, u64)>;

/// A table entry that is zero: it refers to nothing.
pub open spec fn unused_entry() -> (u64, u64) {
    (0u64, 0u64)
}

/// Whether an entry refers to a frame or a table.
pub open spec fn entry_used(entry: (u64, u64)) -> bool {
    entry.0 != 0 || entry.1 != 0
}

/// The entries of a table that refers to nothing.
pub open spec fn empty_table() -> Seq<(u64, u64)> {
    Seq::new(512, |i: int| unused_entry())
}

/// `PageTable::new`: a table of 512 entries that are all zero.
#[verifier::external_body]
fn new_table() -> (table: PageTable)
    ensures
        table_entries(&table) == empty_table(),
{
    PageTable::new()
}

/// Indexing a `PageTable`, then `PageTableEntry::addr` and
/// `PageTableEntry::flags`: the entry's address field (bits 12 to 51, so an
/// aligned physical address) and the rest of its bits.
#[verifier::external_body]
fn read_entry(table: &PageTable, index: usize) -> (entry: (u64, u64))
    requires
        index < 512,
    ensures
        entry == table_entries(table)[index as int],
        is_frame_addr(entry.0),
        is_flag_bits(entry.1),
{
    let entry = &table[index];
    (entry.addr().as_u64(), entry.flags().bits())
}

/// Indexing a `PageTable`, then `PageTableEntry::set_addr` with the values of
/// `PhysAddr::new` and `PageTableFlags::from_bits_retain`: the entry becomes
/// the given address together with the given flag bits, the other entries
/// stay. `PhysAddr::new` takes an address of at most 52 bits, `set_addr` an
/// aligned one.
#[verifier::external_body]
fn write_entry(table: &mut PageTable, index: usize, addr: u64, flags: u64)
    requires
        index < 512,
        is_frame_addr(addr),
        is_flag_bits(flags),
    ensures
        table_entries(final(table))
            == table_entries(old(table)).update(index as int, (addr, flags)),
{
    table[index].set_addr(PhysAddr::new(addr), PageTableFlags::from_bits_retain(flags));
}

/// Indexing a `PageTable`, then `PageTableEntry::set_unused`: the entry
/// becomes zero, the other entries stay.
#[verifier::external_body]
fn clear_entry(table: &mut PageTable, index: usize)
    requires
        index < 512,
    ensures
        table_entries(final(table))
            == table_entries(old(table)).update(index as int, unused_entry()),
{
    table[index].set_unused();
}

/// A frame together with the table that it holds.
pub struct TableSlot {
    frame: u64,
    table: PageTable,
}

/// The frames of physical memory that hold a translation table, each with
/// its table.
pub struct TableMemory {
    slots: Vec<TableSlot>,
}

impl TableMemory {
    /// Whether some slot holds the table of `frame`.
    pub closed spec fn holds(&self, frame: u64) -> bool {
        exists|i: int| 0 <= i < self.slots@.len() && (#[trigger] self.slots@[i]).frame == frame
    }

    closed spec fn slot_of(&self, frame: u64) -> int {
        choose|i: int| 0 <= i < self.slots@.len() && (#[trigger] self.slots@[i]).frame == frame
    }

    /// The tables by the start address of their frame.
    pub closed spec fn view(&self) -> Map<u64, Seq<(u64, u64)>> {
        Map::new(
            |frame: u64| self.holds(frame),
            |frame: u64| table_entries(&self.slots@[self.slot_of(frame)].table),
        )
    }

    /// No frame occurs twice, and every table has 512 entries.
    pub closed spec fn wf(&self) -> bool {
        &&& forall|i: int, j: int|
            0 <= i < self.slots@.len() && 0 <= j < self.slots@.len() && (
            #[trigger] self.slots@[i]).frame == (#[trigger] self.slots@[j]).frame ==> i == j
        &&& forall|i: int|
            0 <= i < self.slots@.len() ==> table_entries(&(#[trigger] self.slots@[i]).table).len()
                == 512
    }

    /// Every table of a well-formed memory has 512 entries.
    pub proof fn lemma_table_len(&self, frame: u64)
        requires
            self.wf(),
            self@.dom().contains(frame),
        ensures
            self@[frame].len() == 512,
    {
    }

    proof fn lemma_slot(&self, i: int)
        requires
            self.wf(),
            0 <= i < self.slots@.len(),
        ensures
            self.holds(self.slots@[i].frame),
            self.slot_of(self.slots@[i].frame) == i,
            self@.dom().contains(self.slots@[i].frame),
            self@[self.slots@[i].frame] == table_entries(&self.slots@[i].table),
    {
    }

    /// A memory that holds no table.
    pub fn new() -> (r: Self)
        ensures
            r.wf(),
            r@ == Map::<u64, Seq<(u64, u64)>>::empty(),
    {
        let r = TableMemory { slots: Vec::new() };
        assert(r@ =~= Map::<u64, Seq<(u64, u64)>>::empty());
        r
    }

    fn find(&self, frame: u64) -> (r: Option<usize>)
        requires
            self.wf(),
        ensures
            r is Some <==> self@.dom().contains(frame),
            r is Some ==> r->Some_0 < self.slots@.len() && self.slots@[r->Some_0 as int].frame
                == frame,
    {
        let mut i: usize = 0;
        while i < self.slots.len()
            invariant
                0 <= i <= self.slots@.len(),
                forall|k: int| 0 <= k < i ==> (#[trigger] self.slots@[k]).frame != frame,
            decreases self.slots@.len() - i,
        {
            if self.slots[i].frame == frame {
                return Some(i);
            }
            i += 1;
        }
        None
    }

    /// Whether `frame` holds a table.
    pub fn contains(&self, frame: u64) -> (r: bool)
        requires
            self.wf(),
        ensures
            r == self@.dom().contains(frame),
    {
        self.find(frame).is_some()
    }

    /// The frames that hold a table, each once, in the order in which they
    /// came into use.
    pub fn frames(&self) -> (r: Vec<u64>)
        requires
            self.wf(),
        ensures
            forall|frame: u64| self@.dom().contains(frame) <==> r@.contains(frame),
            r@.no_duplicates(),
    {
        let mut frames: Vec<u64> = Vec::new();
        let mut i: usize = 0;
        while i < self.slots.len()
            invariant
                0 <= i <= self.slots@.len(),
                frames@.len() == i,
                forall|k: int| 0 <= k < i ==> frames@[k] == (#[trigger] self.slots@[k]).frame,
            decreases self.slots@.len() - i,
        {
            frames.push(self.slots[i].frame);
            i += 1;
        }
        proof {
            assert forall|frame: u64| self@.dom().contains(frame) <==> frames@.contains(frame) by {
                if self.holds(frame) {
                    let k = self.slot_of(frame);
                    assert(frames@[k] == frame);
                }
                if frames@.contains(frame) {
                    let k = choose|k: int| 0 <= k < frames@.len() && frames@[k] == frame;
                    assert(self.slots@[k].frame == frame);
                }
            }
            assert forall|a: int, b: int|
                0 <= a < frames@.len() && 0 <= b < frames@.len() && a != b implies frames@[a]
                != frames@[b] by {
                assert(self.slots@[a].frame == frames@[a]);
                assert(self.slots@[b].frame == frames@[b]);
            }
        }
        frames
    }

    /// The entry `index` of the table in `frame`.
    pub fn read(&self, frame: u64, index: usize) -> (entry: (u64, u64))
        requires
            self.wf(),
            self@.dom().contains(frame),
            index < 512,
        ensures
            entry == self@[frame][index as int],
            is_frame_addr(entry.0),
            is_flag_bits(entry.1),
    {
        let slot: usize = self.find(frame).unwrap();
        proof {
            self.lemma_slot(slot as int);
        }
        read_entry(&self.slots[slot].table, index)
    }

    /// Sets the entry `index` of the table in `frame` to `addr` with `flags`.
    pub fn write(&mut self, frame: u64, index: usize, addr: u64, flags: u64)
        requires
            old(self).wf(),
            old(self)@.dom().contains(frame),
            index < 512,
            is_frame_addr(addr),
            is_flag_bits(flags),
        ensures
            final(self).wf(),
            final(self)@ == old(self)@.insert(
                frame,
                old(self)@[frame].update(index as int, (addr, flags)),
            ),
    {
        let slot: usize = self.find(frame).unwrap();
        proof {
            self.lemma_slot(slot as int);
        }
        write_entry(&mut self.slots[slot].table, index, addr, flags);
        proof {
            self.lemma_changed_slot(*old(self), slot as int);
        }
    }

    /// Sets the entry `index` of the table in `frame` to zero.
    pub fn clear(&mut self, frame: u64, index: usize)
        requires
            old(self).wf(),
            old(self)@.dom().contains(frame),
            index < 512,
        ensures
            final(self).wf(),
            final(self)@ == old(self)@.insert(
                frame,
                old(self)@[frame].update(index as int, unused_entry()),
            ),
    {
        let slot: usize = self.find(frame).unwrap();
        proof {
            self.lemma_slot(slot as int);
        }
        clear_entry(&mut self.slots[slot].table, index);
        proof {
            self.lemma_changed_slot(*old(self), slot as int);
        }
    }

    /// What a change of the table in one slot does to the view.
    proof fn lemma_changed_slot(&self, before: Self, slot: int)
        requires
            before.wf(),
            0 <= slot < before.slots@.len(),
            self.slots@.len() == before.slots@.len(),
            forall|i: int|
                0 <= i < self.slots@.len() ==> (#[trigger] self.slots@[i]).frame
                    == before.slots@[i].frame,
            forall|i: int|
                0 <= i < self.slots@.len() && i != slot ==> (#[trigger] self.slots@[i])
                    == before.slots@[i],
            table_entries(&self.slots@[slot].table).len() == 512,
        ensures
            self.wf(),
            self@ == before@.insert(
                before.slots@[slot].frame,
                table_entries(&self.slots@[slot].table),
            ),
    {
        assert(self.wf());
        let target = before@.insert(
            before.slots@[slot].frame,
            table_entries(&self.slots@[slot].table),
        );
        assert forall|frame: u64| self@.dom().contains(frame) == target.dom().contains(frame) by {
            if self.holds(frame) {
                let i = self.slot_of(frame);
                assert(before.slots@[i].frame == frame);
            }
            if before.holds(frame) {
                let i = before.slot_of(frame);
                assert(self.slots@[i].frame == frame);
            }
        }
        assert forall|frame: u64| self@.dom().contains(frame) implies self@[frame]
            == target[frame] by {
            let i = self.slot_of(frame);
            self.lemma_slot(i);
            assert(before.slots@[i].frame == frame);
            before.lemma_slot(i);
        }
        assert(self@ =~= target);
    }

    /// Takes `frame` into use for a table whose entries are all zero. The
    /// frame must not hold a table yet.
    pub fn install_empty(&mut self, frame: u64)
        requires
            old(self).wf(),
            !old(self)@.dom().contains(frame),
        ensures
            final(self).wf(),
            final(self)@ == old(self)@.insert(frame, empty_table()),
    {
        let table: PageTable = new_table();
        self.slots.push(TableSlot { frame, table });
        proof {
            let target = old(self)@.insert(frame, empty_table());
            let last: int = old(self).slots@.len() as int;
            assert(self.slots@[last].frame == frame);
            assert(forall|i: int| 0 <= i < last ==> self.slots@[i] == old(self).slots@[i]);
            assert(self.wf());
            assert forall|f: u64| self@.dom().contains(f) == target.dom().contains(f) by {
                if self.holds(f) {
                    let i = self.slot_of(f);
                    if i < last {
                        assert(old(self).slots@[i].frame == f);
                    }
                }
                if old(self).holds(f) {
                    let i = old(self).slot_of(f);
                    assert(self.slots@[i].frame == f);
                }
            }
            assert forall|f: u64| self@.dom().contains(f) implies self@[f] == target[f] by {
                let i = self.slot_of(f);
                self.lemma_slot(i);
                if i < last {
                    assert(old(self).slots@[i].frame == f);
                    old(self).lemma_slot(i);
                }
            }
            assert(self@ =~= target);
        }
    }
}

} // verus!
