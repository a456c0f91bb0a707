use super::types::OrderEntry;
use vstd::prelude::*;

verus! {

/// Default number of slots of an arena.
pub const DEFAULT_ARENA_CAPACITY: usize = 1_000_000;

/// Fixed-capacity, append-only store of order entries. Slots are handed out
/// in order and never move or get reused until `clear`.
pub struct OrderArena {
    entries: Vec<OrderEntry>,
    cap: usize,
}

impl View for OrderArena {
    type V = Seq<OrderEntry>;

    closed spec fn view(&self) -> Seq<OrderEntry> {
        self.entries@
    }
}

impl OrderArena {
    /// The number of slots the arena can hand out in all.
    pub closed spec fn spec_capacity(&self) -> nat {
        self.cap as nat
    }

    /// The allocated slots never exceed the capacity.
    pub closed spec fn wf(&self) -> bool {
        self.entries.len() <= self.cap
    }

    /// The allocated slots fit in the capacity, which fits in a `usize`.
    pub proof fn lemma_bounds(&self)
        requires
            self.wf(),
        ensures
            self@.len() <= self.spec_capacity() <= usize::MAX,
    {
    }

    /// An empty arena with room for `capacity` entries.
    pub fn new(capacity: usize) -> (r: Self)
        ensures
            r.wf(),
            r@ == Seq::<OrderEntry>::empty(),
            r.spec_capacity() == capacity,
    {
        OrderArena { entries: Vec::with_capacity(capacity), cap: capacity }
    }

    /// Stores `entry` in the next free slot and returns that slot's index, or
    /// `None` when every slot is taken.
    pub fn allocate(&mut self, entry: OrderEntry) -> (r: Option<usize>)
        requires
            old(self).wf(),
        ensures
            final(self).wf(),
            final(self).spec_capacity() == old(self).spec_capacity(),
            old(self)@.len() < old(self).spec_capacity() ==> r == Some(old(self)@.len() as usize)
                && final(self)@ == old(self)@.push(entry),
            old(self)@.len() >= old(self).spec_capacity() ==> r.is_none() && final(self)@ == old(
                self,
            )@,
    {
        if self.entries.len() >= self.cap {
            return None;
        }
        let idx = self.entries.len();
        self.entries.push(entry);
        Some(idx)
    }

    /// The entry in slot `idx`, if that slot has been allocated.
    pub fn get(&self, idx: usize) -> (r: Option<&OrderEntry>)
        ensures
            idx < self@.len() ==> r == Some(&self@[idx as int]),
            idx >= self@.len() ==> r.is_none(),
    {
        if idx < self.entries.len() {
            Some(&self.entries[idx])
        } else {
            None
        }
    }

    /// Overwrites the quantity of slot `idx`.
    pub(crate) fn set_quantity(&mut self, idx: usize, quantity: u32)
        requires
            idx < old(self)@.len(),
            old(self).wf(),
        ensures
            final(self).wf(),
            final(self).spec_capacity() == old(self).spec_capacity(),
            final(self)@ == old(self)@.update(
                idx as int,
                OrderEntry { quantity, ..old(self)@[idx as int] },
            ),
    {
        let mut e = self.entries[idx];
        e.quantity = quantity;
        self.entries.set(idx, e);
    }

    /// Overwrites the link of slot `idx`.
    pub(crate) fn set_next(&mut self, idx: usize, next: Option<usize>)
        requires
            idx < old(self)@.len(),
            old(self).wf(),
        ensures
            final(self).wf(),
            final(self).spec_capacity() == old(self).spec_capacity(),
            final(self)@ == old(self)@.update(
                idx as int,
                OrderEntry { next_idx: next, ..old(self)@[idx as int] },
            ),
    {
        let mut e = self.entries[idx];
        e.next_idx = next;
        self.entries.set(idx, e);
    }

    /// Number of allocated slots.
    pub fn len(&self) -> (r: usize)
        ensures
            r == self@.len(),
    {
        self.entries.len()
    }

    /// Whether no slot has been allocated.
    pub fn is_empty(&self) -> (r: bool)
        ensures
            r == (self@.len() == 0),
    {
        self.entries.len() == 0
    }

    /// Total number of slots.
    pub fn capacity(&self) -> (r: usize)
        ensures
            r == self.spec_capacity(),
    {
        self.cap
    }

    /// Number of slots still free.
    pub fn remaining_capacity(&self) -> (r: usize)
        requires
            self.wf(),
        ensures
            r == self.spec_capacity() - self@.len(),
    {
        self.cap - self.entries.len()
    }

    /// Drops every entry; all previously issued indices become invalid.
    pub fn clear(&mut self)
        ensures
            final(self)@ == Seq::<OrderEntry>::empty(),
            final(self).spec_capacity() == old(self).spec_capacity(),
            final(self).wf(),
    {
        self.entries.clear();
    }

    /// Makes room for at least `additional` more entries beyond those
    /// allocated (saturating at the largest `usize`).
    pub fn reserve(&mut self, additional: usize)
        requires
            old(self).wf(),
        ensures
            final(self).wf(),
            final(self)@ == old(self)@,
            final(self).spec_capacity() == (if old(self)@.len() + additional > old(
                self,
            ).spec_capacity() {
                vstd::math::min(old(self)@.len() + additional, usize::MAX as int) as nat
            } else {
                old(self).spec_capacity()
            }),
    {
        let wanted = self.entries.len().saturating_add(additional);
        if wanted > self.cap {
            self.entries.reserve(additional);
            self.cap = wanted;
        }
    }
}

impl Default for OrderArena {
    fn default() -> (r: Self)
        ensures
            r.wf(),
            r@ == Seq::<OrderEntry>::empty(),
            r.spec_capacity() == DEFAULT_ARENA_CAPACITY,
    {
        OrderArena::new(DEFAULT_ARENA_CAPACITY)
    }
}

} // verus!
