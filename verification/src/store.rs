//! The store of pending entries: slots that are used again, and handles that
//! are not.
//!
//! An entry is kept in a slot until it is taken out. Its handle holds the
//! number of the slot and the serial number of the entry, so finding an entry
//! by its handle is one look at one slot. A handle whose entry was taken out
//! finds either nothing or a later entry with another serial number, and so
//! names nothing.

use crate::entry::{Handle, Trigger};
use vstd::prelude::*;

verus! {

/// Pending entries, each under its handle.
pub struct Store<T> {
    slots: Vec<Option<Trigger<T>>>,
    free: Vec<usize>,
}

impl<T> View for Store<T> {
    type V = Map<Handle, Trigger<T>>;

    /// The entries that the store holds, each under the handle that names it.
    closed spec fn view(&self) -> Map<Handle, Trigger<T>> {
        Map::new(|h: Handle| self.holds(h), |h: Handle| self.slots@[h.slot as int]->0)
    }
}

impl<T> Store<T> {
    /// Slot `h.slot` holds the entry that `h` names.
    spec fn holds(&self, h: Handle) -> bool {
        &&& h.slot < self.slots@.len()
        &&& self.slots@[h.slot as int] is Some
        &&& self.slots@[h.slot as int]->0.handle == h
    }

    /// The free list names slots that hold nothing, each once.
    pub closed spec fn sound(&self) -> bool {
        &&& forall|j: int|
            0 <= j < self.free@.len() ==> (#[trigger] self.free@[j]) < self.slots@.len()
                && self.slots@[self.free@[j] as int] is None
        &&& forall|i: int, j: int|
            0 <= i < j < self.free@.len() ==> #[trigger] self.free@[i] != #[trigger] self.free@[j]
    }

    /// The store is well formed: it holds finitely many entries, each under
    /// its own handle.
    pub open spec fn wf(&self) -> bool {
        &&& self.sound()
        &&& self@.dom().finite()
        &&& forall|h: Handle| #[trigger] self@.contains_key(h) ==> self@[h].handle == h
    }

    /// A store that holds nothing.
    pub fn new() -> (store: Store<T>)
        ensures
            store.wf(),
            store@ == Map::<Handle, Trigger<T>>::empty(),
    {
        let store = Store { slots: Vec::new(), free: Vec::new() };
        proof {
            assert(store@ =~= Map::<Handle, Trigger<T>>::empty());
        }
        store
    }

    /// Finds a slot that holds nothing and that the free list no longer names.
    fn claim_slot(&mut self) -> (slot: usize)
        requires
            old(self).wf(),
        ensures
            final(self).wf(),
            final(self)@ == old(self)@,
            slot < final(self).slots@.len(),
            final(self).slots@[slot as int] is None,
            forall|j: int| 0 <= j < final(self).free@.len() ==> final(self).free@[j] != slot,
    {
        let slot: usize = match self.free.pop() {
            Some(slot) => slot,
            None => {
                self.slots.push(None);
                self.slots.len() - 1
            },
        };
        proof {
            assert(self@ =~= old(self)@);
        }
        slot
    }

    /// Stores a new entry and returns the handle that names it from now on.
    /// The handle carries `serial`, and it named nothing before.
    pub fn insert(&mut self, serial: u64, time: i64, value: T) -> (h: Handle)
        requires
            old(self).wf(),
        ensures
            final(self).wf(),
            h.serial == serial,
            !old(self)@.contains_key(h),
            final(self)@ == old(self)@.insert(h, Trigger::fresh(h, time, value)),
    {
        let slot: usize = self.claim_slot();
        let handle = Handle { slot, serial };
        let ghost claimed = self@;
        self.slots[slot] = Some(Trigger { handle, time, value, cancelled: false });
        proof {
            assert(self@ =~= claimed.insert(handle, Trigger::fresh(handle, time, value)));
        }
        handle
    }

    /// Marks the entry that `h` names as cancelled, if the store holds it.
    /// Returns whether it does.
    pub fn cancel(&mut self, h: Handle) -> (hit: bool)
        requires
            old(self).wf(),
        ensures
            final(self).wf(),
            hit == old(self)@.contains_key(h),
            final(self)@ == if hit {
                old(self)@.insert(h, old(self)@[h].revoked())
            } else {
                old(self)@
            },
    {
        if h.slot >= self.slots.len() {
            return false;
        }
        let hit: bool = match &mut self.slots[h.slot] {
            Some(entry) => {
                if entry.handle.serial == h.serial && entry.handle.slot == h.slot {
                    entry.cancel();
                    true
                } else {
                    false
                }
            },
            None => false,
        };
        proof {
            if hit {
                assert(self@ =~= old(self)@.insert(h, old(self)@[h].revoked()));
                assert(self@.dom() =~= old(self)@.dom());
            } else {
                assert(self.slots@ =~= old(self).slots@);
                assert(self@ =~= old(self)@);
            }
        }
        hit
    }

    /// Takes the entry that `h` names out of the store, if the store holds it.
    pub fn take(&mut self, h: Handle) -> (r: Option<Trigger<T>>)
        requires
            old(self).wf(),
        ensures
            final(self).wf(),
            r == if old(self)@.contains_key(h) {
                Some(old(self)@[h])
            } else {
                None
            },
            final(self)@ == old(self)@.remove(h),
    {
        if h.slot >= self.slots.len() {
            proof {
                assert(self@ =~= old(self)@.remove(h));
            }
            return None;
        }
        let held: bool = match &self.slots[h.slot] {
            Some(entry) => entry.handle.serial == h.serial && entry.handle.slot == h.slot,
            None => false,
        };
        if !held {
            proof {
                assert(self@ =~= old(self)@.remove(h));
            }
            return None;
        }
        let entry: Option<Trigger<T>> = self.slots[h.slot].take();
        self.free.push(h.slot);
        proof {
            assert(self@ =~= old(self)@.remove(h));
            assert forall|j: int| 0 <= j < self.free@.len() implies (#[trigger] self.free@[j])
                < self.slots@.len() && self.slots@[self.free@[j] as int] is None by {
                if j < old(self).free@.len() {
                    assert(self.free@[j] == old(self).free@[j]);
                }
            }
            assert forall|i: int, j: int| 0 <= i < j < self.free@.len() implies #[trigger]
                self.free@[i] != #[trigger] self.free@[j] by {
                assert(self.free@[i] == old(self).free@[i]);
                if j < old(self).free@.len() {
                    assert(self.free@[j] == old(self).free@[j]);
                }
            }
        }
        entry
    }
}

} // verus!
