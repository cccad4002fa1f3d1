//! What a timeline holds and hands out: entries, the handles that name them,
//! and the one error that scheduling can give.

use vstd::prelude::*;

verus! {

/// Names one scheduled entry without owning it.
///
/// A handle is plain data: the slot in which the entry was stored and the
/// serial number that it was given. Serial numbers are never given twice, so
/// a handle whose entry has left the timeline names nothing from then on.
#[derive(Clone, Copy, Debug, PartialEq, Eq, Structural)]
pub struct Handle {
    /// Where the timeline stored the entry.
    pub slot: usize,
    /// The arrival number of the entry.
    pub serial: u64,
}

/// Scheduling was asked for a time that lies before the timeline's clock.
#[derive(Clone, Copy, Debug, PartialEq, Eq, Structural)]
pub struct CausalityViolation;

/// One scheduled entry: a value that becomes due at a fixed virtual time.
#[derive(Debug)]
pub struct Trigger<T> {
    /// The handle that names this entry.
    pub handle: Handle,
    /// The virtual time at which the entry is due.
    pub time: i64,
    /// What was scheduled.
    pub value: T,
    /// Whether the entry was cancelled.
    pub cancelled: bool,
}

impl<T> Trigger<T> {
    /// `self` runs strictly before `other`: it is due earlier, or it is due at
    /// the same time and was scheduled earlier.
    pub open spec fn precedes(self, other: Trigger<T>) -> bool {
        self.time < other.time || (self.time == other.time && self.handle.serial
            < other.handle.serial)
    }

    /// The entry that scheduling `value` for `time` stores under `handle`.
    pub open spec fn fresh(handle: Handle, time: i64, value: T) -> Trigger<T> {
        Trigger { handle, time, value, cancelled: false }
    }

    /// This entry, cancelled.
    pub open spec fn revoked(self) -> Trigger<T> {
        Trigger { handle: self.handle, time: self.time, value: self.value, cancelled: true }
    }

    /// Marks the entry as cancelled. Its time and value stay as they are.
    pub fn cancel(&mut self)
        ensures
            *final(self) == old(self).revoked(),
    {
        self.cancelled = true;
    }
}

} // verus!
