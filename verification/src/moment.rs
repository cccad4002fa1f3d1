//! A timeline at one moment, as a mathematical value, and what each operation
//! makes of it.
//!
//! A moment is the clock, the number of entries given so far, and a map from
//! handles to the entries that are pending. The operations of the timeline
//! are stated as functions from moment to moment; the order of execution is
//! stated over the map alone.

use crate::entry::{Handle, Trigger};
use vstd::prelude::*;

verus! {

/// The state of a timeline.
pub struct Moment<T> {
    /// The current virtual time.
    pub clock: int,
    /// How many entries the timeline was given so far.
    pub issued: nat,
    /// The pending entries, each under its handle.
    pub pending: Map<Handle, Trigger<T>>,
}

/// Each entry of `order` precedes those behind it.
pub open spec fn ascending<T>(order: Seq<Trigger<T>>) -> bool {
    forall|i: int, j: int|
        0 <= i < j < order.len() ==> (#[trigger] order[i]).precedes(#[trigger] order[j])
}

impl<T> Moment<T> {
    /// The moment at which a timeline begins: the clock stands at `clock`,
    /// nothing was given and nothing is pending.
    pub open spec fn begin(clock: int) -> Moment<T> {
        Moment { clock, issued: 0, pending: Map::empty() }
    }

    /// `h` names a pending entry that was not cancelled.
    pub open spec fn live(self, h: Handle) -> bool {
        self.pending.contains_key(h) && !self.pending[h].cancelled
    }

    /// No pending entry is live: all were cancelled, or none is left.
    pub open spec fn idle(self) -> bool {
        forall|h: Handle| !self.live(h)
    }

    /// What holds at every moment of a timeline: each entry is stored under
    /// its own handle, carries a serial number below the count of entries
    /// given so far, and is due no earlier than the clock; no two entries
    /// share a serial number.
    pub open spec fn coherent(self) -> bool {
        &&& self.pending.dom().finite()
        &&& forall|h: Handle| #[trigger]
            self.pending.contains_key(h) ==> self.pending[h].handle == h && h.serial < self.issued
                && self.clock <= self.pending[h].time
        &&& forall|g: Handle, h: Handle|
            #![trigger self.pending.contains_key(g), self.pending.contains_key(h)]
            self.pending.contains_key(g) && self.pending.contains_key(h) && g.serial == h.serial
                ==> g == h
    }

    /// The moment after `value` was scheduled for `time` under the handle `h`.
    pub open spec fn scheduled(self, h: Handle, time: i64, value: T) -> Moment<T> {
        Moment {
            clock: self.clock,
            issued: self.issued + 1,
            pending: self.pending.insert(h, Trigger::fresh(h, time, value)),
        }
    }

    /// The moment after `h` was cancelled: its entry, if one is pending, is
    /// marked; nothing else changes.
    pub open spec fn cancelled(self, h: Handle) -> Moment<T> {
        if self.pending.contains_key(h) {
            Moment {
                clock: self.clock,
                issued: self.issued,
                pending: self.pending.insert(h, self.pending[h].revoked()),
            }
        } else {
            self
        }
    }

    /// `t` is the entry that runs next: it is live, and it precedes every
    /// other live entry.
    pub open spec fn is_next(self, t: Trigger<T>) -> bool {
        &&& self.live(t.handle)
        &&& self.pending[t.handle] == t
        &&& forall|h: Handle| #[trigger] self.live(h) && h != t.handle ==> t.precedes(self.pending[h])
    }

    /// The moment after `t` ran: the clock stands at its time, and the entries
    /// that `t` precedes are still pending. The cancelled entries that stood
    /// before `t` are gone with it.
    pub open spec fn stepped(self, t: Trigger<T>) -> Moment<T> {
        Moment {
            clock: t.time as int,
            issued: self.issued,
            pending: Map::new(
                |h: Handle| self.pending.contains_key(h) && t.precedes(self.pending[h]),
                |h: Handle| self.pending[h],
            ),
        }
    }

    /// The moment after the pending entries were dropped.
    pub open spec fn cleared(self) -> Moment<T> {
        Moment { clock: self.clock, issued: self.issued, pending: Map::empty() }
    }

    /// `order` is the order of execution: it lists the live entries, each
    /// once, the earlier before the later and, of two that are due at the same
    /// time, the one that was scheduled first before the other.
    pub open spec fn runs_as(self, order: Seq<Trigger<T>>) -> bool {
        &&& ascending(order)
        &&& forall|i: int|
            0 <= i < order.len() ==> self.live((#[trigger] order[i]).handle)
                && self.pending[order[i].handle] == order[i]
        &&& forall|h: Handle| #[trigger] self.live(h) ==> order.contains(self.pending[h])
    }

    /// The moment after the entries of `order` ran: nothing is pending, and
    /// the clock stands at the time of the last of them, or where it stood if
    /// there was none.
    pub open spec fn drained(self, order: Seq<Trigger<T>>) -> Moment<T> {
        Moment {
            clock: if order.len() == 0 {
                self.clock
            } else {
                order.last().time as int
            },
            issued: self.issued,
            pending: Map::empty(),
        }
    }
}

} // verus!
