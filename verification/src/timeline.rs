//! The timeline: a virtual clock and the entries scheduled against it.

use crate::entry::{CausalityViolation, Handle, Trigger};
use crate::moment::{ascending, Moment};
use crate::queue::{Key, Queue};
use crate::store::Store;
use vstd::prelude::*;

verus! {

/// A virtual clock with the entries that are scheduled against it.
///
/// The store keeps the entries; the queue orders their keys.
pub struct Timeline<T> {
    time: i64,
    issued: u64,
    queue: Queue,
    store: Store<T>,
}

impl<T> View for Timeline<T> {
    type V = Moment<T>;

    /// The clock, the number of entries given so far, and the pending entries.
    closed spec fn view(&self) -> Moment<T> {
        Moment { clock: self.time as int, issued: self.issued as nat, pending: self.store@ }
    }
}

impl<T> Timeline<T> {
    /// The queue holds the key of each stored entry, once, and no other key.
    pub closed spec fn sound(&self) -> bool {
        &&& self.queue.wf()
        &&& self.store.wf()
        &&& self.store@.len() == self.queue@.len()
        &&& forall|k: Key| #[trigger]
            self.queue@.contains(k) ==> {
                &&& self.queue@.count(k) == 1
                &&& self.store@.contains_key(k.handle)
                &&& self.store@[k.handle].time == k.time
            }
        &&& forall|h: Handle| #[trigger]
            self.store@.contains_key(h) ==> self.queue@.contains(Key::of(self.store@[h]))
    }

    /// The timeline is well formed.
    pub open spec fn wf(&self) -> bool {
        &&& self.sound()
        &&& self@.coherent()
    }

    /// A timeline whose clock stands at `start`, with nothing pending.
    pub fn with_start(start: i64) -> (tl: Timeline<T>)
        ensures
            tl.wf(),
            tl@ == Moment::<T>::begin(start as int),
    {
        Timeline { time: start, issued: 0, queue: Queue::new(), store: Store::new() }
    }

    /// A timeline whose clock stands at zero, with nothing pending.
    pub fn new() -> (tl: Timeline<T>)
        ensures
            tl.wf(),
            tl@ == Moment::<T>::begin(0),
    {
        Timeline::with_start(0)
    }

    /// The current virtual time.
    pub fn now(&self) -> (t: i64)
        ensures
            t == self@.clock,
    {
        self.time
    }

    /// How many entries the timeline was given so far. The next entry gets
    /// this number as its serial number.
    pub fn issued(&self) -> (n: u64)
        ensures
            n == self@.issued,
    {
        self.issued
    }

    /// Schedules `value` for the virtual time `time`.
    ///
    /// A time before the clock is refused, and the timeline stays as it was.
    /// Otherwise the entry becomes pending under a handle that names nothing
    /// else, with the next serial number.
    pub fn schedule_abs(&mut self, time: i64, value: T) -> (r: Result<Handle, CausalityViolation>)
        requires
            old(self).wf(),
            old(self)@.issued < u64::MAX,
        ensures
            final(self).wf(),
            match r {
                Ok(h) => {
                    &&& old(self)@.clock <= time
                    &&& !old(self)@.pending.contains_key(h)
                    &&& h.serial == old(self)@.issued
                    &&& final(self)@ == old(self)@.scheduled(h, time, value)
                },
                Err(_) => time < old(self)@.clock && final(self)@ == old(self)@,
            },
    {
        if time < self.time {
            return Err(CausalityViolation);
        }
        let handle: Handle = self.store.insert(self.issued, time, value);
        let key = Key { time, handle };
        proof {
            if self.queue@.contains(key) {
                assert(old(self).store@.contains_key(key.handle));
            }
        }
        self.queue.insert(key);
        self.issued = self.issued + 1;
        proof {
            assert(self.store@.dom() =~= old(self).store@.dom().insert(handle));
            assert forall|k: Key| #[trigger] self.queue@.contains(k) implies {
                &&& self.queue@.count(k) == 1
                &&& self.store@.contains_key(k.handle)
                &&& self.store@[k.handle].time == k.time
            } by {
                if k != key {
                    assert(old(self).queue@.contains(k));
                }
            }
            assert forall|h: Handle| #[trigger] self.store@.contains_key(h) implies self.queue@.contains(
                Key::of(self.store@[h]),
            ) by {
                if h != handle {
                    assert(old(self).store@.contains_key(h));
                }
            }
        }
        Ok(handle)
    }

    /// Schedules `value` for `delay` ticks after the current virtual time.
    ///
    /// A negative delay is refused, and the timeline stays as it was.
    pub fn schedule(&mut self, delay: i64, value: T) -> (r: Result<Handle, CausalityViolation>)
        requires
            old(self).wf(),
            old(self)@.issued < u64::MAX,
            old(self)@.clock + delay <= i64::MAX,
        ensures
            final(self).wf(),
            match r {
                Ok(h) => {
                    &&& 0 <= delay
                    &&& !old(self)@.pending.contains_key(h)
                    &&& h.serial == old(self)@.issued
                    &&& final(self)@ == old(self)@.scheduled(
                        h,
                        (old(self)@.clock + delay) as i64,
                        value,
                    )
                },
                Err(_) => delay < 0 && final(self)@ == old(self)@,
            },
    {
        if delay < 0 {
            return Err(CausalityViolation);
        }
        self.schedule_abs(self.time + delay, value)
    }

    /// Cancels the entry that `handle` names, if it is still pending.
    ///
    /// Returns whether it was. A handle whose entry has left the timeline, or
    /// that never named one, changes nothing. Cancelling twice is the same as
    /// cancelling once.
    pub fn cancel(&mut self, handle: Handle) -> (hit: bool)
        requires
            old(self).wf(),
        ensures
            final(self).wf(),
            hit == old(self)@.pending.contains_key(handle),
            final(self)@ == old(self)@.cancelled(handle),
    {
        let hit: bool = self.store.cancel(handle);
        proof {
            if hit {
                assert(self.store@.dom() =~= old(self).store@.dom());
                assert forall|h: Handle| #[trigger] self.store@.contains_key(h) implies self.queue@.contains(
                    Key::of(self.store@[h]),
                ) by {
                    assert(old(self).store@.contains_key(h));
                }
            }
        }
        hit
    }

    /// Takes the first pending entry out of the timeline, cancelled or not.
    fn take_first(&mut self) -> (r: Option<Trigger<T>>)
        requires
            old(self).wf(),
        ensures
            final(self).wf(),
            final(self).time == old(self).time,
            final(self).issued == old(self).issued,
            match r {
                Some(t) => {
                    &&& old(self).store@.contains_key(t.handle)
                    &&& old(self).store@[t.handle] == t
                    &&& forall|h: Handle| #[trigger]
                        old(self).store@.contains_key(h) && h != t.handle ==> t.precedes(
                            old(self).store@[h],
                        )
                    &&& final(self).store@ == old(self).store@.remove(t.handle)
                },
                None => {
                    &&& old(self).store@ == Map::<Handle, Trigger<T>>::empty()
                    &&& final(self).store@ == old(self).store@
                },
            },
    {
        match self.queue.pop_min() {
            None => {
                proof {
                    assert(self.store@.dom() =~= Set::<Handle>::empty());
                    assert(self.store@ =~= Map::<Handle, Trigger<T>>::empty());
                }
                None
            },
            Some(key) => {
                let entry: Option<Trigger<T>> = self.store.take(key.handle);
                proof {
                    let t = entry->0;
                    assert(old(self).queue@.contains(key));
                    assert(self.store@.dom() =~= old(self).store@.dom().remove(key.handle));
                    assert forall|h: Handle| #[trigger]
                        old(self).store@.contains_key(h) && h != t.handle implies t.precedes(
                        old(self).store@[h],
                    ) by {
                        assert(old(self).queue@.contains(Key::of(old(self).store@[h])));
                    }
                    assert forall|k: Key| #[trigger] self.queue@.contains(k) implies {
                        &&& self.queue@.count(k) == 1
                        &&& self.store@.contains_key(k.handle)
                        &&& self.store@[k.handle].time == k.time
                    } by {
                        assert(old(self).queue@.contains(k));
                    }
                    assert forall|h: Handle| #[trigger] self.store@.contains_key(h) implies self.queue@.contains(
                        Key::of(self.store@[h]),
                    ) by {
                        assert(old(self).store@.contains_key(h));
                    }
                }
                entry
            },
        }
    }

    /// Runs the next entry: takes pending entries out in order, drops the
    /// cancelled ones, and stops at the first that is live. The clock moves to
    /// the time of that entry, which is returned. Where no live entry is left,
    /// nothing stays pending, the clock stands, and the result is `None`.
    pub fn step(&mut self) -> (r: Option<Trigger<T>>)
        requires
            old(self).wf(),
        ensures
            final(self).wf(),
            old(self)@.clock <= final(self)@.clock,
            match r {
                Some(t) => {
                    &&& old(self)@.is_next(t)
                    &&& final(self)@ == old(self)@.stepped(t)
                    &&& final(self)@.pending.len() < old(self)@.pending.len()
                },
                None => old(self)@.idle() && final(self)@ == old(self)@.cleared(),
            },
    {
        loop
            invariant
                self.wf(),
                old(self).wf(),
                self.time == old(self).time,
                self.issued == old(self).issued,
                self.store@.len() <= old(self).store@.len(),
                forall|h: Handle| #[trigger]
                    self.store@.contains_key(h) ==> old(self).store@.contains_key(h) && old(
                        self,
                    ).store@[h] == self.store@[h],
                forall|h: Handle, g: Handle|
                    #![trigger old(self).store@.contains_key(h), self.store@.contains_key(g)]
                    old(self).store@.contains_key(h) && !self.store@.contains_key(h)
                        && self.store@.contains_key(g) ==> old(self).store@[h].precedes(
                        self.store@[g],
                    ),
                forall|h: Handle| #[trigger]
                    old(self).store@.contains_key(h) && !self.store@.contains_key(h) ==> old(
                        self,
                    ).store@[h].cancelled,
            decreases self.store@.len(),
        {
            let ghost before = self.store@;
            match self.take_first() {
                None => {
                    return None;
                },
                Some(t) => {
                    if !t.cancelled {
                        self.time = t.time;
                        proof {
                            assert forall|h: Handle| #[trigger]
                                self.store@.contains_key(h) implies t.time <= self.store@[h].time by {
                                assert(before.contains_key(h));
                            }
                            assert(self.store@ =~= old(self)@.stepped(t).pending);
                        }
                        return Some(t);
                    }
                },
            }
        }
    }

    /// The due time of the first pending entry, or `None` where nothing is
    /// pending. A cancelled entry counts until a step has dropped it.
    pub fn peek_next(&self) -> (r: Option<i64>)
        requires
            self.wf(),
        ensures
            match r {
                Some(time) => {
                    &&& exists|h: Handle| #[trigger]
                        self@.pending.contains_key(h) && self@.pending[h].time == time
                    &&& forall|h: Handle| #[trigger]
                        self@.pending.contains_key(h) ==> time <= self@.pending[h].time
                },
                None => self@.pending == Map::<Handle, Trigger<T>>::empty(),
            },
    {
        match self.queue.peek_min() {
            Some(key) => {
                proof {
                    assert(self.store@.contains_key(key.handle));
                    assert forall|h: Handle| #[trigger] self.store@.contains_key(h) implies key.time
                        <= self.store@[h].time by {
                        assert(self.queue@.contains(Key::of(self.store@[h])));
                    }
                }
                Some(key.time)
            },
            None => {
                proof {
                    assert(self.store@.dom() =~= Set::<Handle>::empty());
                    assert(self.store@ =~= Map::<Handle, Trigger<T>>::empty());
                }
                None
            },
        }
    }

    /// The number of pending entries, cancelled ones included.
    pub fn len(&self) -> (n: usize)
        requires
            self.wf(),
        ensures
            n == self@.pending.len(),
    {
        self.queue.len()
    }

    /// Whether nothing is pending.
    pub fn is_empty(&self) -> (b: bool)
        requires
            self.wf(),
        ensures
            b == (self@.pending == Map::<Handle, Trigger<T>>::empty()),
    {
        proof {
            if self.store@.len() == 0 {
                assert(self.store@.dom() =~= Set::<Handle>::empty());
                assert(self.store@ =~= Map::<Handle, Trigger<T>>::empty());
            }
        }
        self.queue.is_empty()
    }

    /// Runs every pending entry: steps until no live entry is left, and
    /// returns the entries that ran, in the order in which they ran. The clock
    /// ends at the time of the last of them, and stands where none ran.
    ///
    /// The entries come back only when all have run. A caller that schedules
    /// or cancels in answer to an entry drives the timeline by `step`.
    pub fn run(&mut self) -> (ran: Vec<Trigger<T>>)
        requires
            old(self).wf(),
        ensures
            final(self).wf(),
            old(self)@.runs_as(ran@),
            final(self)@ == old(self)@.drained(ran@),
    {
        let mut ran: Vec<Trigger<T>> = Vec::new();
        loop
            invariant
                self.wf(),
                old(self).wf(),
                self.issued == old(self).issued,
                self.time == if ran@.len() == 0 {
                    old(self).time
                } else {
                    ran@.last().time
                },
                ascending(ran@),
                forall|i: int|
                    0 <= i < ran@.len() ==> old(self)@.live((#[trigger] ran@[i]).handle)
                        && old(self).store@[ran@[i].handle] == ran@[i],
                forall|i: int, h: Handle|
                    0 <= i < ran@.len() && #[trigger] self.store@.contains_key(h) ==> (
                    #[trigger] ran@[i]).precedes(self.store@[h]),
                forall|h: Handle| #[trigger]
                    self.store@.contains_key(h) ==> old(self).store@.contains_key(h)
                        && old(self).store@[h] == self.store@[h],
                forall|h: Handle| #[trigger]
                    old(self)@.live(h) ==> ran@.contains(old(self).store@[h])
                        || self.store@.contains_key(h),
            decreases self.store@.len(),
        {
            let ghost before = self@;
            let ghost done = ran@;
            match self.step() {
                None => {
                    proof {
                        assert forall|h: Handle| #[trigger]
                            old(self)@.live(h) implies ran@.contains(old(self).store@[h]) by {
                            if before.pending.contains_key(h) {
                                assert(before.live(h));
                            }
                        }
                    }
                    return ran;
                },
                Some(t) => {
                    ran.push(t);
                    proof {
                        assert(before.live(t.handle));
                        assert forall|h: Handle| #[trigger]
                            old(self)@.live(h) implies ran@.contains(old(self).store@[h])
                            || self.store@.contains_key(h) by {
                            if done.contains(old(self).store@[h]) {
                                let i = choose|i: int|
                                    0 <= i < done.len() && done[i] == old(self).store@[h];
                                assert(ran@[i] == old(self).store@[h]);
                            } else if h == t.handle {
                                assert(ran@[done.len() as int] == t);
                            } else {
                                assert(before.live(h));
                            }
                        }
                    }
                },
            }
        }
    }
}

} // verus!
