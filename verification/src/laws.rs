//! What follows from the definitions of the moments of a timeline: the
//! properties of the order of execution, of cancellation and of scheduling
//! while entries run.

use crate::entry::{Handle, Trigger};
use crate::moment::{ascending, Moment};
use vstd::prelude::*;

verus! {

/// Two ascending sequences that hold the same entries are the same sequence.
proof fn lemma_same_entries_same_order<T>(a: Seq<Trigger<T>>, b: Seq<Trigger<T>>)
    requires
        ascending(a),
        ascending(b),
        forall|x: Trigger<T>| a.contains(x) <==> b.contains(x),
    ensures
        a == b,
    decreases a.len(),
{
    if a.len() == 0 {
        if b.len() > 0 {
            assert(b.contains(b[0]));
        }
        assert(a =~= b);
    } else {
        assert(a.contains(a[0]));
        let j = choose|j: int| 0 <= j < b.len() && b[j] == a[0];
        assert(b.contains(b[0]));
        let i = choose|i: int| 0 <= i < a.len() && a[i] == b[0];
        assert(a[0] == b[0]) by {
            if i > 0 && j > 0 {
                assert(a[0].precedes(a[i]));
                assert(b[0].precedes(b[j]));
            }
        }
        let a1 = a.drop_first();
        let b1 = b.drop_first();
        assert forall|x: Trigger<T>| a1.contains(x) <==> b1.contains(x) by {
            if a1.contains(x) {
                let k = choose|k: int| 0 <= k < a1.len() && a1[k] == x;
                assert(a[k + 1] == x);
                assert(a[0].precedes(a[k + 1]));
                assert(a.contains(x));
                let l = choose|l: int| 0 <= l < b.len() && b[l] == x;
                assert(l > 0);
                assert(b1[l - 1] == x);
            }
            if b1.contains(x) {
                let k = choose|k: int| 0 <= k < b1.len() && b1[k] == x;
                assert(b[k + 1] == x);
                assert(b[0].precedes(b[k + 1]));
                assert(b.contains(x));
                let l = choose|l: int| 0 <= l < a.len() && a[l] == x;
                assert(l > 0);
                assert(a1[l - 1] == x);
            }
        }
        assert(ascending(a1)) by {
            assert forall|p: int, q: int| 0 <= p < q < a1.len() implies (#[trigger] a1[p]).precedes(
                #[trigger] a1[q],
            ) by {
                assert(a[p + 1].precedes(a[q + 1]));
            }
        }
        assert(ascending(b1)) by {
            assert forall|p: int, q: int| 0 <= p < q < b1.len() implies (#[trigger] b1[p]).precedes(
                #[trigger] b1[q],
            ) by {
                assert(b[p + 1].precedes(b[q + 1]));
            }
        }
        lemma_same_entries_same_order(a1, b1);
        assert(a =~= b) by {
            assert forall|p: int| 0 <= p < a.len() implies a[p] == b[p] by {
                if p > 0 {
                    assert(a1[p - 1] == b1[p - 1]);
                }
            }
        }
    }
}

/// The place in an ascending sequence behind the entries that are due by
/// `time` and before those that are due later.
proof fn lemma_split_by_time<T>(order: Seq<Trigger<T>>, time: i64) -> (k: int)
    requires
        ascending(order),
    ensures
        0 <= k <= order.len(),
        forall|i: int| 0 <= i < k ==> (#[trigger] order[i]).time <= time,
        forall|i: int| k <= i < order.len() ==> time < (#[trigger] order[i]).time,
    decreases order.len(),
{
    if order.len() == 0 {
        0
    } else if order.last().time <= time {
        assert forall|i: int| 0 <= i < order.len() implies (#[trigger] order[i]).time <= time by {
            if i < order.len() - 1 {
                assert(order[i].precedes(order[order.len() - 1]));
            }
        }
        order.len() as int
    } else {
        let front = order.drop_last();
        assert(ascending(front)) by {
            assert forall|p: int, q: int| 0 <= p < q < front.len() implies (
            #[trigger] front[p]).precedes(#[trigger] front[q]) by {
                assert(order[p].precedes(order[q]));
            }
        }
        let k = lemma_split_by_time(front, time);
        assert forall|i: int| 0 <= i < k implies (#[trigger] order[i]).time <= time by {
            assert(front[i].time <= time);
        }
        assert forall|i: int| k <= i < order.len() implies time < (#[trigger] order[i]).time by {
            if i < order.len() - 1 {
                assert(time < front[i].time);
            }
        }
        k
    }
}

/// The entries run in the order of their times, and entries that are due at
/// the same time run in the order in which they were scheduled.
pub proof fn lemma_runs_in_time_order<T>(
    m: Moment<T>,
    order: Seq<Trigger<T>>,
    i: int,
    j: int,
)
    requires
        m.runs_as(order),
        0 <= i < j < order.len(),
    ensures
        order[i].time <= order[j].time,
        order[i].time == order[j].time ==> order[i].handle.serial < order[j].handle.serial,
{
    assert(order[i].precedes(order[j]));
}

/// There is one order of execution: the times and the serial numbers of the
/// live entries settle it.
pub proof fn lemma_order_is_unique<T>(m: Moment<T>, a: Seq<Trigger<T>>, b: Seq<Trigger<T>>)
    requires
        m.runs_as(a),
        m.runs_as(b),
    ensures
        a == b,
{
    assert forall|x: Trigger<T>| a.contains(x) <==> b.contains(x) by {
        if a.contains(x) {
            let i = choose|i: int| 0 <= i < a.len() && a[i] == x;
            assert(m.live(a[i].handle));
        }
        if b.contains(x) {
            let i = choose|i: int| 0 <= i < b.len() && b[i] == x;
            assert(m.live(b[i].handle));
        }
    }
    lemma_same_entries_same_order(a, b);
}

/// A step runs the first entry of the order of execution, and the rest of the
/// order is the order of execution of what the step leaves.
pub proof fn lemma_step_runs_first<T>(m: Moment<T>, order: Seq<Trigger<T>>)
    requires
        m.coherent(),
        m.runs_as(order),
    ensures
        order.len() == 0 <==> m.idle(),
        order.len() > 0 ==> m.is_next(order[0]) && m.stepped(order[0]).runs_as(order.drop_first()),
{
    if order.len() == 0 {
        assert forall|h: Handle| !m.live(h) by {
            if m.live(h) {
                assert(order.contains(m.pending[h]));
            }
        }
    } else {
        let t = order[0];
        let rest = order.drop_first();
        let after = m.stepped(t);
        assert(m.live(t.handle));
        assert forall|h: Handle| #[trigger] m.live(h) && h != t.handle implies t.precedes(
            m.pending[h],
        ) by {
            assert(order.contains(m.pending[h]));
            let i = choose|i: int| 0 <= i < order.len() && order[i] == m.pending[h];
            assert(m.pending[order[i].handle] == order[i]);
            assert(i > 0);
            assert(order[0].precedes(order[i]));
        }
        assert(ascending(rest)) by {
            assert forall|p: int, q: int| 0 <= p < q < rest.len() implies (
            #[trigger] rest[p]).precedes(#[trigger] rest[q]) by {
                assert(order[p + 1].precedes(order[q + 1]));
            }
        }
        assert forall|i: int| 0 <= i < rest.len() implies after.live((#[trigger] rest[i]).handle)
            && after.pending[rest[i].handle] == rest[i] by {
            assert(rest[i] == order[i + 1]);
            assert(m.live(order[i + 1].handle));
            assert(order[0].precedes(order[i + 1]));
        }
        assert forall|h: Handle| #[trigger] after.live(h) implies rest.contains(
            after.pending[h],
        ) by {
            assert(m.live(h));
            assert(order.contains(m.pending[h]));
            let i = choose|i: int| 0 <= i < order.len() && order[i] == m.pending[h];
            assert(i > 0);
            assert(rest[i - 1] == m.pending[h]);
        }
    }
}

/// Of two entries that consecutive steps run, the first precedes the second,
/// and the second was live before the first ran.
pub proof fn lemma_steps_run_in_order<T>(m: Moment<T>, t: Trigger<T>, u: Trigger<T>)
    requires
        m.is_next(t),
        m.stepped(t).is_next(u),
    ensures
        t.precedes(u),
        m.live(u.handle),
        m.pending[u.handle] == u,
{
}

/// No entry that runs is due later than the clock shows when all have run;
/// where none is live, none runs and the clock stands.
pub proof fn lemma_clock_ends_at_latest<T>(m: Moment<T>, order: Seq<Trigger<T>>)
    requires
        m.runs_as(order),
    ensures
        forall|i: int| 0 <= i < order.len() ==> (#[trigger] order[i]).time <= m.drained(order).clock,
        order.len() > 0 ==> m.drained(order).clock == order.last().time,
        m.idle() ==> order.len() == 0 && m.drained(order).clock == m.clock,
{
    assert forall|i: int| 0 <= i < order.len() implies (#[trigger] order[i]).time <= m.drained(
        order,
    ).clock by {
        if i < order.len() - 1 {
            assert(order[i].precedes(order[order.len() - 1]));
        }
    }
    if m.idle() && order.len() > 0 {
        assert(m.live(order[0].handle));
    }
}

/// An entry that was cancelled while it was pending never runs: no step
/// yields it, and the order of execution does not hold it.
pub proof fn lemma_cancelled_never_runs<T>(m: Moment<T>, h: Handle)
    ensures
        !m.cancelled(h).live(h),
        forall|t: Trigger<T>| m.cancelled(h).is_next(t) ==> t.handle != h,
        forall|order: Seq<Trigger<T>>, i: int|
            m.cancelled(h).runs_as(order) && 0 <= i < order.len() ==> (#[trigger] order[i]).handle
                != h,
{
    let c = m.cancelled(h);
    assert forall|order: Seq<Trigger<T>>, i: int|
        c.runs_as(order) && 0 <= i < order.len() implies (#[trigger] order[i]).handle != h by {
        assert(c.live(order[i].handle));
    }
}

/// A pending entry keeps its handle, its time and its value for as long as
/// it is pending, whatever is scheduled, cancelled or run meanwhile. All that
/// can change is that it becomes cancelled, and then it stays so.
pub proof fn lemma_entries_only_become_cancelled<T>(
    m: Moment<T>,
    h: Handle,
    g: Handle,
    time: i64,
    value: T,
    t: Trigger<T>,
)
    requires
        m.pending.contains_key(h),
    ensures
        !m.pending.contains_key(g) ==> m.scheduled(g, time, value).pending[h] == m.pending[h],
        m.cancelled(g).pending.contains_key(h),
        m.cancelled(g).pending[h] == if g == h {
            m.pending[h].revoked()
        } else {
            m.pending[h]
        },
        m.pending[h].cancelled ==> m.cancelled(g).pending[h] == m.pending[h],
        m.stepped(t).pending.contains_key(h) ==> m.stepped(t).pending[h] == m.pending[h],
{
}

/// An entry runs at most once: the step that runs it takes it out of the
/// timeline, and the order of execution names no entry twice.
pub proof fn lemma_runs_at_most_once<T>(
    m: Moment<T>,
    t: Trigger<T>,
    order: Seq<Trigger<T>>,
    i: int,
    j: int,
)
    ensures
        m.is_next(t) ==> !m.stepped(t).pending.contains_key(t.handle),
        m.runs_as(order) && 0 <= i < j < order.len() ==> order[i].handle != order[j].handle,
{
    if m.runs_as(order) && 0 <= i < j < order.len() {
        assert(order[i].precedes(order[j]));
        assert(m.pending[order[i].handle] == order[i]);
        assert(m.pending[order[j].handle] == order[j]);
    }
}

/// Cancelling a handle that names no pending entry changes nothing, and
/// cancelling twice is the same as cancelling once.
pub proof fn lemma_cancel_is_idempotent<T>(m: Moment<T>, h: Handle)
    ensures
        !m.pending.contains_key(h) ==> m.cancelled(h) == m,
        m.cancelled(h).cancelled(h) == m.cancelled(h),
{
    if m.pending.contains_key(h) {
        assert(m.cancelled(h).cancelled(h).pending =~= m.cancelled(h).pending);
    }
}

/// A handle whose entry has left the timeline names nothing from then on:
/// no later operation makes it pending again.
pub proof fn lemma_stale_handle_stays_stale<T>(
    m: Moment<T>,
    h: Handle,
    g: Handle,
    time: i64,
    value: T,
    t: Trigger<T>,
)
    requires
        m.coherent(),
        h.serial < m.issued,
        !m.pending.contains_key(h),
    ensures
        g.serial == m.issued ==> !m.scheduled(g, time, value).pending.contains_key(h),
        !m.cancelled(g).pending.contains_key(h),
        !m.stepped(t).pending.contains_key(h),
        !m.cleared().pending.contains_key(h),
{
}

/// Every operation keeps a coherent moment coherent, and none moves the clock
/// back.
pub proof fn lemma_operations_keep_coherence<T>(
    m: Moment<T>,
    g: Handle,
    time: i64,
    value: T,
    t: Trigger<T>,
    order: Seq<Trigger<T>>,
)
    requires
        m.coherent(),
    ensures
        !m.pending.contains_key(g) && g.serial == m.issued && m.clock <= time ==> m.scheduled(
            g,
            time,
            value,
        ).coherent(),
        m.cancelled(g).coherent(),
        m.is_next(t) ==> m.stepped(t).coherent() && m.clock <= m.stepped(t).clock,
        m.cleared().coherent(),
        m.runs_as(order) ==> m.drained(order).coherent() && m.clock <= m.drained(order).clock,
{
    if !m.pending.contains_key(g) && g.serial == m.issued && m.clock <= time {
        let s = m.scheduled(g, time, value);
        assert(s.pending.dom() =~= m.pending.dom().insert(g));
    }
    if m.pending.contains_key(g) {
        assert(m.cancelled(g).pending.dom() =~= m.pending.dom());
    }
    if m.is_next(t) {
        let s = m.stepped(t);
        assert(s.pending.dom().subset_of(m.pending.dom()));
        vstd::set_lib::lemma_set_subset_finite(m.pending.dom(), s.pending.dom());
    }
    if m.runs_as(order) && order.len() > 0 {
        assert(m.live(order[order.len() - 1].handle));
    }
}

/// Scheduling adds one pending entry, cancelling keeps their number, and a
/// step that runs an entry leaves fewer.
pub proof fn lemma_pending_count<T>(m: Moment<T>, g: Handle, time: i64, value: T, t: Trigger<T>)
    requires
        m.coherent(),
    ensures
        !m.pending.contains_key(g) ==> m.scheduled(g, time, value).pending.len() == m.pending.len()
            + 1,
        m.cancelled(g).pending.len() == m.pending.len(),
        m.is_next(t) ==> m.stepped(t).pending.len() < m.pending.len(),
{
    if !m.pending.contains_key(g) {
        assert(m.scheduled(g, time, value).pending.dom() =~= m.pending.dom().insert(g));
    }
    if m.pending.contains_key(g) {
        assert(m.cancelled(g).pending.dom() =~= m.pending.dom());
    }
    if m.is_next(t) {
        let rest = m.stepped(t).pending.dom();
        assert(rest.subset_of(m.pending.dom().remove(t.handle)));
        vstd::set_lib::lemma_len_subset(rest, m.pending.dom().remove(t.handle));
    }
}

/// An entry that is scheduled while others are pending runs in its place:
/// behind the live entries that are due by its time, and before those that
/// are due later. The result is that place in the order of execution.
pub proof fn lemma_scheduled_runs_in_place<T>(
    m: Moment<T>,
    order: Seq<Trigger<T>>,
    h: Handle,
    time: i64,
    value: T,
) -> (k: int)
    requires
        m.coherent(),
        m.runs_as(order),
        !m.pending.contains_key(h),
        h.serial == m.issued,
    ensures
        0 <= k <= order.len(),
        forall|i: int| 0 <= i < k ==> (#[trigger] order[i]).time <= time,
        forall|i: int| k <= i < order.len() ==> time < (#[trigger] order[i]).time,
        m.scheduled(h, time, value).runs_as(order.insert(k, Trigger::fresh(h, time, value))),
{
    let k = lemma_split_by_time(order, time);
    let e = Trigger::fresh(h, time, value);
    let s = m.scheduled(h, time, value);
    let grown = order.insert(k, e);
    assert forall|i: int| 0 <= i < grown.len() implies s.live((#[trigger] grown[i]).handle)
        && s.pending[grown[i].handle] == grown[i] by {
        if i < k {
            assert(grown[i] == order[i]);
            assert(m.live(order[i].handle));
        } else if i > k {
            assert(grown[i] == order[i - 1]);
            assert(m.live(order[i - 1].handle));
        }
    }
    assert(ascending(grown)) by {
        assert forall|p: int, q: int| 0 <= p < q < grown.len() implies (#[trigger] grown[p]).precedes(
            #[trigger] grown[q],
        ) by {
            let before = if p < k {
                order[p]
            } else {
                order[p - 1]
            };
            let behind = if q < k {
                order[q]
            } else {
                order[q - 1]
            };
            if p != k {
                assert(grown[p] == before);
                assert(m.live(before.handle));
            }
            if q != k {
                assert(grown[q] == behind);
                assert(m.live(behind.handle));
            }
            if p != k && q != k {
                assert(before.precedes(behind));
            }
        }
    }
    assert forall|g: Handle| #[trigger] s.live(g) implies grown.contains(s.pending[g]) by {
        if g == h {
            assert(grown[k] == e);
        } else {
            assert(m.live(g));
            assert(order.contains(m.pending[g]));
            let i = choose|i: int| 0 <= i < order.len() && order[i] == m.pending[g];
            if i < k {
                assert(grown[i] == order[i]);
            } else {
                assert(grown[i + 1] == order[i]);
            }
        }
    }
    k
}

} // verus!
