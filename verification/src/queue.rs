//! The ordering queue: a binary min-heap of keys.
//!
//! A key carries the due time of an entry and the handle that names it. The
//! queue orders keys by time and, where the times are equal, by the serial
//! number of the handle, so that the entry that arrived first leaves first.

use crate::entry::{Handle, Trigger};
use vstd::multiset::Multiset;
use vstd::prelude::*;

verus! {

/// The position of one entry in the order of execution.
#[derive(Clone, Copy, Debug)]
pub struct Key {
    /// The virtual time at which the entry is due.
    pub time: i64,
    /// The handle that names the entry.
    pub handle: Handle,
}

impl Key {
    /// The key of the entry `t`.
    pub open spec fn of<T>(t: Trigger<T>) -> Key {
        Key { time: t.time, handle: t.handle }
    }

    /// `self` comes strictly before `other`: it is due earlier, or it is due
    /// at the same time and arrived earlier.
    pub open spec fn precedes(self, other: Key) -> bool {
        self.time < other.time || (self.time == other.time && self.handle.serial
            < other.handle.serial)
    }

    /// Decides [`Key::precedes`].
    pub fn before(&self, other: &Key) -> (b: bool)
        ensures
            b == self.precedes(*other),
    {
        self.time < other.time || (self.time == other.time && self.handle.serial
            < other.handle.serial)
    }
}

/// The index of the node above node `i` of the heap.
spec fn parent(i: int) -> int {
    (i - 1) / 2
}

/// No node comes before the node above it.
spec fn heap_ordered(s: Seq<Key>) -> bool {
    forall|i: int| 0 < i < s.len() ==> !(#[trigger] s[i]).precedes(s[parent(i)])
}

/// The heap order holds everywhere but between node `at` and the node above
/// it, and the nodes below `at` already respect the node above `at`.
spec fn ordered_while_rising(s: Seq<Key>, at: int) -> bool {
    &&& forall|i: int| 0 < i < s.len() && i != at ==> !(#[trigger] s[i]).precedes(s[parent(i)])
    &&& forall|i: int|
        0 < i < s.len() && parent(i) == at && at > 0 ==> !(#[trigger] s[i]).precedes(
            s[parent(at)],
        )
}

/// The heap order holds everywhere but between node `at` and the nodes below
/// it, and the nodes below `at` already respect the node above `at`.
spec fn ordered_while_sinking(s: Seq<Key>, at: int) -> bool {
    &&& forall|i: int|
        0 < i < s.len() && parent(i) != at ==> !(#[trigger] s[i]).precedes(s[parent(i)])
    &&& forall|i: int|
        0 < i < s.len() && parent(i) == at && at > 0 ==> !(#[trigger] s[i]).precedes(
            s[parent(at)],
        )
}

/// In a heap nothing comes before the root.
proof fn lemma_root_is_least(s: Seq<Key>, i: int)
    requires
        heap_ordered(s),
        0 <= i < s.len(),
    ensures
        !s[i].precedes(s[0]),
    decreases i,
{
    if i > 0 {
        lemma_root_is_least(s, parent(i));
    }
}

/// Exchanging two items of a sequence keeps what it holds.
proof fn lemma_exchange_keeps_items(s: Seq<Key>, i: int, j: int)
    requires
        0 <= i < s.len(),
        0 <= j < s.len(),
    ensures
        s.update(i, s[j]).update(j, s[i]).to_multiset() == s.to_multiset(),
{
    broadcast use vstd::seq_lib::group_to_multiset_ensures;

    let a = s[i];
    let b = s[j];
    let s1 = s.update(i, b);
    let s2 = s1.update(j, a);
    if i == j {
        assert(s2 =~= s);
    } else {
        assert(s1 =~= s.remove(i).insert(i, b));
        assert(s2 =~= s1.remove(j).insert(j, a));
        assert(s[i] == a && s1[j] == b);
        assert(s.remove(i).to_multiset() == s.to_multiset().remove(a));
        assert(s1.to_multiset() == s.to_multiset().remove(a).insert(b));
        assert(s1.remove(j).to_multiset() == s1.to_multiset().remove(b));
        assert(s2.to_multiset() == s1.to_multiset().remove(b).insert(a));
        assert(s2.to_multiset() =~= s.to_multiset());
    }
}

/// Moving the last item to the front and dropping the end takes the first
/// item out and keeps the others.
proof fn lemma_take_first_keeps_others(s: Seq<Key>)
    requires
        s.len() > 0,
    ensures
        s.update(0, s.last()).drop_last().to_multiset() == s.to_multiset().remove(s[0]),
{
    let last = s.len() - 1;
    let swapped = s.update(0, s[last]).update(last, s[0]);
    lemma_exchange_keeps_items(s, 0, last);
    vstd::seq_lib::to_multiset_remove(swapped, last);
    assert(swapped.remove(last) =~= s.update(0, s.last()).drop_last());
}

/// Once the last item of a heap has taken the place of the first, only the
/// root can be out of order.
proof fn lemma_take_first_leaves_root(s: Seq<Key>)
    requires
        heap_ordered(s),
        s.len() > 0,
    ensures
        ordered_while_sinking(s.update(0, s.last()).drop_last(), 0),
{
    let t = s.update(0, s.last()).drop_last();
    assert forall|i: int| 0 < i < t.len() && parent(i) != 0 implies !(#[trigger] t[i]).precedes(
        t[parent(i)],
    ) by {
        assert(t[i] == s[i]);
        assert(t[parent(i)] == s[parent(i)]);
    }
}

/// The first item of a heap is one of its items, and none precedes it.
proof fn lemma_first_is_least(s: Seq<Key>)
    requires
        heap_ordered(s),
        s.len() > 0,
    ensures
        s.to_multiset().contains(s[0]),
        forall|other: Key| s.to_multiset().contains(other) ==> !other.precedes(s[0]),
{
    broadcast use vstd::seq_lib::group_to_multiset_ensures;

    assert(s.contains(s[0]));
    assert forall|other: Key| s.to_multiset().contains(other) implies !other.precedes(s[0]) by {
        assert(s.contains(other));
        let i = choose|i: int| 0 <= i < s.len() && s[i] == other;
        lemma_root_is_least(s, i);
    }
}

/// A priority queue of keys that always yields the key that precedes the
/// others.
pub struct Queue {
    items: Vec<Key>,
}

impl View for Queue {
    type V = Multiset<Key>;

    /// The keys that the queue holds, each as often as it was inserted.
    closed spec fn view(&self) -> Multiset<Key> {
        self.items@.to_multiset()
    }
}

impl Queue {
    /// The items are laid out as a heap.
    pub closed spec fn wf(&self) -> bool {
        heap_ordered(self.items@)
    }

    /// `key` is in the queue and no key of the queue precedes it.
    pub open spec fn is_least(&self, key: Key) -> bool {
        &&& self@.contains(key)
        &&& forall|other: Key| #[trigger] self@.contains(other) ==> !other.precedes(key)
    }

    /// An empty queue.
    pub fn new() -> (q: Queue)
        ensures
            q.wf(),
            q@ == Multiset::<Key>::empty(),
    {
        let q = Queue { items: Vec::new() };
        proof {
            broadcast use vstd::seq_lib::group_to_multiset_ensures;

            assert(q.items@.to_multiset().len() == 0);
            assert(q@ =~= Multiset::<Key>::empty());
        }
        q
    }

    /// The number of keys in the queue.
    pub fn len(&self) -> (n: usize)
        ensures
            n == self@.len(),
    {
        proof {
            broadcast use vstd::seq_lib::group_to_multiset_ensures;

        }
        self.items.len()
    }

    /// Whether the queue holds no key.
    pub fn is_empty(&self) -> (b: bool)
        ensures
            b == (self@.len() == 0),
    {
        self.len() == 0
    }

    fn exchange(&mut self, i: usize, j: usize)
        requires
            i < old(self).items@.len(),
            j < old(self).items@.len(),
        ensures
            final(self).items@ == old(self).items@.update(i as int, old(self).items@[j as int]).update(
                j as int,
                old(self).items@[i as int],
            ),
            final(self)@ == old(self)@,
    {
        let a: Key = self.items[i];
        let b: Key = self.items[j];
        self.items[i] = b;
        self.items[j] = a;
        proof {
            lemma_exchange_keeps_items(old(self).items@, i as int, j as int);
        }
    }

    fn rises(&self, i: usize) -> (b: bool)
        requires
            0 < i < self.items@.len(),
        ensures
            b == self.items@[i as int].precedes(self.items@[parent(i as int)]),
    {
        self.items[i].before(&self.items[(i - 1) / 2])
    }

    /// Puts `key` into the queue.
    pub fn insert(&mut self, key: Key)
        requires
            old(self).wf(),
        ensures
            final(self).wf(),
            final(self)@ == old(self)@.insert(key),
    {
        self.items.push(key);
        proof {
            broadcast use vstd::seq_lib::group_to_multiset_ensures;

        }
        let mut i: usize = self.items.len() - 1;
        while i > 0 && self.rises(i)
            invariant
                i < self.items@.len(),
                self@ == old(self)@.insert(key),
                ordered_while_rising(self.items@, i as int),
            decreases i,
        {
            let above: usize = (i - 1) / 2;
            self.exchange(i, above);
            i = above;
        }
    }

    /// The key that would leave the queue next.
    pub fn peek_min(&self) -> (r: Option<Key>)
        requires
            self.wf(),
        ensures
            match r {
                Some(key) => self.is_least(key),
                None => self@.len() == 0,
            },
    {
        if self.items.len() == 0 {
            proof {
                vstd::seq_lib::to_multiset_len(self.items@);
            }
            None
        } else {
            proof {
                lemma_first_is_least(self.items@);
            }
            Some(self.items[0])
        }
    }

    /// The index of the node below `i` that precedes the other one below `i`.
    fn lesser_below(&self, i: usize) -> (c: usize)
        requires
            i < self.items@.len() / 2,
        ensures
            c < self.items@.len(),
            parent(c as int) == i,
            forall|d: int|
                0 < d < self.items@.len() && parent(d) == i ==> !(#[trigger] self.items@[d]).precedes(
                    self.items@[c as int],
                ),
    {
        let n: usize = self.items.len();
        let left: usize = 2 * i + 1;
        if left + 1 < n && self.items[left + 1].before(&self.items[left]) {
            left + 1
        } else {
            left
        }
    }

    /// Lets the root sink to its place.
    fn settle_root(&mut self)
        requires
            ordered_while_sinking(old(self).items@, 0),
        ensures
            final(self).wf(),
            final(self)@ == old(self)@,
    {
        let n: usize = self.items.len();
        let mut i: usize = 0;
        while i < n / 2
            invariant
                n == self.items@.len(),
                self@ == old(self)@,
                ordered_while_sinking(self.items@, i as int),
            ensures
                heap_ordered(self.items@),
            decreases n - i,
        {
            let below: usize = self.lesser_below(i);
            if !self.items[below].before(&self.items[i]) {
                break;
            }
            self.exchange(i, below);
            i = below;
        }
    }

    /// Takes the least key out of the queue.
    pub fn pop_min(&mut self) -> (r: Option<Key>)
        requires
            old(self).wf(),
        ensures
            final(self).wf(),
            match r {
                Some(key) => old(self).is_least(key) && final(self)@ == old(self)@.remove(key),
                None => old(self)@.len() == 0 && final(self)@ == old(self)@,
            },
    {
        if self.items.len() == 0 {
            proof {
                vstd::seq_lib::to_multiset_len(self.items@);
            }
            return None;
        }
        let key: Key = self.items.swap_remove(0);
        proof {
            lemma_first_is_least(old(self).items@);
            lemma_take_first_keeps_others(old(self).items@);
            lemma_take_first_leaves_root(old(self).items@);
        }
        self.settle_root();
        Some(key)
    }
}

} // verus!
