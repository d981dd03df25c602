//! The queue of circle events, ordered by their sweep key.
//!
//! A key is the sweep angle at which the event fires, in any encoding whose
//! integer order is the order of the angles. Events with equal keys leave in
//! the order they were pushed. A cancelled event stays in the queue; the
//! sweep discards it when it leaves.
use crate::beach::Arc;
use vstd::prelude::*;

verus! {

/// A scheduled disappearance of `arc` at the sweep key `key`. `order` counts
/// the pushes: no two events of one queue share it.
#[derive(Clone, Copy)]
pub struct CircleEvent {
    pub key: u64,
    pub order: u64,
    pub arc: Arc,
}

/// Whether `a` leaves the queue before `b`.
pub open spec fn precedes(a: CircleEvent, b: CircleEvent) -> bool {
    a.key < b.key || (a.key == b.key && a.order < b.order)
}

/// The position of the parent of `i` in a binary heap.
pub open spec fn parent(i: int) -> int {
    (i - 1) / 2
}

/// Whether no two events of `s` share an `order`.
pub open spec fn orders_distinct(s: Seq<CircleEvent>) -> bool {
    forall|i: int, j: int|
        0 <= i < s.len() && 0 <= j < s.len() && i != j ==> (#[trigger] s[i]).order != (#[trigger] s[j]).order
}

/// `s` with the items at `i` and `j` exchanged.
pub open spec fn swapped(s: Seq<CircleEvent>, i: int, j: int) -> Seq<CircleEvent> {
    s.update(i, s[j]).update(j, s[i])
}

/// Exchanging two items keeps the items and their distinct orders.
proof fn lemma_swapped(s: Seq<CircleEvent>, i: int, j: int)
    requires
        0 <= i < s.len(),
        0 <= j < s.len(),
        orders_distinct(s),
    ensures
        swapped(s, i, j).to_set() == s.to_set(),
        orders_distinct(swapped(s, i, j)),
        swapped(s, i, j).len() == s.len(),
{
    let t = swapped(s, i, j);
    let m = |k: int| if k == i { j } else if k == j { i } else { k };
    assert forall|k: int| 0 <= k < t.len() implies #[trigger] t[k] == s[m(k)] by {}
    assert forall|x: CircleEvent| t.to_set().contains(x) <==> s.to_set().contains(x) by {
        if t.contains(x) {
            let k = choose|k: int| 0 <= k < t.len() && t[k] == x;
            assert(s[m(k)] == x);
        }
        if s.contains(x) {
            let k = choose|k: int| 0 <= k < s.len() && s[k] == x;
            assert(t[m(k)] == x);
        }
    }
    assert(t.to_set() =~= s.to_set());
    assert forall|a: int, b: int| 0 <= a < t.len() && 0 <= b < t.len() && a != b implies (#[trigger] t[a]).order
        != (#[trigger] t[b]).order by {
        assert(t[a] == s[m(a)] && t[b] == s[m(b)]);
    }
}

/// In a queue whose events have distinct orders, `precedes` orders any two
/// distinct events one way.
proof fn lemma_total(a: CircleEvent, b: CircleEvent)
    requires
        a.order != b.order,
    ensures
        precedes(a, b) || precedes(b, a),
{
}

/// Circle events waiting to fire, kept as a binary min-heap.
pub struct EventQueue {
    events: Vec<CircleEvent>,
    next_order: u64,
}

impl View for EventQueue {
    type V = Set<CircleEvent>;

    closed spec fn view(&self) -> Set<CircleEvent> {
        self.events@.to_set()
    }
}

impl EventQueue {
    pub closed spec fn wf(&self) -> bool {
        let e = self.events@;
        &&& forall|i: int| 0 <= i < e.len() ==> (#[trigger] e[i]).order < self.next_order
        &&& orders_distinct(e)
        &&& forall|i: int| 0 < i < e.len() ==> precedes(e[parent(i)], #[trigger] e[i])
    }

    /// How many events are queued.
    pub closed spec fn size(&self) -> nat {
        self.events@.len()
    }

    /// The `order` that the next push hands out.
    pub closed spec fn spec_next_order(&self) -> u64 {
        self.next_order
    }

    /// The root of a heap leaves first.
    proof fn lemma_root_first(&self)
        requires
            self.wf(),
        ensures
            forall|i: int| 0 < i < self.events@.len() ==> precedes(self.events@[0], #[trigger] self.events@[i]),
    {
        let e = self.events@;
        assert forall|i: int| 0 < i < e.len() implies precedes(e[0], #[trigger] e[i]) by {
            self.lemma_root_before(i);
        }
    }

    proof fn lemma_root_before(&self, i: int)
        requires
            self.wf(),
            0 < i < self.events@.len(),
        ensures
            precedes(self.events@[0], self.events@[i]),
        decreases i,
    {
        let p = parent(i);
        assert(precedes(self.events@[p], self.events@[i]));
        if p > 0 {
            self.lemma_root_before(p);
        }
    }

    pub fn new() -> (r: Self)
        ensures
            r.wf(),
            r@ == Set::<CircleEvent>::empty(),
            r.spec_next_order() == 0,
    {
        let r = EventQueue { events: Vec::new(), next_order: 0 };
        assert(r@ =~= Set::<CircleEvent>::empty());
        r
    }

    pub fn is_empty(&self) -> (r: bool)
        requires
            self.wf(),
        ensures
            r == (self@ == Set::<CircleEvent>::empty()),
    {
        proof {
            if self.events@.len() > 0 {
                assert(self@.contains(self.events@[0]));
            } else {
                assert(self@ =~= Set::<CircleEvent>::empty());
            }
        }
        self.events.len() == 0
    }

    /// The `order` that the next push hands out.
    pub fn next_order(&self) -> (r: u64)
        ensures
            r == self.spec_next_order(),
    {
        self.next_order
    }

    fn swap(&mut self, i: usize, j: usize)
        requires
            i < old(self).events@.len(),
            j < old(self).events@.len(),
        ensures
            final(self).events@ == swapped(old(self).events@, i as int, j as int),
            final(self).next_order == old(self).next_order,
    {
        let a = self.events[i];
        let b = self.events[j];
        self.events.set(i, b);
        self.events.set(j, a);
    }

    /// Schedules `arc` at `key`; returns the event's `order`.
    pub fn push(&mut self, key: u64, arc: Arc) -> (r: u64)
        requires
            old(self).wf(),
            old(self).spec_next_order() < u64::MAX,
        ensures
            final(self).wf(),
            r == old(self).spec_next_order(),
            final(self).spec_next_order() == old(self).spec_next_order() + 1,
            final(self)@ == old(self)@.insert(CircleEvent { key, order: r, arc }),
            forall|e: CircleEvent| old(self)@.contains(e) ==> e.order < r,
            final(self).size() == old(self).size() + 1,
    {
        let order = self.next_order;
        let ghost before = self.events@;
        let item = CircleEvent { key, order, arc };
        self.events.push(item);
        self.next_order = order + 1;
        proof {
            assert(self.events@ == before.push(item));
            assert forall|x: CircleEvent| self.events@.contains(x) <==> (before.contains(x) || x == item) by {
                if self.events@.contains(x) {
                    let k = choose|k: int| 0 <= k < self.events@.len() && self.events@[k] == x;
                    if k < before.len() {
                        assert(before[k] == x);
                    }
                }
                if before.contains(x) {
                    let k = choose|k: int| 0 <= k < before.len() && before[k] == x;
                    assert(self.events@[k] == x);
                }
                if x == item {
                    assert(self.events@[before.len() as int] == x);
                }
            }
            assert forall|x: CircleEvent| self.events@.to_set().contains(x) <==> before.to_set().insert(item).contains(x) by {
                assert(self.events@.to_set().contains(x) == self.events@.contains(x));
                assert(before.to_set().contains(x) == before.contains(x));
            }
            assert(self.events@.to_set() =~= before.to_set().insert(item));
            assert forall|x: CircleEvent| old(self)@.contains(x) implies x.order < order by {
                let k = choose|k: int| 0 <= k < before.len() && before[k] == x;
            }
            assert(orders_distinct(self.events@)) by {
                assert forall|a: int, b: int|
                    0 <= a < self.events@.len() && 0 <= b < self.events@.len() && a != b implies (#[trigger] self.events@[a]).order
                    != (#[trigger] self.events@[b]).order by {
                    if a < before.len() && b < before.len() {
                        assert(before[a] == self.events@[a] && before[b] == self.events@[b]);
                    } else if a < before.len() {
                        assert(before[a].order < order);
                    } else {
                        assert(before[b].order < order);
                    }
                }
            }
        }
        let mut i: usize = self.events.len() - 1;
        let mut done = false;
        while !done
            invariant
                0 <= i < self.events@.len(),
                self.events@.len() == before.len() + 1,
                self.next_order == order + 1,
                self.events@.to_set() == before.to_set().insert(item),
                orders_distinct(self.events@),
                forall|j: int| 0 <= j < self.events@.len() ==> (#[trigger] self.events@[j]).order < self.next_order,
                forall|j: int|
                    0 < j < self.events@.len() && j != i ==> precedes(self.events@[parent(j)], #[trigger] self.events@[j]),
                forall|j: int|
                    0 < j < self.events@.len() && i > 0 && parent(j) == i ==> precedes(
                        self.events@[parent(i as int)],
                        #[trigger] self.events@[j],
                    ),
                done ==> i == 0 || !precedes(self.events@[i as int], self.events@[parent(i as int)]),
            decreases i + (if done { 0int } else { 1int }),
        {
            if i == 0 {
                done = true;
                continue;
            }
            let p = (i - 1) / 2;
            let e = self.events[i];
            let q = self.events[p];
            if !(e.key < q.key || (e.key == q.key && e.order < q.order)) {
                done = true;
                continue;
            }
            let ghost e0 = self.events@;
            proof {
                lemma_swapped(e0, i as int, p as int);
            }
            self.swap(i, p);
            proof {
                let e1 = self.events@;
                assert forall|j: int| 0 <= j < e1.len() implies (#[trigger] e1[j]).order < self.next_order by {
                    if j == i {
                        assert(e1[j] == e0[p as int]);
                    } else if j == p {
                        assert(e1[j] == e0[i as int]);
                    } else {
                        assert(e1[j] == e0[j]);
                    }
                }
                assert forall|j: int|
                    0 < j < e1.len() && j != p implies precedes(e1[parent(j)], #[trigger] e1[j]) by {
                    if 0 < j < e1.len() && j != p {
                        if j == i {
                            assert(e1[j] == e0[p as int]);
                            assert(e1[parent(j)] == e0[i as int]);
                        } else if parent(j) == i {
                            assert(e1[parent(j)] == e0[p as int]);
                            assert(e1[j] == e0[j]);
                        } else if parent(j) == p {
                            assert(e1[parent(j)] == e0[i as int]);
                            assert(e1[j] == e0[j]);
                            assert(precedes(e0[p as int], e0[j]));
                        } else {
                            assert(e1[j] == e0[j]);
                            assert(e1[parent(j)] == e0[parent(j)]);
                        }
                    }
                }
                assert forall|j: int|
                    0 < j < e1.len() && p > 0 && parent(j) == p implies precedes(
                        e1[parent(p as int)],
                        #[trigger] e1[j],
                    ) by {
                    if 0 < j < e1.len() && p > 0 && parent(j) == p {
                        assert(e1[parent(p as int)] == e0[parent(p as int)]);
                        if j == i {
                            assert(e1[j] == e0[p as int]);
                        } else {
                            assert(e1[j] == e0[j]);
                            assert(precedes(e0[p as int], e0[j]));
                        }
                    }
                }
            }
            i = p;
        }
        proof {
            let e = self.events@;
            assert forall|j: int| 0 < j < e.len() implies precedes(e[parent(j)], #[trigger] e[j]) by {
                if j == i {
                    let pe = e[parent(j)];
                    let ce = e[j];
                    assert(pe.order != ce.order);
                    lemma_total(pe, ce);
                }
            }
        }
        order
    }

    /// The event that leaves next, if any, left in the queue.
    pub fn peek(&self) -> (r: Option<CircleEvent>)
        requires
            self.wf(),
        ensures
            self@ == Set::<CircleEvent>::empty() <==> r.is_none(),
            r.is_some() ==> {
                &&& self@.contains(r.unwrap())
                &&& forall|e: CircleEvent| #[trigger]
                    self@.contains(e) && e != r.unwrap() ==> precedes(r.unwrap(), e)
            },
    {
        if self.events.len() == 0 {
            assert(self@ =~= Set::<CircleEvent>::empty());
            return None;
        }
        let r = self.events[0];
        proof {
            self.lemma_root_first();
            assert(self@.contains(r));
            assert forall|e: CircleEvent| #[trigger] self@.contains(e) && e != r implies precedes(r, e) by {
                let k = choose|k: int| 0 <= k < self.events@.len() && self.events@[k] == e;
                assert(k != 0);
            }
        }
        Some(r)
    }

    #[verifier::rlimit(80)]
    /// The event that leaves next, if any, taken out of the queue.
    pub fn pop(&mut self) -> (r: Option<CircleEvent>)
        requires
            old(self).wf(),
        ensures
            final(self).wf(),
            final(self).spec_next_order() == old(self).spec_next_order(),
            old(self)@ == Set::<CircleEvent>::empty() <==> r.is_none(),
            r.is_none() ==> final(self)@ == old(self)@,
            r.is_some() ==> final(self).size() + 1 == old(self).size(),
            r.is_some() ==> {
                &&& old(self)@.contains(r.unwrap())
                &&& forall|e: CircleEvent| #[trigger]
                    old(self)@.contains(e) && e != r.unwrap() ==> precedes(r.unwrap(), e)
                &&& final(self)@ == old(self)@.remove(r.unwrap())
            },
    {
        let n = self.events.len();
        if n == 0 {
            assert(self@ =~= Set::<CircleEvent>::empty());
            return None;
        }
        let first = self.events[0];
        let ghost before = self.events@;
        proof {
            self.lemma_root_first();
            assert(old(self)@.contains(first));
            assert forall|x: CircleEvent| #[trigger] old(self)@.contains(x) && x != first implies precedes(first, x) by {
                let k = choose|k: int| 0 <= k < before.len() && before[k] == x;
                assert(k != 0);
            }
        }
        proof {
            lemma_swapped(before, 0, n - 1);
        }
        self.swap(0, n - 1);
        let ghost swapped_events = self.events@;
        let last = self.events.pop().unwrap();
        proof {
            let e = self.events@;
            assert(last == first);
            assert(e == swapped_events.drop_last());
            assert forall|x: CircleEvent| e.contains(x) <==> (before.contains(x) && x != first) by {
                if e.contains(x) {
                    let k = choose|k: int| 0 <= k < e.len() && e[k] == x;
                    assert(swapped_events[k] == x);
                    assert(swapped_events.contains(x));
                    assert(swapped_events[n - 1] == first);
                    assert(swapped_events[k].order != swapped_events[n - 1].order);
                }
                if before.contains(x) && x != first {
                    assert(before.to_set().contains(x));
                    assert(swapped_events.to_set().contains(x));
                    let k = choose|k: int| 0 <= k < swapped_events.len() && swapped_events[k] == x;
                    assert(k != n - 1);
                    assert(e[k] == x);
                }
            }
            assert(e.to_set() =~= before.to_set().remove(first));
            assert(orders_distinct(e)) by {
                assert forall|a: int, b: int| 0 <= a < e.len() && 0 <= b < e.len() && a != b implies (#[trigger] e[a]).order
                    != (#[trigger] e[b]).order by {
                    assert(e[a] == swapped_events[a] && e[b] == swapped_events[b]);
                }
            }
            assert forall|j: int| 0 <= j < e.len() implies (#[trigger] e[j]).order < self.next_order by {
                assert(e[j] == swapped_events[j]);
                if j == 0 {
                    assert(swapped_events[0] == before[n - 1]);
                } else {
                    assert(swapped_events[j] == before[j]);
                }
            }
            assert forall|j: int| 0 < j < e.len() && parent(j) != 0 implies precedes(e[parent(j)], #[trigger] e[j]) by {
                assert(e[j] == before[j]);
                assert(e[parent(j)] == before[parent(j)]);
            }
        }
        let len = self.events.len();
        let mut i: usize = 0;
        let mut done = false;
        while !done
            invariant
                i < len || (len == 0 && i == 0),
                self.events@.len() == len,
                self.next_order == old(self).next_order,
                self.events@.to_set() == before.to_set().remove(first),
                orders_distinct(self.events@),
                forall|j: int| 0 <= j < self.events@.len() ==> (#[trigger] self.events@[j]).order < self.next_order,
                forall|j: int|
                    0 < j < self.events@.len() && parent(j) != i ==> precedes(self.events@[parent(j)], #[trigger] self.events@[j]),
                forall|j: int|
                    0 < j < self.events@.len() && i > 0 && parent(j) == i ==> precedes(
                        self.events@[parent(i as int)],
                        #[trigger] self.events@[j],
                    ),
                done ==> forall|j: int|
                    0 < j < self.events@.len() && parent(j) == i ==> precedes(self.events@[i as int], #[trigger] self.events@[j]),
            decreases len - i + (if done { 0int } else { 1int }),
        {
            if len == 0 || i > (len - 1) / 2 {
                done = true;
                continue;
            }
            let left = 2 * i + 1;
            if left >= len {
                done = true;
                continue;
            }
            let right = left + 1;
            let mut child = left;
            if right < len {
                let l = self.events[left];
                let r = self.events[right];
                if r.key < l.key || (r.key == l.key && r.order < l.order) {
                    child = right;
                }
            }
            let c = self.events[child];
            let h = self.events[i];
            if !(c.key < h.key || (c.key == h.key && c.order < h.order)) {
                proof {
                    let e = self.events@;
                    assert forall|j: int| 0 < j < e.len() && parent(j) == i implies precedes(e[parent(j)], #[trigger] e[j]) by {
                        assert(j == left || j == right);
                        lemma_total(e[i as int], e[child as int]);
                        if j != child {
                            lemma_total(e[left as int], e[right as int]);
                        }
                    }
                }
                done = true;
                continue;
            }
            let ghost e0 = self.events@;
            proof {
                lemma_swapped(e0, i as int, child as int);
                assert forall|j: int| 0 < j < e0.len() && parent(j) == i implies precedes(e0[child as int], #[trigger] e0[j]) || j == child by {
                    if j != child {
                        lemma_total(e0[left as int], e0[right as int]);
                    }
                }
            }
            self.swap(i, child);
            proof {
                let e1 = self.events@;
                assert(parent(child as int) == i);
                assert forall|j: int| 0 <= j < e1.len() implies (#[trigger] e1[j]).order < self.next_order by {
                    if j == i {
                        assert(e1[j] == e0[child as int]);
                    } else if j == child {
                        assert(e1[j] == e0[i as int]);
                    } else {
                        assert(e1[j] == e0[j]);
                    }
                }
                assert forall|j: int|
                    0 < j < e1.len() && parent(j) != child implies precedes(e1[parent(j)], #[trigger] e1[j]) by {
                    if 0 < j < e1.len() && parent(j) != child {
                        if j == child {
                            assert(e1[j] == e0[i as int]);
                            assert(e1[parent(j)] == e0[child as int]);
                        } else if j == i {
                            assert(e1[j] == e0[child as int]);
                            assert(e1[parent(j)] == e0[parent(j)]);
                        } else if parent(j) == i {
                            assert(e1[parent(j)] == e0[child as int]);
                            assert(e1[j] == e0[j]);
                        } else {
                            assert(e1[j] == e0[j]);
                            assert(e1[parent(j)] == e0[parent(j)]);
                        }
                    }
                }
                assert forall|j: int|
                    0 < j < e1.len() && parent(j) == child implies precedes(e1[parent(child as int)], #[trigger] e1[j]) by {
                    if 0 < j < e1.len() && parent(j) == child {
                        assert(e1[parent(child as int)] == e0[child as int]);
                        assert(e1[j] == e0[j]);
                    }
                }
            }
            i = child;
        }
        proof {
            let e = self.events@;
            assert forall|j: int| 0 < j < e.len() implies precedes(e[parent(j)], #[trigger] e[j]) by {
                if parent(j) == i {
                    assert(precedes(e[i as int], e[j]));
                }
            }
        }
        Some(first)
    }

    /// Removes every event; `order` keeps counting.
    pub fn clear(&mut self)
        requires
            old(self).wf(),
        ensures
            final(self).wf(),
            final(self)@ == Set::<CircleEvent>::empty(),
            final(self).spec_next_order() == old(self).spec_next_order(),
    {
        self.events.clear();
        assert(self@ =~= Set::<CircleEvent>::empty());
    }
}

} // verus!
