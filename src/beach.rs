//! The beach line: the cyclic sequence of arcs under the sweep.
//!
//! Arcs live in an arena and are linked to their neighbours both ways. The
//! ghost sequence `order` is the cyclic order of the live arcs, starting at
//! `head`. Handles are never reused within one sweep.
use crate::diagram::{Cell, Vertex};
use crate::id::Id;
use vstd::prelude::*;

verus! {

/// Where the boundary between an arc and the next one began.
#[derive(Clone, Copy)]
pub enum ArcStart {
    /// No boundary began yet: the arc of the first site.
    Unknown,
    /// A vertex that the sweep has already emitted.
    Vertex(Vertex),
    /// A slot of the temporary table, shared with the neighbour that was
    /// created together with this arc.
    Temporary(usize),
}

/// What the beach line keeps of one arc.
#[derive(Clone, Copy)]
pub struct ArcData {
    /// The cell whose site is this arc's focus.
    pub cell: Cell,
    /// Where the boundary between this arc and the next one began.
    pub start: ArcStart,
    /// Whether a circle event is scheduled for this arc.
    pub is_valid: bool,
    /// The `order` of the scheduled circle event, if one is.
    pub event: u64,
}

pub type Arc = Id<ArcData>;

#[derive(Clone, Copy)]
struct Node {
    data: ArcData,
    prev: usize,
    next: usize,
    live: bool,
}

/// The position after `i` in a cyclic sequence of length `n`.
pub open spec fn succ(i: int, n: int) -> int {
    if i + 1 >= n {
        0
    } else {
        i + 1
    }
}

/// The position before `i` in a cyclic sequence of length `n`.
pub open spec fn pred(i: int, n: int) -> int {
    if i <= 0 {
        n - 1
    } else {
        i - 1
    }
}

/// The position of `a` in `s`.
pub open spec fn pos(s: Seq<usize>, a: usize) -> int {
    choose|i: int| 0 <= i < s.len() && s[i] == a
}

/// The beach line: the live arcs in cyclic order, each linked to the arcs
/// before and after it.
pub struct Beach {
    nodes: Vec<Node>,
    head: usize,
    len: usize,
    order: Ghost<Seq<usize>>,
}

impl View for Beach {
    type V = Seq<usize>;

    /// The handles of the live arcs in cyclic order.
    closed spec fn view(&self) -> Seq<usize> {
        self.order@
    }
}

impl Beach {
    /// The arena's well-formedness: the links follow the cyclic order.
    pub closed spec fn wf(&self) -> bool {
        let o = self.order@;
        let n = o.len() as int;
        &&& o.no_duplicates()
        &&& self.len == n
        &&& self.len <= self.nodes@.len()

        &&& forall|i: int| 0 <= i < n ==> (#[trigger] o[i]) < self.nodes@.len()
        &&& forall|a: int|
            0 <= a < self.nodes@.len() ==> ((#[trigger] self.nodes@[a]).live <==> o.contains(
                a as usize,
            ))
        &&& n > 0 ==> self.head == o[0]
        &&& forall|i: int| 0 <= i < n ==> (#[trigger] self.nodes@[o[i] as int]).next == o[succ(i, n)]
        &&& forall|i: int| 0 <= i < n ==> (#[trigger] self.nodes@[o[i] as int]).prev == o[pred(i, n)]
    }

    /// How many arcs were ever created in this sweep.
    pub closed spec fn created(&self) -> nat {
        self.nodes@.len()
    }

    /// What the beach line keeps of the arc `a`.
    pub closed spec fn data(&self, a: usize) -> ArcData {
        if a < self.nodes@.len() {
            self.nodes@[a as int].data
        } else {
            arbitrary()
        }
    }

    /// Whether `arc` is on the beach line.
    pub open spec fn has(&self, arc: Arc) -> bool {
        self@.contains(arc.spec_index())
    }

    /// The arc after `arc` in cyclic order.
    pub open spec fn spec_next(&self, arc: Arc) -> usize {
        self@[succ(pos(self@, arc.spec_index()), self@.len() as int)]
    }

    /// The arc before `arc` in cyclic order.
    pub open spec fn spec_prev(&self, arc: Arc) -> usize {
        self@[pred(pos(self@, arc.spec_index()), self@.len() as int)]
    }

    pub fn new() -> (r: Self)
        ensures
            r.wf(),
            r@ == Seq::<usize>::empty(),
            r.created() == 0,
    {
        Beach {
            nodes: Vec::new(),
            head: usize::MAX,
            len: 0,
            order: Ghost(Seq::empty()),
        }
    }

    pub fn len(&self) -> (r: usize)
        requires
            self.wf(),
        ensures
            r == self@.len(),
    {
        self.len
    }

    proof fn lemma_pos(&self, arc: Arc)
        requires
            self.wf(),
            self.has(arc),
        ensures
            0 <= pos(self@, arc.spec_index()) < self@.len(),
            self@[pos(self@, arc.spec_index())] == arc.spec_index(),
            arc.spec_index() < self.nodes@.len(),
            self.nodes@[arc.spec_index() as int].next == self.spec_next(arc),
            self.nodes@[arc.spec_index() as int].prev == self.spec_prev(arc),
            self.has(Id::spec_new(self.spec_next(arc))),
            self.has(Id::spec_new(self.spec_prev(arc))),
    {
        let a = arc.spec_index();
        let o = self@;
        Id::<ArcData>::lemma_spec_new(self.spec_next(arc));
        Id::<ArcData>::lemma_spec_new(self.spec_prev(arc));
        let i = choose|i: int| 0 <= i < o.len() && o[i] == a;
        assert(0 <= i < o.len() && o[i] == a);
        let p = pos(o, a);
        assert(self.nodes@[o[p] as int].next == o[succ(p, o.len() as int)]);
        assert(self.nodes@[o[p] as int].prev == o[pred(p, o.len() as int)]);
        assert(o.contains(o[succ(p, o.len() as int)]));
        assert(o.contains(o[pred(p, o.len() as int)]));
    }

    /// Whether `arc` is on the beach line; any handle may be asked about.
    pub fn is_live(&self, arc: Arc) -> (r: bool)
        requires
            self.wf(),
        ensures
            r == self.has(arc),
    {
        let a = arc.index();
        if a < self.nodes.len() {
            self.nodes[a].live
        } else {
            proof {
                if self@.contains(a) {
                    let k = choose|k: int| 0 <= k < self@.len() && self@[k] == a;
                }
            }
            false
        }
    }

    /// How many arcs were created since the line was made or cleared.
    pub fn created_count(&self) -> (r: usize)
        ensures
            r == self.created(),
    {
        self.nodes.len()
    }

    /// Empties the line, ready for another sweep.
    pub fn clear(&mut self)
        ensures
            final(self).wf(),
            final(self)@ == Seq::<usize>::empty(),
            final(self).created() == 0,
    {
        self.nodes.clear();
        self.head = usize::MAX;
        self.len = 0;
        let ghost empty = Seq::<usize>::empty();
        self.order = Ghost(empty);
    }

    /// Every live arc was created in this sweep.
    pub proof fn lemma_members_below(&self)
        requires
            self.wf(),
        ensures
            forall|i: int| 0 <= i < self@.len() ==> #[trigger] self@[i] < self.created(),
    {
    }

    /// The position of a live arc is a position of the line.
    pub proof fn lemma_in_range(&self, arc: Arc)
        requires
            self.wf(),
            self.has(arc),
        ensures
            0 <= pos(self@, arc.spec_index()) < self@.len(),
            self@[pos(self@, arc.spec_index())] == arc.spec_index(),
    {
        self.lemma_pos(arc);
    }

    /// The arc at position `i` stands at position `i` alone.
    pub proof fn lemma_pos_at(&self, i: int)
        requires
            self.wf(),
            0 <= i < self@.len(),
        ensures
            pos(self@, self@[i]) == i,
    {
        assert(self@.contains(self@[i]));
    }

    /// No arc stands twice on the line.
    pub proof fn lemma_no_duplicates(&self)
        requires
            self.wf(),
        ensures
            self@.no_duplicates(),
    {
    }

    /// The arc after the arc before `arc` is `arc`.
    pub proof fn lemma_next_of_prev(&self, arc: Arc)
        requires
            self.wf(),
            self.has(arc),
        ensures
            self.spec_next(Id::spec_new(self.spec_prev(arc))) == arc.spec_index(),
    {
        self.lemma_pos(arc);
        let n = self@.len() as int;
        let p = pos(self@, arc.spec_index());
        let q = pred(p, n);
        Id::<ArcData>::lemma_spec_new(self.spec_prev(arc));
        self.lemma_pos_at(q);
    }

    /// On a line of two arcs, each follows the other.
    pub proof fn lemma_two(&self, a: Arc, b: Arc)
        requires
            self.wf(),
            self@.len() == 2,
            self.has(a),
            self.has(b),
            a.spec_index() != b.spec_index(),
        ensures
            self.spec_next(a) == b.spec_index(),
    {
        self.lemma_pos(a);
        self.lemma_pos(b);
    }

    /// The first arc in cyclic order, if any.
    pub fn first(&self) -> (r: Option<Arc>)
        requires
            self.wf(),
        ensures
            self@.len() == 0 <==> r.is_none(),
            r.is_some() ==> r.unwrap().spec_index() == self@[0],
    {
        if self.len == 0 {
            None
        } else {
            Some(Id::new(self.head))
        }
    }

    /// The arc after `arc`; in a line of one arc, the arc itself.
    pub fn next(&self, arc: Arc) -> (r: Arc)
        requires
            self.wf(),
            self.has(arc),
        ensures
            r.spec_index() == self.spec_next(arc),
            self.has(r),
    {
        proof {
            self.lemma_pos(arc);
        }
        Id::new(self.nodes[arc.index()].next)
    }

    /// The arc before `arc`; in a line of one arc, the arc itself.
    pub fn prev(&self, arc: Arc) -> (r: Arc)
        requires
            self.wf(),
            self.has(arc),
        ensures
            r.spec_index() == self.spec_prev(arc),
            self.has(r),
    {
        proof {
            self.lemma_pos(arc);
        }
        Id::new(self.nodes[arc.index()].prev)
    }

    /// The arcs before and after `arc`.
    pub fn neighbors(&self, arc: Arc) -> (r: (Arc, Arc))
        requires
            self.wf(),
            self.has(arc),
        ensures
            r.0.spec_index() == self.spec_prev(arc),
            r.1.spec_index() == self.spec_next(arc),
            self.has(r.0),
            self.has(r.1),
    {
        (self.prev(arc), self.next(arc))
    }

    /// The cell of `arc`.
    pub fn cell(&self, arc: Arc) -> (r: Cell)
        requires
            self.wf(),
            self.has(arc),
        ensures
            r == self.data(arc.spec_index()).cell,
    {
        proof {
            self.lemma_pos(arc);
        }
        self.nodes[arc.index()].data.cell
    }

    /// Where the boundary between `arc` and the next arc began.
    pub fn start(&self, arc: Arc) -> (r: ArcStart)
        requires
            self.wf(),
            self.has(arc),
        ensures
            r == self.data(arc.spec_index()).start,
    {
        proof {
            self.lemma_pos(arc);
        }
        self.nodes[arc.index()].data.start
    }

    /// Whether a circle event is scheduled for `arc`.
    pub fn is_valid(&self, arc: Arc) -> (r: bool)
        requires
            self.wf(),
            self.has(arc),
        ensures
            r == self.data(arc.spec_index()).is_valid,
    {
        proof {
            self.lemma_pos(arc);
        }
        self.nodes[arc.index()].data.is_valid
    }

    /// The `order` of the circle event last scheduled for `arc`.
    pub fn event(&self, arc: Arc) -> (r: u64)
        requires
            self.wf(),
            self.has(arc),
        ensures
            r == self.data(arc.spec_index()).event,
    {
        proof {
            self.lemma_pos(arc);
        }
        self.nodes[arc.index()].data.event
    }

    /// Replaces what is kept of `arc`; the order is left as it was.
    fn set_data(&mut self, arc: Arc, data: ArcData)
        requires
            old(self).wf(),
            old(self).has(arc),
        ensures
            final(self).wf(),
            final(self)@ == old(self)@,
            final(self).created() == old(self).created(),
            final(self).data(arc.spec_index()) == data,
            forall|a: usize| a != arc.spec_index() ==> final(self).data(a) == old(self).data(a),
    {
        proof {
            self.lemma_pos(arc);
        }
        let mut node = self.nodes[arc.index()];
        node.data = data;
        self.nodes.set(arc.index(), node);
        proof {
            let o = self@;
            let n = o.len() as int;
            assert forall|i: int| 0 <= i < n implies (#[trigger] self.nodes@[o[i] as int]).next == o[succ(i, n)] by {
                assert(old(self).nodes@[o[i] as int].next == o[succ(i, n)]);
            }
            assert forall|i: int| 0 <= i < n implies (#[trigger] self.nodes@[o[i] as int]).prev == o[pred(i, n)] by {
                assert(old(self).nodes@[o[i] as int].prev == o[pred(i, n)]);
            }
            assert forall|a: int| 0 <= a < self.nodes@.len() implies ((#[trigger] self.nodes@[a]).live <==> o.contains(a as usize)) by {
                assert(old(self).nodes@[a].live <==> o.contains(a as usize));
            }
            assert forall|a: usize| a != arc.spec_index() implies self.data(a) == old(self).data(a) by {
                if a < self.nodes@.len() {
                    assert(self.nodes@[a as int] == old(self).nodes@[a as int]);
                }
            }
        }
    }

    /// Records where the boundary between `arc` and the next arc began.
    pub fn set_start(&mut self, arc: Arc, start: ArcStart)
        requires
            old(self).wf(),
            old(self).has(arc),
        ensures
            final(self).wf(),
            final(self)@ == old(self)@,
            final(self).created() == old(self).created(),
            final(self).data(arc.spec_index()) == (ArcData { start, ..old(self).data(arc.spec_index()) }),
            forall|a: usize| a != arc.spec_index() ==> final(self).data(a) == old(self).data(a),
    {
        proof {
            self.lemma_pos(arc);
        }
        let mut data = self.nodes[arc.index()].data;
        data.start = start;
        self.set_data(arc, data);
    }

    /// Marks the circle event with `order` as scheduled for `arc`.
    pub fn attach(&mut self, arc: Arc, order: u64)
        requires
            old(self).wf(),
            old(self).has(arc),
        ensures
            final(self).wf(),
            final(self)@ == old(self)@,
            final(self).created() == old(self).created(),
            final(self).data(arc.spec_index()) == (ArcData {
                is_valid: true,
                event: order,
                ..old(self).data(arc.spec_index())
            }),
            forall|a: usize| a != arc.spec_index() ==> final(self).data(a) == old(self).data(a),
    {
        proof {
            self.lemma_pos(arc);
        }
        let mut data = self.nodes[arc.index()].data;
        data.is_valid = true;
        data.event = order;
        self.set_data(arc, data);
    }

    /// Cancels the circle event of `arc`, if one is scheduled.
    pub fn detach(&mut self, arc: Arc)
        requires
            old(self).wf(),
            old(self).has(arc),
        ensures
            final(self).wf(),
            final(self)@ == old(self)@,
            final(self).created() == old(self).created(),
            final(self).data(arc.spec_index()) == (ArcData { is_valid: false, ..old(self).data(arc.spec_index()) }),
            forall|a: usize| a != arc.spec_index() ==> final(self).data(a) == old(self).data(a),
    {
        proof {
            self.lemma_pos(arc);
        }
        let mut data = self.nodes[arc.index()].data;
        data.is_valid = false;
        self.set_data(arc, data);
    }

    #[verifier::rlimit(60)]
    /// Splices a new arc of `cell` in just after `arc`; with no arc given, the
    /// line must be empty and the new arc is its only one.
    pub fn insert_after(&mut self, arc: Option<Arc>, cell: Cell) -> (r: Arc)
        requires
            old(self).wf(),
            old(self).created() + 1 < usize::MAX,
            arc.is_none() <==> old(self)@.len() == 0,
            arc.is_some() ==> old(self).has(arc.unwrap()),
        ensures
            final(self).wf(),
            r.spec_index() == old(self).created(),
            final(self).created() == old(self).created() + 1,
            arc.is_none() ==> final(self)@ == seq![r.spec_index()],
            arc.is_some() ==> final(self)@ == old(self)@.insert(
                pos(old(self)@, arc.unwrap().spec_index()) + 1,
                r.spec_index(),
            ),
            final(self).data(r.spec_index()) == (ArcData {
                cell,
                start: ArcStart::Unknown,
                is_valid: false,
                event: 0,
            }),
            forall|a: usize| a < old(self).created() ==> final(self).data(a) == old(self).data(a),
    {
        let x = self.nodes.len();
        let data = ArcData { cell, start: ArcStart::Unknown, is_valid: false, event: 0 };
        let ghost o = self@;
        match arc {
            None => {
                self.nodes.push(Node { data, prev: x, next: x, live: true });
                self.head = x;
                self.len = 1;
                let ghost single = seq![x];
                self.order = Ghost(single);
                proof {
                    let o2 = self@;
                    assert(o2.no_duplicates());
                    assert forall|a: int| 0 <= a < self.nodes@.len() implies ((#[trigger] self.nodes@[a]).live <==> o2.contains(a as usize)) by {
                        if a < x {
                            assert(old(self).nodes@[a].live <==> o.contains(a as usize));
                            assert(!o2.contains(a as usize)) by {
                                if o2.contains(a as usize) {
                                    let k = choose|k: int| 0 <= k < o2.len() && o2[k] == a as usize;
                                    assert(k == 0);
                                }
                            }
                        } else {
                            assert(o2[0] == a as usize);
                        }
                    }
                    assert forall|a: usize| a < old(self).created() implies self.data(a) == old(self).data(a) by {
                        assert(self.nodes@[a as int] == old(self).nodes@[a as int]);
                    }
                }
            },
            Some(a) => {
                proof {
                    self.lemma_pos(a);
                }
                let ai = a.index();
                let b = self.nodes[ai].next;
                let ghost p = pos(o, ai);
                let ghost n = o.len() as int;
                self.nodes.push(Node { data, prev: ai, next: b, live: true });
                let mut na = self.nodes[ai];
                na.next = x;
                self.nodes.set(ai, na);
                let mut nb = self.nodes[b];
                nb.prev = x;
                self.nodes.set(b, nb);
                self.len = self.len + 1;
                let ghost inserted = o.insert(p + 1, x);
                self.order = Ghost(inserted);
                proof {
                    let o2 = self@;
                    let nodes = self.nodes@;
                    let old_nodes = old(self).nodes@;
                    assert(o2.len() == n + 1);
                    assert forall|i: int| 0 <= i <= n implies #[trigger] o2[i] == (if i <= p {
                        o[i]
                    } else if i == p + 1 {
                        x
                    } else {
                        o[i - 1]
                    }) by {}
                    assert forall|i: int, j: int| 0 <= i < j <= n implies o2[i] != o2[j] by {
                        if i <= p && j == p + 1 {
                            assert(o[i] < x);
                        } else if i == p + 1 {
                            assert(o[j - 1] < x);
                        }
                    }
                    assert(o2.no_duplicates());
                    assert forall|c: int| 0 <= c < x && c != ai && c != b implies nodes[c] == old_nodes[c] by {}
                    assert forall|c: usize| c < x implies (o2.contains(c) <==> o.contains(c)) by {
                        if o.contains(c) {
                            let k = choose|k: int| 0 <= k < n && o[k] == c;
                            if k <= p {
                                assert(o2[k] == c);
                            } else {
                                assert(o2[k + 1] == c);
                            }
                        }
                        if o2.contains(c) {
                            let k = choose|k: int| 0 <= k <= n && o2[k] == c;
                            if k <= p {
                                assert(o[k] == c);
                            } else if k == p + 1 {
                                assert(false);
                            } else {
                                assert(o[k - 1] == c);
                            }
                        }
                    }
                    assert(o2[p + 1] == x);
                    assert forall|c: int| 0 <= c < nodes.len() implies ((#[trigger] nodes[c]).live <==> o2.contains(c as usize)) by {
                        if c < x {
                            assert(old_nodes[c].live <==> o.contains(c as usize));
                            assert(nodes[c].live == old_nodes[c].live);
                        }
                    }
                    assert(o[p] == ai);
                    assert(b == o[succ(p, n)]);
                    assert forall|i: int| 0 <= i <= n implies (#[trigger] nodes[o2[i] as int]).next == o2[succ(i, n + 1)] by {
                        if i < p {
                            assert(o[i] != ai);
                            assert(old_nodes[o[i] as int].next == o[succ(i, n)]);
                        } else if i == p {
                        } else if i == p + 1 {
                        } else {
                            assert(o[i - 1] != ai);
                            assert(old_nodes[o[i - 1] as int].next == o[succ(i - 1, n)]);
                        }
                    }
                    assert forall|i: int| 0 <= i <= n implies (#[trigger] nodes[o2[i] as int]).prev == o2[pred(i, n + 1)] by {
                        let c = o2[i];
                        if c == x {
                        } else {
                            let k = if i <= p { i } else { i - 1 };
                            assert(o[k] == c);
                            assert(old_nodes[o[k] as int].prev == o[pred(k, n)]);
                            if c == b {
                                assert(k == succ(p, n));
                            } else {
                                assert(k != succ(p, n));
                                if k == 0 {
                                    assert(p != n - 1);
                                } 
                            }
                        }
                    }
                    assert(n + 1 > 0 ==> self.head == o2[0]);
                    assert forall|c: usize| c < old(self).created() implies self.data(c) == old(self).data(c) by {
                        assert(nodes[c as int].data == old_nodes[c as int].data);
                    }
                }
            },
        }
        Id::new(x)
    }

    #[verifier::rlimit(80)]
    /// Splices a new arc of `cell` in just before `arc`.
    pub fn insert_before(&mut self, arc: Arc, cell: Cell) -> (r: Arc)
        requires
            old(self).wf(),
            old(self).created() + 1 < usize::MAX,
            old(self).has(arc),
        ensures
            final(self).wf(),
            r.spec_index() == old(self).created(),
            final(self).created() == old(self).created() + 1,
            final(self)@ == old(self)@.insert(pos(old(self)@, arc.spec_index()), r.spec_index()),
            final(self).data(r.spec_index()) == (ArcData {
                cell,
                start: ArcStart::Unknown,
                is_valid: false,
                event: 0,
            }),
            forall|a: usize| a < old(self).created() ==> final(self).data(a) == old(self).data(a),
    {
        proof {
            self.lemma_pos(arc);
        }
        let x = self.nodes.len();
        let data = ArcData { cell, start: ArcStart::Unknown, is_valid: false, event: 0 };
        let ghost o = self@;
        let ai = arc.index();
        let b = self.nodes[ai].prev;
        let ghost p = pos(o, ai);
        let ghost n = o.len() as int;
        self.nodes.push(Node { data, prev: b, next: ai, live: true });
        let mut nb = self.nodes[b];
        nb.next = x;
        self.nodes.set(b, nb);
        let mut na = self.nodes[ai];
        na.prev = x;
        self.nodes.set(ai, na);
        if self.head == ai {
            self.head = x;
        }
        self.len = self.len + 1;
        let ghost inserted = o.insert(p, x);
        self.order = Ghost(inserted);
        proof {
            let o2 = self@;
            let nodes = self.nodes@;
            let old_nodes = old(self).nodes@;
            assert(o2.len() == n + 1);
            assert forall|i: int| 0 <= i <= n implies #[trigger] o2[i] == (if i < p {
                o[i]
            } else if i == p {
                x
            } else {
                o[i - 1]
            }) by {}
            assert forall|i: int, j: int| 0 <= i < j <= n implies o2[i] != o2[j] by {
                if i < p && j == p {
                    assert(o[i] < x);
                } else if i == p {
                    assert(o[j - 1] < x);
                }
            }
            assert(o2.no_duplicates());
            assert forall|c: int| 0 <= c < x && c != ai && c != b implies nodes[c] == old_nodes[c] by {}
            assert forall|c: usize| c < x implies (o2.contains(c) <==> o.contains(c)) by {
                if o.contains(c) {
                    let k = choose|k: int| 0 <= k < n && o[k] == c;
                    if k < p {
                        assert(o2[k] == c);
                    } else {
                        assert(o2[k + 1] == c);
                    }
                }
                if o2.contains(c) {
                    let k = choose|k: int| 0 <= k <= n && o2[k] == c;
                    if k < p {
                        assert(o[k] == c);
                    } else if k == p {
                        assert(false);
                    } else {
                        assert(o[k - 1] == c);
                    }
                }
            }
            assert(o2[p] == x);
            assert forall|c: int| 0 <= c < nodes.len() implies ((#[trigger] nodes[c]).live <==> o2.contains(c as usize)) by {
                if c < x {
                    assert(old_nodes[c].live <==> o.contains(c as usize));
                    assert(nodes[c].live == old_nodes[c].live);
                }
            }
            assert(o[p] == ai);
            assert(b == o[pred(p, n)]);
            assert forall|i: int| 0 <= i <= n implies (#[trigger] nodes[o2[i] as int]).next == o2[succ(i, n + 1)] by {
                let c = o2[i];
                if c == x {
                } else {
                    let k = if i < p { i } else { i - 1 };
                    assert(o[k] == c);
                    assert(old_nodes[o[k] as int].next == o[succ(k, n)]);
                    if c == b {
                        assert(k == pred(p, n));
                    } else {
                        assert(k != pred(p, n));
                        if k == n - 1 {
                            assert(p != 0);
                        }
                    }
                }
            }
            assert forall|i: int| 0 <= i <= n implies (#[trigger] nodes[o2[i] as int]).prev == o2[pred(i, n + 1)] by {
                let c = o2[i];
                if c == x {
                } else {
                    let k = if i < p { i } else { i - 1 };
                    assert(o[k] == c);
                    assert(old_nodes[o[k] as int].prev == o[pred(k, n)]);
                    if c == ai {
                        assert(k == p);
                    } else {
                        assert(k != p);
                    }
                }
            }
            assert(self.head == o2[0]) by {
                if p == 0 {
                    assert(old(self).head == ai);
                } else {
                    assert(o2[0] == o[0]);
                    assert(o[0] != ai);
                }
            }
            assert forall|c: usize| c < old(self).created() implies self.data(c) == old(self).data(c) by {
                assert(nodes[c as int].data == old_nodes[c as int].data);
            }
        }
        Id::new(x)
    }

    #[verifier::rlimit(60)]
    /// Takes `arc` off the beach line; its handle is not used again.
    pub fn remove(&mut self, arc: Arc)
        requires
            old(self).wf(),
            old(self).has(arc),
        ensures
            final(self).wf(),
            final(self)@ == old(self)@.remove(pos(old(self)@, arc.spec_index())),
            final(self).created() == old(self).created(),
            forall|a: usize| final(self).data(a) == old(self).data(a),
    {
        proof {
            self.lemma_pos(arc);
        }
        let ghost o = self@;
        let ghost n = o.len() as int;
        let ghost p = pos(o, arc.spec_index());
        let ai = arc.index();
        let total = self.nodes.len();
        let pv = self.nodes[ai].prev;
        let nx = self.nodes[ai].next;
        if self.len == 1 {
            let mut na = self.nodes[ai];
            na.live = false;
            self.nodes.set(ai, na);
            self.head = usize::MAX;
            self.len = 0;
            let ghost empty = Seq::<usize>::empty();
            self.order = Ghost(empty);
            proof {
                assert(o[0] == ai);
                assert(o.remove(p) =~= empty);
                assert forall|c: int| 0 <= c < self.nodes@.len() implies !(#[trigger] self.nodes@[c]).live by {
                    assert(c < total);
                    let cu = c as usize;
                    assert(cu as int == c);
                    if cu != ai {
                        assert(self.nodes@[c] == old(self).nodes@[c]);
                        assert(old(self).nodes@[c].live <==> o.contains(cu));
                        if o.contains(cu) {
                            let k = choose|k: int| 0 <= k < n && o[k] == cu;
                            assert(k == 0);
                        }
                    }
                }
                assert forall|c: usize| self.data(c) == old(self).data(c) by {
                    if c < self.nodes@.len() {
                        assert(self.nodes@[c as int].data == old(self).nodes@[c as int].data);
                    }
                }
            }
        } else {
            let mut np = self.nodes[pv];
            np.next = nx;
            self.nodes.set(pv, np);
            let mut nn = self.nodes[nx];
            nn.prev = pv;
            self.nodes.set(nx, nn);
            let mut na = self.nodes[ai];
            na.live = false;
            self.nodes.set(ai, na);
            if self.head == ai {
                self.head = nx;
            }
            self.len = self.len - 1;
            let ghost removed = o.remove(p);
            self.order = Ghost(removed);
            proof {
                let o2 = self@;
                let nodes = self.nodes@;
                let old_nodes = old(self).nodes@;
                assert(o[p] == ai);
                assert(pv == o[pred(p, n)]);
                assert(nx == o[succ(p, n)]);
                assert(pv != ai && nx != ai);
                assert(o2.len() == n - 1);
                assert forall|j: int| 0 <= j < n - 1 implies #[trigger] o2[j] == (if j < p {
                    o[j]
                } else {
                    o[j + 1]
                }) by {}
                assert forall|i: int, j: int| 0 <= i < j < n - 1 implies o2[i] != o2[j] by {
                    let ki = if i < p { i } else { i + 1 };
                    let kj = if j < p { j } else { j + 1 };
                    assert(ki != kj);
                }
                assert(o2.no_duplicates());
                assert forall|c: int| 0 <= c < nodes.len() && c != pv && c != nx && c != ai implies nodes[c] == old_nodes[c] by {}
                assert forall|c: usize| c != ai implies (o2.contains(c) <==> o.contains(c)) by {
                    if o.contains(c) {
                        let k = choose|k: int| 0 <= k < n && o[k] == c;
                        assert(k != p);
                        if k < p {
                            assert(o2[k] == c);
                        } else {
                            assert(o2[k - 1] == c);
                        }
                    }
                    if o2.contains(c) {
                        let k = choose|k: int| 0 <= k < n - 1 && o2[k] == c;
                        if k < p {
                            assert(o[k] == c);
                        } else {
                            assert(o[k + 1] == c);
                        }
                    }
                }
                assert(!o2.contains(ai)) by {
                    if o2.contains(ai) {
                        let k = choose|k: int| 0 <= k < n - 1 && o2[k] == ai;
                        if k < p {
                            assert(o[k] == ai);
                        } else {
                            assert(o[k + 1] == ai);
                        }
                    }
                }
                assert forall|c: int| 0 <= c < nodes.len() implies ((#[trigger] nodes[c]).live <==> o2.contains(c as usize)) by {
                    assert(c < total);
                    let cu = c as usize;
                    assert(cu as int == c);
                    assert(old_nodes[c].live <==> o.contains(cu));
                    if cu != ai {
                        assert(nodes[c].live == old_nodes[c].live);
                        assert(o2.contains(cu) <==> o.contains(cu));
                    }
                }
                assert forall|j: int| 0 <= j < n - 1 implies (#[trigger] nodes[o2[j] as int]).next == o2[succ(j, n - 1)] by {
                    let k = if j < p { j } else { j + 1 };
                    assert(o[k] == o2[j]);
                    assert(old_nodes[o[k] as int].next == o[succ(k, n)]);
                    if o2[j] == pv {
                        assert(k == pred(p, n));
                    } else {
                        assert(k != pred(p, n));
                    }
                }
                assert forall|j: int| 0 <= j < n - 1 implies (#[trigger] nodes[o2[j] as int]).prev == o2[pred(j, n - 1)] by {
                    let k = if j < p { j } else { j + 1 };
                    assert(o[k] == o2[j]);
                    assert(old_nodes[o[k] as int].prev == o[pred(k, n)]);
                    if o2[j] == nx {
                        assert(k == succ(p, n));
                    } else {
                        assert(k != succ(p, n));
                    }
                }
                assert(self.head == o2[0]) by {
                    if p == 0 {
                        assert(o2[0] == o[1]);
                    } else {
                        assert(o2[0] == o[0]);
                    }
                }
                assert forall|c: usize| self.data(c) == old(self).data(c) by {
                    if c < nodes.len() {
                        assert(nodes[c as int].data == old_nodes[c as int].data);
                    }
                }
            }
        }
    }
}

} // verus!
