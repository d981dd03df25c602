//! The sweep driver: the decisions of the spherical sweep, one event at a
//! time.
//!
//! The caller owns the geometry. It hands the driver the sweep keys of the
//! sites and of the circles it evaluates, the arc that a new site falls on,
//! and the position of each vertex. The driver owns the beach line, the event
//! queue, the table of shared starts and the diagram, and decides everything
//! else.
use crate::beach::{Arc, ArcData, ArcStart, Beach, pos, succ};
use crate::diagram::{Cell, CellData, Diagram, DiagramView, Vertex, VertexData, cells_of, touches};
use crate::events::{CircleEvent, EventQueue, precedes};
use crate::id::Id;
use vstd::prelude::*;

verus! {

/// What the sweep does next.
pub enum Step {
    /// Take the next site.
    Site,
    /// Fire this circle event; it is live.
    Circle(CircleEvent),
    /// Nothing is left: the diagram is complete.
    Done,
}

/// The state of one sweep: the beach line, the circle events, the table of
/// shared starts and the diagram built so far, with vertex positions of
/// type `P`.
pub struct Sweep<P> {
    beach: Beach,
    queue: EventQueue,
    temporaries: Vec<Option<Vertex>>,
    slot_cells: Ghost<Seq<(usize, usize)>>,
    diagram: Diagram<P>,
}

/// What ending at the vertex `v` a boundary between the cells `c0` and
/// `c1` that began at `start` does to the diagram and to the table of
/// shared starts: an edge from a known start; an empty shared start takes
/// `v` instead.
pub open spec fn closed<P>(
    d: DiagramView<P>,
    temporaries: Seq<Option<Vertex>>,
    start: ArcStart,
    v: Vertex,
    c0: Cell,
    c1: Cell,
) -> (DiagramView<P>, Seq<Option<Vertex>>) {
    match start {
        ArcStart::Unknown => (d, temporaries),
        ArcStart::Vertex(s) => (d.with_edge(s, v, c0, c1), temporaries),
        ArcStart::Temporary(t) => match temporaries[t as int] {
            None => (d, temporaries.update(t as int, Some(v))),
            Some(s) => (d.with_edge(s, v, c0, c1), temporaries),
        },
    }
}

/// Whether the cells `x` and `y` are the two cells of `p`, either way round.
pub open spec fn pair_is(x: usize, y: usize, p: (usize, usize)) -> bool {
    (x == p.0 && y == p.1) || (x == p.1 && y == p.0)
}

/// Whether three cells are pairwise distinct.
pub open spec fn distinct3(a: Cell, b: Cell, c: Cell) -> bool {
    a.spec_index() != b.spec_index() && b.spec_index() != c.spec_index() && a.spec_index()
        != c.spec_index()
}

impl<P> Sweep<P> {
    pub closed spec fn spec_beach(&self) -> Beach {
        self.beach
    }

    pub closed spec fn spec_queue(&self) -> EventQueue {
        self.queue
    }

    pub closed spec fn spec_diagram(&self) -> Diagram<P> {
        self.diagram
    }

    /// The table of shared starts.
    pub closed spec fn spec_temporaries(&self) -> Seq<Option<Vertex>> {
        self.temporaries@
    }

    /// Whether what is kept of a live arc names items that exist.
    pub open spec fn arc_ok(&self, d: ArcData) -> bool {
        &&& d.cell.spec_index() < self.spec_diagram()@.cells.len()
        &&& (d.start matches ArcStart::Vertex(v) ==> v.spec_index()
            < self.spec_diagram()@.vertices.len())
        &&& (d.start matches ArcStart::Temporary(t) ==> t < self.spec_temporaries().len())
    }

    /// The arena invariants: every handle kept names an item that exists.
    pub open spec fn core_wf(&self) -> bool {
        let b = self.spec_beach();
        let d = self.spec_diagram();
        &&& b.wf()
        &&& self.spec_queue().wf()
        &&& d.wf()
        &&& d.vertices_distinct()
        &&& forall|i: int| 0 <= i < b@.len() ==> self.arc_ok(#[trigger] b.data(b@[i]))
        &&& forall|t: int|
            0 <= t < self.spec_temporaries().len() ==> (#[trigger] self.spec_temporaries()[t] matches Some(
                v,
            ) ==> v.spec_index() < d@.vertices.len())
    }

    /// For each slot of the table of shared starts, the two cells that the
    /// boundaries sharing it separate.
    pub closed spec fn spec_slot_cells(&self) -> Seq<(usize, usize)> {
        self.slot_cells@
    }

    /// The boundary after the arc at position `i` of the line separates the
    /// arc's cell from the next arc's cell, and its start, if known, is a
    /// vertex of both.
    pub open spec fn boundary_ok(&self, i: int) -> bool {
        let b = self.spec_beach();
        let d = b.data(b@[i]);
        let c0 = d.cell.spec_index();
        let c1 = b.data(b@[succ(i, b@.len() as int)]).cell.spec_index();
        self.start_separates(d.start, c0, c1)
    }

    /// A filled slot of the table of shared starts is a vertex of both of
    /// the slot's cells.
    pub open spec fn slots_ok(&self) -> bool {
        let vs = self.spec_diagram()@.vertices;
        &&& self.spec_slot_cells().len() == self.spec_temporaries().len()
        &&& forall|t: int|
            0 <= t < self.spec_temporaries().len() ==> (#[trigger] self.spec_temporaries()[t] matches Some(s) ==> touches(
                vs[s.spec_index() as int],
                self.spec_slot_cells()[t].0,
            ) && touches(vs[s.spec_index() as int], self.spec_slot_cells()[t].1))
    }

    /// The sweep's invariant: the arena invariants, every boundary on the
    /// line separates the cells of its two arcs from a start that touches
    /// both, and every edge separates two distinct cells that both its ends
    /// touch.
    pub open spec fn wf(&self) -> bool {
        &&& self.core_wf()
        &&& self.slots_ok()
        &&& forall|i: int| 0 <= i < self.spec_beach()@.len() ==> #[trigger] self.boundary_ok(i)
        &&& self.spec_diagram().edges_separate()
    }

    /// Whether the circle event `e` still stands: its arc is on the line and
    /// the event is the one scheduled for it.
    pub open spec fn fires(&self, e: CircleEvent) -> bool {
        let b = self.spec_beach();
        &&& b.has(e.arc)
        &&& b.data(e.arc.spec_index()).is_valid
        &&& b.data(e.arc.spec_index()).event == e.order
    }

    pub fn new() -> (r: Self)
        ensures
            r.wf(),
            r.spec_beach()@.len() == 0,
            r.spec_beach().created() == 0,
            r.spec_queue()@ == Set::<CircleEvent>::empty(),
            r.spec_diagram()@.cells.len() == 0,
            r.spec_diagram()@.vertices.len() == 0,
            r.spec_diagram()@.edges.len() == 0,
    {
        Sweep {
            beach: Beach::new(),
            queue: EventQueue::new(),
            temporaries: Vec::new(),
            slot_cells: Ghost(Seq::empty()),
            diagram: Diagram::new(),
        }
    }

    /// The beach line, for the caller's search.
    pub fn beach(&self) -> (r: &Beach)
        ensures
            *r == self.spec_beach(),
    {
        &self.beach
    }

    /// The diagram built so far.
    pub fn diagram(&self) -> (r: &Diagram<P>)
        ensures
            *r == self.spec_diagram(),
    {
        &self.diagram
    }

    /// Hands out the diagram.
    pub fn into_diagram(self) -> (r: Diagram<P>)
        ensures
            r == self.spec_diagram(),
    {
        self.diagram
    }

    /// Whether `e` still stands.
    fn is_live_event(&self, e: CircleEvent) -> (r: bool)
        requires
            self.core_wf(),
        ensures
            r == self.fires(e),
    {
        self.beach.is_live(e.arc) && self.beach.is_valid(e.arc) && self.beach.event(e.arc) == e.order
    }

    /// Decides what comes next, given the key of the next site if one is
    /// left. A site wins a tie with a circle. Events that no longer stand
    /// are dropped on the way.
    pub fn next_step(&mut self, site_key: Option<u64>) -> (r: Step)
        requires
            old(self).wf(),
        ensures
            final(self).wf(),
            final(self).spec_beach() == old(self).spec_beach(),
            final(self).spec_diagram() == old(self).spec_diagram(),
            final(self).spec_temporaries() == old(self).spec_temporaries(),
            final(self).spec_queue().spec_next_order() == old(self).spec_queue().spec_next_order(),
            final(self).spec_queue()@.subset_of(old(self).spec_queue()@),
            forall|e: CircleEvent|
                old(self).spec_queue()@.contains(e) && !final(self).spec_queue()@.contains(e) && old(
                    self,
                ).fires(e) ==> r == Step::Circle(e),
            match r {
                Step::Site => {
                    &&& site_key.is_some()
                    &&& forall|e: CircleEvent|
                        old(self).spec_queue()@.contains(e) && old(self).fires(e) ==> site_key.unwrap()
                            <= e.key
                },
                Step::Circle(e) => {
                    &&& old(self).spec_queue()@.contains(e)
                    &&& old(self).fires(e)
                    &&& !final(self).spec_queue()@.contains(e)
                    &&& (site_key.is_none() || e.key < site_key.unwrap())
                    &&& forall|f: CircleEvent|
                        old(self).spec_queue()@.contains(f) && old(self).fires(f) && f != e ==> precedes(
                            e,
                            f,
                        )
                },
                Step::Done => {
                    &&& site_key.is_none()
                    &&& forall|e: CircleEvent| old(self).spec_queue()@.contains(e) ==> !old(self).fires(e)
                },
            },
    {
        loop
            invariant
                self.wf(),
                self.spec_slot_cells() == old(self).spec_slot_cells(),
                self.spec_beach() == old(self).spec_beach(),
                self.spec_diagram() == old(self).spec_diagram(),
                self.spec_temporaries() == old(self).spec_temporaries(),
                self.spec_queue().spec_next_order() == old(self).spec_queue().spec_next_order(),
                self.spec_queue()@.subset_of(old(self).spec_queue()@),
                forall|e: CircleEvent|
                    old(self).spec_queue()@.contains(e) && !self.spec_queue()@.contains(e) ==> !old(
                        self,
                    ).fires(e),
            decreases self.spec_queue().size(),
        {
            match self.queue.peek() {
                None => {
                    if site_key.is_some() {
                        return Step::Site;
                    } else {
                        return Step::Done;
                    }
                },
                Some(e) => {
                    if let Some(k) = site_key {
                        if k <= e.key {
                            proof {
                                assert forall|f: CircleEvent|
                                    old(self).spec_queue()@.contains(f) && old(self).fires(f) implies k
                                    <= f.key by {
                                    if f != e {
                                        assert(self.spec_queue()@.contains(f));
                                        assert(precedes(e, f));
                                    }
                                }
                            }
                            return Step::Site;
                        }
                    }
                    let live = self.is_live_event(e);
                    let ghost before = *self;
                    let popped = self.queue.pop();
                    proof {
                        lemma_same_shape(&before, self);
                    }
                    proof {
                        assert(popped == Some(e)) by {
                            let p = popped.unwrap();
                            if p != e {
                                assert(precedes(e, p));
                                assert(precedes(p, e));
                            }
                        }
                    }
                    if live {
                        proof {
                            assert forall|f: CircleEvent|
                                old(self).spec_queue()@.contains(f) && old(self).fires(f) && f != e implies precedes(e, f) by {
                                assert(self.spec_queue()@.contains(f) || f == e);
                            }
                        }
                        return Step::Circle(e);
                    }
                },
            }
        }
    }

    /// Schedules the circle event of `arc`, which the caller evaluated on
    /// the arc and its two neighbours: `key` is where the circle's sweep
    /// ends, or nothing where the geometry gave no circle. The event is
    /// scheduled only if it is not behind `min_key` and the three arcs
    /// belong to three distinct cells. Returns the event's `order` if it
    /// was scheduled.
    pub fn try_attach(&mut self, arc: Arc, key: Option<u64>, min_key: u64) -> (r: Option<u64>)
        requires
            old(self).wf(),
            old(self).spec_beach().has(arc),
        ensures
            final(self).wf(),
            final(self).spec_diagram() == old(self).spec_diagram(),
            final(self).spec_temporaries() == old(self).spec_temporaries(),
            final(self).spec_beach()@ == old(self).spec_beach()@,
            final(self).spec_beach().created() == old(self).spec_beach().created(),
            ({
                let b = old(self).spec_beach();
                let order = old(self).spec_queue().spec_next_order();
                r.is_some() == (key.is_some() && min_key <= key.unwrap() && distinct3(
                    b.data(b.spec_prev(arc)).cell,
                    b.data(arc.spec_index()).cell,
                    b.data(b.spec_next(arc)).cell,
                ) && order < u64::MAX)
            }),
            r.is_some() ==> {
                let order = old(self).spec_queue().spec_next_order();
                let e = CircleEvent { key: key.unwrap(), order, arc };
                &&& r == Some(order)
                &&& final(self).spec_queue()@ == old(self).spec_queue()@.insert(e)
                &&& final(self).fires(e)
                &&& forall|a: usize|
                    a != arc.spec_index() ==> final(self).spec_beach().data(a) == old(
                        self,
                    ).spec_beach().data(a)
            },
            r.is_none() ==> *final(self) == *old(self),
    {
        let k = match key {
            Some(k) => k,
            None => {
                return None;
            },
        };
        if k < min_key {
            return None;
        }
        let (prev, next) = self.beach.neighbors(arc);
        let c0 = self.beach.cell(prev);
        let c1 = self.beach.cell(arc);
        let c2 = self.beach.cell(next);
        if c0.index() == c1.index() || c1.index() == c2.index() || c0.index() == c2.index() {
            return None;
        }
        if self.queue.next_order() == u64::MAX {
            return None;
        }
        let order = self.queue.push(k, arc);
        self.beach.attach(arc, order);
        proof {
            let b = self.spec_beach();
            assert forall|i: int| 0 <= i < b@.len() implies self.arc_ok(#[trigger] b.data(b@[i])) by {
                assert(old(self).arc_ok(old(self).spec_beach().data(b@[i])));
            }
        }
        proof {
            lemma_same_shape(old(self), self);
        }
        Some(order)
    }

    /// Whether `start` names items that exist.
    pub open spec fn start_ok(&self, start: ArcStart) -> bool {
        &&& (start matches ArcStart::Vertex(v) ==> v.spec_index() < self.spec_diagram()@.vertices.len())
        &&& (start matches ArcStart::Temporary(t) ==> t < self.spec_temporaries().len())
    }

    fn insert_arc(&mut self, after: Option<Arc>, cell: Cell) -> (r: Arc)
        requires
            old(self).core_wf(),
            old(self).spec_beach().created() + 1 < usize::MAX,
            after.is_none() <==> old(self).spec_beach()@.len() == 0,
            after.is_some() ==> old(self).spec_beach().has(after.unwrap()),
            cell.spec_index() < old(self).spec_diagram()@.cells.len(),
        ensures
            final(self).spec_slot_cells() == old(self).spec_slot_cells(),
            final(self).core_wf(),
            final(self).spec_diagram() == old(self).spec_diagram(),
            final(self).spec_temporaries() == old(self).spec_temporaries(),
            final(self).spec_queue() == old(self).spec_queue(),
            r.spec_index() == old(self).spec_beach().created(),
            final(self).spec_beach().created() == old(self).spec_beach().created() + 1,
            after.is_none() ==> final(self).spec_beach()@ == seq![r.spec_index()],
            after.is_some() ==> final(self).spec_beach()@ == old(self).spec_beach()@.insert(
                pos(old(self).spec_beach()@, after.unwrap().spec_index()) + 1,
                r.spec_index(),
            ),
            final(self).spec_beach().data(r.spec_index()) == (ArcData {
                cell,
                start: ArcStart::Unknown,
                is_valid: false,
                event: 0,
            }),
            forall|a: usize|
                a < old(self).spec_beach().created() ==> final(self).spec_beach().data(a) == old(
                    self,
                ).spec_beach().data(a),
    {
        let r = self.beach.insert_after(after, cell);
        proof {
            let b = self.spec_beach();
            let ob = old(self).spec_beach();
            assert forall|i: int| 0 <= i < b@.len() implies self.arc_ok(#[trigger] b.data(b@[i])) by {
                if b@[i] != r.spec_index() {
                    assert(b@.contains(b@[i]));
                    assert(b@[i] < ob.created()) by {
                        if after.is_some() {
                            let p = pos(ob@, after.unwrap().spec_index());
                            ob.lemma_in_range(after.unwrap());
                            if i <= p {
                                assert(b@[i] == ob@[i]);
                            } else {
                                assert(b@[i] == ob@[i - 1]);
                            }
                            ob.lemma_members_below();
                        }
                    }
                    let k = if after.is_some() && i > pos(ob@, after.unwrap().spec_index()) + 1 {
                        i - 1
                    } else {
                        i
                    };
                    assert(ob@[k] == b@[i]);
                    assert(old(self).arc_ok(ob.data(ob@[k])));
                }
            }
        }
        r
    }

    fn insert_arc_before(&mut self, before: Arc, cell: Cell) -> (r: Arc)
        requires
            old(self).core_wf(),
            old(self).spec_beach().created() + 1 < usize::MAX,
            old(self).spec_beach().has(before),
            cell.spec_index() < old(self).spec_diagram()@.cells.len(),
        ensures
            final(self).spec_slot_cells() == old(self).spec_slot_cells(),
            final(self).core_wf(),
            final(self).spec_diagram() == old(self).spec_diagram(),
            final(self).spec_temporaries() == old(self).spec_temporaries(),
            final(self).spec_queue() == old(self).spec_queue(),
            r.spec_index() == old(self).spec_beach().created(),
            final(self).spec_beach().created() == old(self).spec_beach().created() + 1,
            final(self).spec_beach()@ == old(self).spec_beach()@.insert(
                pos(old(self).spec_beach()@, before.spec_index()),
                r.spec_index(),
            ),
            final(self).spec_beach().data(r.spec_index()) == (ArcData {
                cell,
                start: ArcStart::Unknown,
                is_valid: false,
                event: 0,
            }),
            forall|a: usize|
                a < old(self).spec_beach().created() ==> final(self).spec_beach().data(a) == old(
                    self,
                ).spec_beach().data(a),
    {
        let r = self.beach.insert_before(before, cell);
        proof {
            let b = self.spec_beach();
            let ob = old(self).spec_beach();
            let p = pos(ob@, before.spec_index());
            ob.lemma_in_range(before);
            ob.lemma_members_below();
            assert forall|i: int| 0 <= i < b@.len() implies self.arc_ok(#[trigger] b.data(b@[i])) by {
                if i != p {
                    let k = if i < p { i } else { i - 1 };
                    assert(b@[i] == ob@[k]);
                    assert(old(self).arc_ok(ob.data(ob@[k])));
                }
            }
        }
        r
    }

    fn set_arc_start(&mut self, arc: Arc, start: ArcStart)
        requires
            old(self).core_wf(),
            old(self).spec_beach().has(arc),
            old(self).start_ok(start),
        ensures
            final(self).spec_slot_cells() == old(self).spec_slot_cells(),
            final(self).core_wf(),
            final(self).spec_diagram() == old(self).spec_diagram(),
            final(self).spec_temporaries() == old(self).spec_temporaries(),
            final(self).spec_queue() == old(self).spec_queue(),
            final(self).spec_beach()@ == old(self).spec_beach()@,
            final(self).spec_beach().created() == old(self).spec_beach().created(),
            final(self).spec_beach().data(arc.spec_index()) == (ArcData {
                start,
                ..old(self).spec_beach().data(arc.spec_index())
            }),
            forall|a: usize|
                a != arc.spec_index() ==> final(self).spec_beach().data(a) == old(
                    self,
                ).spec_beach().data(a),
    {
        self.beach.set_start(arc, start);
        proof {
            let b = self.spec_beach();
            assert forall|i: int| 0 <= i < b@.len() implies self.arc_ok(#[trigger] b.data(b@[i])) by {
                assert(old(self).arc_ok(old(self).spec_beach().data(b@[i])));
            }
        }
    }

    fn detach_arc(&mut self, arc: Arc)
        requires
            old(self).core_wf(),
            old(self).spec_beach().has(arc),
        ensures
            final(self).spec_slot_cells() == old(self).spec_slot_cells(),
            final(self).core_wf(),
            final(self).spec_diagram() == old(self).spec_diagram(),
            final(self).spec_temporaries() == old(self).spec_temporaries(),
            final(self).spec_queue() == old(self).spec_queue(),
            final(self).spec_beach()@ == old(self).spec_beach()@,
            final(self).spec_beach().created() == old(self).spec_beach().created(),
            final(self).spec_beach().data(arc.spec_index()) == (ArcData {
                is_valid: false,
                ..old(self).spec_beach().data(arc.spec_index())
            }),
            forall|a: usize|
                a != arc.spec_index() ==> final(self).spec_beach().data(a) == old(
                    self,
                ).spec_beach().data(a),
    {
        self.beach.detach(arc);
        proof {
            let b = self.spec_beach();
            assert forall|i: int| 0 <= i < b@.len() implies self.arc_ok(#[trigger] b.data(b@[i])) by {
                assert(old(self).arc_ok(old(self).spec_beach().data(b@[i])));
            }
        }
    }

    fn new_temporary(&mut self, cells: Ghost<(usize, usize)>) -> (r: usize)
        requires
            old(self).core_wf(),
        ensures
            final(self).spec_slot_cells() == old(self).spec_slot_cells().push(cells@),
            final(self).core_wf(),
            r == old(self).spec_temporaries().len(),
            final(self).spec_temporaries() == old(self).spec_temporaries().push(None),
            final(self).spec_diagram() == old(self).spec_diagram(),
            final(self).spec_queue() == old(self).spec_queue(),
            final(self).spec_beach() == old(self).spec_beach(),
    {
        let t = self.temporaries.len();
        self.temporaries.push(None);
        self.slot_cells = Ghost(self.slot_cells@.push(cells@));
        proof {
            let b = self.spec_beach();
            assert forall|i: int| 0 <= i < b@.len() implies self.arc_ok(#[trigger] b.data(b@[i])) by {
                assert(old(self).arc_ok(old(self).spec_beach().data(b@[i])));
            }
            assert forall|u: int| 0 <= u < self.spec_temporaries().len() implies (#[trigger] self.spec_temporaries()[u] matches Some(
                v,
            ) ==> v.spec_index() < self.spec_diagram()@.vertices.len()) by {
                if u < t {
                    assert(self.spec_temporaries()[u] == old(self).spec_temporaries()[u]);
                }
            }
        }
        t
    }

    fn add_cell(&mut self, site: usize) -> (r: Cell)
        requires
            old(self).core_wf(),
        ensures
            final(self).spec_slot_cells() == old(self).spec_slot_cells(),
            final(self).core_wf(),
            r.spec_index() == old(self).spec_diagram()@.cells.len(),
            final(self).spec_diagram()@.cells == old(self).spec_diagram()@.cells.push(CellData { site }),
            final(self).spec_diagram()@.vertices == old(self).spec_diagram()@.vertices,
            final(self).spec_diagram()@.edges == old(self).spec_diagram()@.edges,
            final(self).spec_diagram()@.positions == old(self).spec_diagram()@.positions,
            final(self).spec_temporaries() == old(self).spec_temporaries(),
            final(self).spec_queue() == old(self).spec_queue(),
            final(self).spec_beach() == old(self).spec_beach(),
    {
        let r = self.diagram.add_cell(site);
        proof {
            let d = self.spec_diagram();
            let od = old(self).spec_diagram();
            assert forall|v: int| 0 <= v < d@.vertices.len() implies (#[trigger] cells_of(d@.vertices[v])).no_duplicates() by {
                assert(d@.vertices[v] == od@.vertices[v]);
            }
            let b = self.spec_beach();
            assert forall|i: int| 0 <= i < b@.len() implies self.arc_ok(#[trigger] b.data(b@[i])) by {
                assert(old(self).arc_ok(old(self).spec_beach().data(b@[i])));
            }
        }
        r
    }

    /// Takes the site at position `site` of the input: adds its cell and
    /// its arc. With no arc or one on the line, `arc` is nothing; else it is
    /// the arc that the site falls on. That arc is split: a twin with its
    /// cell goes just before it and the new arc between the twin and it, so
    /// that the line reads prev, twin, new arc, split arc, next. The twin
    /// and the new arc share a fresh slot of the table of starts; the split
    /// arc keeps its start, and its circle is cancelled. Returns the arcs
    /// whose circles the caller should evaluate: the twin and the split arc.
    pub fn site_event(&mut self, site: usize, arc: Option<Arc>) -> (r: Vec<Arc>)
        requires
            old(self).wf(),
            old(self).spec_beach().created() + 2 < usize::MAX,
            arc.is_none() ==> old(self).spec_beach()@.len() <= 1,
            arc.is_some() ==> old(self).spec_beach().has(arc.unwrap()) && old(self).spec_beach()@.len() >= 2,
        ensures
            final(self).wf(),
            final(self).spec_diagram()@.cells == old(self).spec_diagram()@.cells.push(CellData { site }),
            final(self).spec_diagram()@.vertices == old(self).spec_diagram()@.vertices,
            final(self).spec_diagram()@.edges == old(self).spec_diagram()@.edges,
            final(self).spec_diagram()@.positions == old(self).spec_diagram()@.positions,
            final(self).spec_queue() == old(self).spec_queue(),
            ({
                let ob = old(self).spec_beach();
                let b = final(self).spec_beach();
                let c = old(self).spec_diagram()@.cells.len();
                let n = ob.created();
                let t = old(self).spec_temporaries().len();
                if ob@.len() == 0 {
                    &&& b@ == seq![n as usize]
                    &&& b.data(n as usize).cell.spec_index() == c
                    &&& b.data(n as usize).start == ArcStart::Unknown
                    &&& b.created() == n + 1
                    &&& final(self).spec_temporaries() == old(self).spec_temporaries()
                    &&& r@.len() == 0
                } else if arc.is_none() {
                    &&& b@ == seq![ob@[0], n as usize]
                    &&& b.data(n as usize).cell.spec_index() == c
                    &&& b.data(n as usize).start == ArcStart::Temporary(t as usize)
                    &&& b.data(ob@[0]) == (ArcData { start: ArcStart::Temporary(t as usize), ..ob.data(ob@[0]) })
                    &&& b.created() == n + 1
                    &&& final(self).spec_temporaries() == old(self).spec_temporaries().push(None)
                    &&& r@.len() == 0
                } else {
                    let a = arc.unwrap().spec_index();
                    let p = pos(ob@, a);
                    &&& b@ == ob@.insert(p, n as usize).insert(p, (n + 1) as usize)
                    &&& b.created() == n + 2
                    &&& b.data(n as usize).cell.spec_index() == c
                    &&& b.data(n as usize).start == ArcStart::Temporary(t as usize)
                    &&& b.data((n + 1) as usize).cell == ob.data(a).cell
                    &&& b.data((n + 1) as usize).start == ArcStart::Temporary(t as usize)
                    &&& b.data(a) == (ArcData { is_valid: false, ..ob.data(a) })
                    &&& forall|x: usize| x < n && x != a ==> #[trigger] b.data(x) == ob.data(x)
                    &&& final(self).spec_temporaries() == old(self).spec_temporaries().push(None)
                    &&& r@.len() == 2
                    &&& r@[0].spec_index() == n + 1
                    &&& r@[1] == arc.unwrap()
                }
            }),
    {
        let cell = self.add_cell(site);
        match arc {
            None => {
                match self.beach.first() {
                    None => {
                        self.insert_arc(None, cell);
                        proof {
                            lemma_tables_kept(old(self), self);
                            assert(self.boundary_ok(0));
                            assert forall|i: int| 0 <= i < self.spec_beach()@.len() implies #[trigger] self.boundary_ok(i) by {}
                        }
                    },
                    Some(a0) => {
                        proof {
                            Id::<ArcData>::lemma_spec_new(self.spec_beach()@[0]);
                        }
                        let n = self.insert_arc(Some(a0), cell);
                        proof {
                            old(self).spec_beach().lemma_in_range(a0);
                            assert(self.spec_beach()@[0] == a0.spec_index());
                            assert(self.spec_beach().has(a0));
                        }
                        let ghost pair = (
                            self.spec_beach().data(a0.spec_index()).cell.spec_index(),
                            cell.spec_index(),
                        );
                        let t = self.new_temporary(Ghost(pair));
                        self.set_arc_start(a0, ArcStart::Temporary(t));
                        proof {
                            assert(self.spec_beach()@.contains(n.spec_index())) by {
                                assert(self.spec_beach()@[1] == n.spec_index());
                            }
                        }
                        self.set_arc_start(n, ArcStart::Temporary(t));
                        proof {
                            let ob = old(self).spec_beach();
                            ob.lemma_in_range(a0);
                            assert(pos(ob@, a0.spec_index()) == 0);
                            assert(self.spec_beach()@ =~= seq![ob@[0], n.spec_index()]);
                            ob.lemma_members_below();
                            lemma_tables_kept(old(self), self);
                            assert(self.boundary_ok(0));
                            assert(self.boundary_ok(1));
                            assert forall|i: int| 0 <= i < self.spec_beach()@.len() implies #[trigger] self.boundary_ok(i) by {}
                        }
                    },
                }
                Vec::new()
            },
            Some(a) => {
                self.detach_arc(a);
                let acell = self.beach.cell(a);
                proof {
                    let ob = old(self).spec_beach();
                    ob.lemma_in_range(a);
                    assert(old(self).arc_ok(ob.data(ob@[pos(ob@, a.spec_index())])));
                    assert(self.spec_beach()@ == ob@);
                }
                let n = self.insert_arc_before(a, cell);
                proof {
                    let b = self.spec_beach();
                    let p = pos(old(self).spec_beach()@, a.spec_index());
                    old(self).spec_beach().lemma_in_range(a);
                    assert(b@[p] == n.spec_index());
                    assert(b.has(n));
                    b.lemma_pos_at(p);
                }
                let twin = self.insert_arc_before(n, acell);
                let ghost pair = (acell.spec_index(), cell.spec_index());
                let t = self.new_temporary(Ghost(pair));
                proof {
                    let ob = old(self).spec_beach();
                    let p = pos(ob@, a.spec_index());
                    ob.lemma_in_range(a);
                    ob.lemma_members_below();
                    let b = self.spec_beach();
                    assert(b@[p] == twin.spec_index());
                    assert(b@[p + 1] == n.spec_index());
                    assert(b.has(twin));
                }
                self.set_arc_start(twin, ArcStart::Temporary(t));
                self.set_arc_start(n, ArcStart::Temporary(t));
                proof {
                    lemma_tables_kept(old(self), self);
                    let ob = old(self).spec_beach();
                    let b = self.spec_beach();
                    let n0 = ob@.len() as int;
                    let p = pos(ob@, a.spec_index());
                    ob.lemma_in_range(a);
                    ob.lemma_members_below();
                    assert(b@ == ob@.insert(p, n.spec_index()).insert(p, twin.spec_index()));
                    assert(b@.len() == n0 + 2);
                    assert forall|i: int| 0 <= i < n0 + 2 implies #[trigger] self.boundary_ok(i) by {
                        if i == p {
                            assert(b@[i] == twin.spec_index());
                            assert(b@[succ(i, n0 + 2)] == n.spec_index());
                        } else if i == p + 1 {
                            assert(b@[i] == n.spec_index());
                            assert(b@[succ(i, n0 + 2)] == a.spec_index());
                        } else {
                            let k = if i < p { i } else { i - 2 };
                            assert(b@[i] == ob@[k]);
                            assert(old(self).boundary_ok(k));
                            assert(ob@[k] < ob.created());
                            let x = ob@[k];
                            assert(b.data(x).cell == ob.data(x).cell);
                            assert(b.data(x).start == ob.data(x).start);
                            let j = succ(i, n0 + 2);
                            let kk = succ(k, n0);
                            if kk == p {
                                assert(b@[j] == twin.spec_index());
                            } else {
                                assert(b@[j] == ob@[kk]);
                                assert(ob@[kk] < ob.created());
                                assert(ob@[kk] != a.spec_index()) by {
                                    ob.lemma_pos_at(kk);
                                }
                            }
                        }
                    }
                }
                let mut r: Vec<Arc> = Vec::new();
                r.push(twin);
                r.push(a);
                r
            },
        }
    }

    fn add_vertex(&mut self, position: P, cells: [Cell; 3]) -> (r: Vertex)
        requires
            old(self).core_wf(),
            forall|k: int| 0 <= k < 3 ==> (#[trigger] cells[k]).spec_index() < old(self).spec_diagram()@.cells.len(),
            distinct3(cells[0], cells[1], cells[2]),
        ensures
            final(self).spec_slot_cells() == old(self).spec_slot_cells(),
            final(self).core_wf(),
            r.spec_index() == old(self).spec_diagram()@.vertices.len(),
            final(self).spec_diagram()@.vertices == old(self).spec_diagram()@.vertices.push(VertexData { cells }),
            final(self).spec_diagram()@.positions == old(self).spec_diagram()@.positions.push(position),
            final(self).spec_diagram()@.cells == old(self).spec_diagram()@.cells,
            final(self).spec_diagram()@.edges == old(self).spec_diagram()@.edges,
            final(self).spec_temporaries() == old(self).spec_temporaries(),
            final(self).spec_queue() == old(self).spec_queue(),
            final(self).spec_beach() == old(self).spec_beach(),
            old(self).slots_ok() ==> final(self).slots_ok(),
            old(self).spec_diagram().edges_separate() ==> final(self).spec_diagram().edges_separate(),
    {
        let r = self.diagram.add_vertex(position, cells);
        proof {
            let d = self.spec_diagram();
            let od = old(self).spec_diagram();
            assert forall|v: int| 0 <= v < d@.vertices.len() implies (#[trigger] cells_of(d@.vertices[v])).no_duplicates() by {
                if v < od@.vertices.len() {
                    assert(d@.vertices[v] == od@.vertices[v]);
                } else {
                    assert(d@.vertices[v].cells == cells);
                    let c = cells_of(d@.vertices[v]);
                    assert forall|x: int, y: int| 0 <= x < y < 3 implies c[x] != c[y] by {}
                }
            }
            let b = self.spec_beach();
            assert forall|i: int| 0 <= i < b@.len() implies self.arc_ok(#[trigger] b.data(b@[i])) by {
                assert(old(self).arc_ok(old(self).spec_beach().data(b@[i])));
            }
            assert forall|u: int| 0 <= u < self.spec_temporaries().len() implies (#[trigger] self.spec_temporaries()[u] matches Some(
                v,
            ) ==> v.spec_index() < self.spec_diagram()@.vertices.len()) by {
                assert(self.spec_temporaries()[u] == old(self).spec_temporaries()[u]);
            }
        }
        proof {
            let d = self.spec_diagram()@;
            let od = old(self).spec_diagram()@;
            if old(self).spec_diagram().edges_separate() {
                assert forall|e: int| 0 <= e < d.edges.len() implies {
                    let ed = #[trigger] d.edges[e];
                    let v0 = d.vertices[ed.vertices.0.spec_index() as int];
                    let v1 = d.vertices[ed.vertices.1.spec_index() as int];
                    &&& ed.cells.0.spec_index() != ed.cells.1.spec_index()
                    &&& touches(v0, ed.cells.0.spec_index())
                    &&& touches(v0, ed.cells.1.spec_index())
                    &&& touches(v1, ed.cells.0.spec_index())
                    &&& touches(v1, ed.cells.1.spec_index())
                } by {
                    let ed = d.edges[e];
                    assert(ed == od.edges[e]);
                    assert(d.vertices[ed.vertices.0.spec_index() as int] == od.vertices[ed.vertices.0.spec_index() as int]);
                    assert(d.vertices[ed.vertices.1.spec_index() as int] == od.vertices[ed.vertices.1.spec_index() as int]);
                }
            }
            if old(self).slots_ok() {
                assert forall|t: int| 0 <= t < self.spec_temporaries().len() implies (#[trigger] self.spec_temporaries()[t] matches Some(s)
                    ==> touches(d.vertices[s.spec_index() as int], self.spec_slot_cells()[t].0) && touches(
                    d.vertices[s.spec_index() as int],
                    self.spec_slot_cells()[t].1,
                )) by {
                    if let Some(s) = self.spec_temporaries()[t] {
                        assert(old(self).spec_temporaries()[t] == Some(s));
                        assert(d.vertices[s.spec_index() as int] == od.vertices[s.spec_index() as int]);
                    }
                }
            }
        }
        r
    }

    fn add_edge(&mut self, vertex0: Vertex, vertex1: Vertex, cell0: Cell, cell1: Cell)
        requires
            old(self).core_wf(),
            vertex0.spec_index() < old(self).spec_diagram()@.vertices.len(),
            vertex1.spec_index() < old(self).spec_diagram()@.vertices.len(),
            cell0.spec_index() < old(self).spec_diagram()@.cells.len(),
            cell1.spec_index() < old(self).spec_diagram()@.cells.len(),
        ensures
            final(self).spec_slot_cells() == old(self).spec_slot_cells(),
            final(self).core_wf(),
            final(self).spec_diagram()@ == old(self).spec_diagram()@.with_edge(vertex0, vertex1, cell0, cell1),
            final(self).spec_temporaries() == old(self).spec_temporaries(),
            final(self).spec_queue() == old(self).spec_queue(),
            final(self).spec_beach() == old(self).spec_beach(),
            ({
                let vs = old(self).spec_diagram()@.vertices;
                old(self).spec_diagram().edges_separate() && cell0.spec_index() != cell1.spec_index()
                    && touches(vs[vertex0.spec_index() as int], cell0.spec_index()) && touches(
                    vs[vertex0.spec_index() as int],
                    cell1.spec_index(),
                ) && touches(vs[vertex1.spec_index() as int], cell0.spec_index()) && touches(
                    vs[vertex1.spec_index() as int],
                    cell1.spec_index(),
                )
            }) ==> final(self).spec_diagram().edges_separate(),
            old(self).slots_ok() ==> final(self).slots_ok(),
    {
        let _ = self.diagram.add_edge(vertex0, vertex1, cell0, cell1);
        proof {
            assert(self.spec_diagram()@ =~= old(self).spec_diagram()@.with_edge(vertex0, vertex1, cell0, cell1));
            let d = self.spec_diagram()@;
            let od = old(self).spec_diagram()@;
            if old(self).spec_diagram().edges_separate() {
                assert forall|e: int| 0 <= e < od.edges.len() implies {
                    let ed = #[trigger] d.edges[e];
                    let v0 = d.vertices[ed.vertices.0.spec_index() as int];
                    let v1 = d.vertices[ed.vertices.1.spec_index() as int];
                    &&& ed.cells.0.spec_index() != ed.cells.1.spec_index()
                    &&& touches(v0, ed.cells.0.spec_index())
                    &&& touches(v0, ed.cells.1.spec_index())
                    &&& touches(v1, ed.cells.0.spec_index())
                    &&& touches(v1, ed.cells.1.spec_index())
                } by {
                    assert(d.edges[e] == od.edges[e]);
                }
            }
            let b = self.spec_beach();
            assert forall|i: int| 0 <= i < b@.len() implies self.arc_ok(#[trigger] b.data(b@[i])) by {
                assert(old(self).arc_ok(old(self).spec_beach().data(b@[i])));
            }
        }
    }

    /// Whether `start`, as the start of a boundary between the cells `c0` and
    /// `c1`, is a vertex of both or a slot kept for those two cells.
    pub open spec fn start_separates(&self, start: ArcStart, c0: usize, c1: usize) -> bool {
        let vs = self.spec_diagram()@.vertices;
        match start {
            ArcStart::Unknown => true,
            ArcStart::Vertex(s) => touches(vs[s.spec_index() as int], c0) && touches(vs[s.spec_index() as int], c1),
            ArcStart::Temporary(t) => pair_is(c0, c1, self.spec_slot_cells()[t as int]),
        }
    }

    /// Ends the boundary between `arc` and the next arc at `vertex`: an edge
    /// from its start, if the start is known; a shared start that is still
    /// empty takes `vertex` instead.
    fn close_edge(&mut self, arc: Arc, vertex: Vertex)
        requires
            old(self).core_wf(),
            old(self).spec_beach().has(arc),
            vertex.spec_index() < old(self).spec_diagram()@.vertices.len(),
            ({
                let b = old(self).spec_beach();
                let c0 = b.data(arc.spec_index()).cell.spec_index();
                let c1 = b.data(b.spec_next(arc)).cell.spec_index();
                let vs = old(self).spec_diagram()@.vertices;
                &&& c0 != c1
                &&& old(self).start_separates(b.data(arc.spec_index()).start, c0, c1)
                &&& touches(vs[vertex.spec_index() as int], c0)
                &&& touches(vs[vertex.spec_index() as int], c1)
            }),
        ensures
            old(self).slots_ok() ==> final(self).slots_ok(),
            old(self).slots_ok() && old(self).spec_diagram().edges_separate() ==> final(self).spec_diagram().edges_separate(),
            final(self).spec_slot_cells() == old(self).spec_slot_cells(),
            final(self).core_wf(),
            (final(self).spec_diagram()@, final(self).spec_temporaries()) == closed(
                old(self).spec_diagram()@,
                old(self).spec_temporaries(),
                old(self).spec_beach().data(arc.spec_index()).start,
                vertex,
                old(self).spec_beach().data(arc.spec_index()).cell,
                old(self).spec_beach().data(old(self).spec_beach().spec_next(arc)).cell,
            ),
            final(self).spec_queue() == old(self).spec_queue(),
            final(self).spec_beach() == old(self).spec_beach(),
    {
        let next = self.beach.next(arc);
        let c0 = self.beach.cell(arc);
        let c1 = self.beach.cell(next);
        proof {
            let b = self.spec_beach();
            b.lemma_in_range(arc);
            b.lemma_in_range(next);
            assert(self.arc_ok(b.data(b@[pos(b@, arc.spec_index())])));
            assert(self.arc_ok(b.data(b@[pos(b@, next.spec_index())])));
        }
        match self.beach.start(arc) {
            ArcStart::Unknown => {},
            ArcStart::Vertex(s) => {
                self.add_edge(s, vertex, c0, c1);
            },
            ArcStart::Temporary(t) => {
                match self.temporaries[t] {
                    None => {
                        self.temporaries.set(t, Some(vertex));
                        proof {
                            let b = self.spec_beach();
                            assert forall|i: int| 0 <= i < b@.len() implies self.arc_ok(#[trigger] b.data(b@[i])) by {
                                assert(old(self).arc_ok(old(self).spec_beach().data(b@[i])));
                            }
                            assert forall|u: int| 0 <= u < self.spec_temporaries().len() implies (#[trigger] self.spec_temporaries()[u] matches Some(
                                v,
                            ) ==> v.spec_index() < self.spec_diagram()@.vertices.len()) by {
                                if u != t {
                                    assert(self.spec_temporaries()[u] == old(self).spec_temporaries()[u]);
                                }
                            }
                        }
                    },
                    Some(s) => {
                        proof {
                            assert(self.spec_temporaries()[t as int] == Some(s));
                            if old(self).slots_ok() {
                                let pr = self.spec_slot_cells()[t as int];
                                let vs = self.spec_diagram()@.vertices;
                                assert(touches(vs[s.spec_index() as int], pr.0) && touches(vs[s.spec_index() as int], pr.1));
                            }
                        }
                        self.add_edge(s, vertex, c0, c1);
                    },
                }
            },
        }
    }

    fn remove_arc(&mut self, arc: Arc)
        requires
            old(self).core_wf(),
            old(self).spec_beach().has(arc),
        ensures
            final(self).spec_slot_cells() == old(self).spec_slot_cells(),
            final(self).core_wf(),
            final(self).spec_diagram() == old(self).spec_diagram(),
            final(self).spec_temporaries() == old(self).spec_temporaries(),
            final(self).spec_queue() == old(self).spec_queue(),
            final(self).spec_beach()@ == old(self).spec_beach()@.remove(
                pos(old(self).spec_beach()@, arc.spec_index()),
            ),
            final(self).spec_beach().created() == old(self).spec_beach().created(),
            forall|a: usize| final(self).spec_beach().data(a) == old(self).spec_beach().data(a),
            forall|a: Arc|
                a.spec_index() != arc.spec_index() ==> (final(self).spec_beach().has(a) <==> old(
                    self,
                ).spec_beach().has(a)),
            !final(self).spec_beach().has(arc),
    {
        let ghost ob = self.spec_beach();
        proof {
            ob.lemma_in_range(arc);
        }
        self.beach.remove(arc);
        proof {
            let b = self.spec_beach();
            let p = pos(ob@, arc.spec_index());
            ob.lemma_no_duplicates();
            assert forall|i: int| 0 <= i < b@.len() implies self.arc_ok(#[trigger] b.data(b@[i])) by {
                let k = if i < p { i } else { i + 1 };
                assert(b@[i] == ob@[k]);
                assert(old(self).arc_ok(ob.data(ob@[k])));
            }
            assert forall|a: Arc| a.spec_index() != arc.spec_index() implies (b.has(a) <==> ob.has(a)) by {
                let x = a.spec_index();
                if ob.has(a) {
                    let k = choose|k: int| 0 <= k < ob@.len() && ob@[k] == x;
                    if k < p {
                        assert(b@[k] == x);
                    } else {
                        assert(k != p);
                        assert(b@[k - 1] == x);
                    }
                }
                if b.has(a) {
                    let k = choose|k: int| 0 <= k < b@.len() && b@[k] == x;
                    if k < p {
                        assert(ob@[k] == x);
                    } else {
                        assert(ob@[k + 1] == x);
                    }
                }
            }
            assert(!b.has(arc)) by {
                if b.has(arc) {
                    let k = choose|k: int| 0 <= k < b@.len() && b@[k] == arc.spec_index();
                    if k < p {
                        assert(ob@[k] == arc.spec_index());
                    } else {
                        assert(ob@[k + 1] == arc.spec_index());
                    }
                }
            }
        }
    }

    /// Fires the circle event `e`, whose circle is centred at `position`.
    /// If the arc and its two neighbours belong to three distinct cells, a
    /// vertex where those cells meet is added, the boundaries on both sides
    /// of the arc end there, and the arc leaves the line; the arc before it
    /// then starts a new boundary at the vertex. When only two arcs would
    /// remain, the last boundary ends there too and the line is emptied.
    /// Returns the two neighbours, whose circles the caller should evaluate
    /// again, unless the line was emptied or nothing was added. The arc
    /// before takes the vertex as its start whether or not its circle is
    /// scheduled again: the boundary between it and the arc after it begins
    /// there in any case, and keeping the old start would end a boundary
    /// that was already closed.
    pub fn circle_event(&mut self, e: CircleEvent, position: P) -> (r: Option<(Arc, Arc)>)
        requires
            old(self).wf(),
            old(self).fires(e),
        ensures
            final(self).wf(),
            final(self).spec_queue() == old(self).spec_queue(),
            final(self).spec_beach().created() == old(self).spec_beach().created(),
            ({
                let ob = old(self).spec_beach();
                let b = final(self).spec_beach();
                let od = old(self).spec_diagram()@;
                let d = final(self).spec_diagram()@;
                let prev = ob.spec_prev(e.arc);
                let next = ob.spec_next(e.arc);
                let cells = [ob.data(prev).cell, ob.data(e.arc.spec_index()).cell, ob.data(next).cell];
                let v = Vertex::spec_new(od.vertices.len() as usize);
                let d0 = DiagramView {
                    vertices: od.vertices.push(VertexData { cells }),
                    positions: od.positions.push(position),
                    ..od
                };
                let s1 = closed(d0, old(self).spec_temporaries(), ob.data(prev).start, v, cells[0], cells[1]);
                let s2 = closed(s1.0, s1.1, ob.data(e.arc.spec_index()).start, v, cells[1], cells[2]);
                let s3 = if ob@.len() == 3 {
                    closed(s2.0, s2.1, ob.data(next).start, v, cells[2], cells[0])
                } else {
                    s2
                };
                if distinct3(cells[0], cells[1], cells[2]) {
                    &&& (d, final(self).spec_temporaries()) == s3
                    &&& !b.has(e.arc)
                    &&& if ob@.len() == 3 {
                        &&& r.is_none()
                        &&& b@.len() == 0
                    } else {
                        &&& r.is_some()
                        &&& r.unwrap().0.spec_index() == prev
                        &&& r.unwrap().1.spec_index() == next
                        &&& b@ == ob@.remove(pos(ob@, e.arc.spec_index()))
                        &&& b.data(prev).start == ArcStart::Vertex(v)
                    }
                } else {
                    &&& r.is_none()
                    &&& d == od
                    &&& final(self).spec_temporaries() == old(self).spec_temporaries()
                    &&& b@ == ob@
                    &&& !b.data(e.arc.spec_index()).is_valid
                }
            }),
    {
        let arc = e.arc;
        let (prev, next) = self.beach.neighbors(arc);
        let c0 = self.beach.cell(prev);
        let c1 = self.beach.cell(arc);
        let c2 = self.beach.cell(next);
        if c0.index() == c1.index() || c1.index() == c2.index() || c0.index() == c2.index() {
            self.detach_arc(arc);
            proof {
                lemma_same_shape(old(self), self);
            }
            return None;
        }
        let ghost ob = self.spec_beach();
        let ghost n_vertices = self.spec_diagram()@.vertices.len();
        proof {
            ob.lemma_in_range(arc);
            ob.lemma_in_range(prev);
            ob.lemma_in_range(next);
            assert(self.arc_ok(ob.data(ob@[pos(ob@, prev.spec_index())])));
            assert(self.arc_ok(ob.data(ob@[pos(ob@, arc.spec_index())])));
            assert(self.arc_ok(ob.data(ob@[pos(ob@, next.spec_index())])));
            ob.lemma_next_of_prev(arc);
            Arc::lemma_spec_new(prev.spec_index());
            Arc::lemma_spec_equal(prev, Arc::spec_new(ob.spec_prev(arc)));
            assert(ob.spec_next(prev) == arc.spec_index());
        }
        self.detach_arc(arc);
        self.detach_arc(prev);
        self.detach_arc(next);
        let cells = [c0, c1, c2];
        let v = self.add_vertex(position, cells);
        let ghost pp = pos(ob@, prev.spec_index());
        let ghost pa = pos(ob@, arc.spec_index());
        let ghost pn = pos(ob@, next.spec_index());
        proof {
            Vertex::lemma_spec_new(n_vertices as usize);
            Vertex::lemma_spec_equal(v, Vertex::spec_new(n_vertices as usize));
            let vd = self.spec_diagram()@.vertices[v.spec_index() as int];
            assert(vd.cells == cells);
            assert(cells_of(vd)[0] == c0.spec_index());
            assert(cells_of(vd)[1] == c1.spec_index());
            assert(cells_of(vd)[2] == c2.spec_index());
            assert(touches(vd, c0.spec_index()) && touches(vd, c1.spec_index()) && touches(vd, c2.spec_index()));
            assert(ob@[succ(pp, ob@.len() as int)] == arc.spec_index());
            assert(ob@[succ(pa, ob@.len() as int)] == next.spec_index());
            assert(old(self).boundary_ok(pp));
            assert(old(self).boundary_ok(pa));
            assert(old(self).boundary_ok(pn));
            lemma_start_kept(old(self), self, ob.data(prev.spec_index()).start, c0.spec_index(), c1.spec_index());
            lemma_start_kept(old(self), self, ob.data(arc.spec_index()).start, c1.spec_index(), c2.spec_index());
            assert(self.spec_beach().data(prev.spec_index()).start == ob.data(prev.spec_index()).start);
            assert(self.spec_beach().data(arc.spec_index()).start == ob.data(arc.spec_index()).start);
            assert(self.spec_beach().spec_next(prev) == arc.spec_index());
        }
        self.close_edge(prev, v);
        self.close_edge(arc, v);
        proof {
            assert(prev.spec_index() != arc.spec_index());
            assert(next.spec_index() != arc.spec_index());
            assert(prev.spec_index() != next.spec_index());
        }
        self.remove_arc(arc);
        if self.beach.len() == 2 {
            proof {
                self.spec_beach().lemma_two(next, prev);
                let n3 = ob@.len() as int;
                assert(n3 == 3);
                assert(ob@[succ(pn, n3)] == prev.spec_index()) by {
                    ob.lemma_no_duplicates();
                    assert(pp != pa && pa != pn && pp != pn);
                }
                lemma_start_kept(old(self), self, ob.data(next.spec_index()).start, c2.spec_index(), c0.spec_index());
                assert(self.spec_beach().data(next.spec_index()).start == ob.data(next.spec_index()).start);
            }
            self.close_edge(next, v);
            self.remove_arc(prev);
            self.remove_arc(next);
            proof {
                assert(self.spec_beach()@.len() == 0);
                assert forall|i: int| 0 <= i < self.spec_beach()@.len() implies #[trigger] self.boundary_ok(i) by {}
            }
            None
        } else {
            self.set_arc_start(prev, ArcStart::Vertex(v));
            proof {
                let b = self.spec_beach();
                let n0 = ob@.len() as int;
                let vd = self.spec_diagram()@.vertices[v.spec_index() as int];
                assert(vd.cells == cells);
                assert(cells_of(vd)[0] == c0.spec_index());
                assert(cells_of(vd)[2] == c2.spec_index());
                ob.lemma_no_duplicates();
                assert(b@ == ob@.remove(pa));
                assert forall|i: int| 0 <= i < n0 - 1 implies #[trigger] self.boundary_ok(i) by {
                    let k = if i < pa { i } else { i + 1 };
                    assert(b@[i] == ob@[k]);
                    let x = ob@[k];
                    let j = succ(i, n0 - 1);
                    if x == prev.spec_index() {
                        assert(k == pp);
                        assert(b@[j] == next.spec_index());
                    } else {
                        assert(k != pp && k != pa);
                        assert(old(self).boundary_ok(k));
                        assert(old(self).arc_ok(ob.data(x)));
                        lemma_start_kept(old(self), self, ob.data(x).start, ob.data(x).cell.spec_index(), ob.data(ob@[succ(k, n0)]).cell.spec_index());
                        let kk = succ(k, n0);
                        assert(kk != pa);
                        assert(b@[j] == ob@[kk]);
                    }
                }
            }
            Some((prev, next))
        }
    }
}

/// A start that separates two cells keeps doing so while vertices are only
/// added and the slots keep their cells.
proof fn lemma_start_kept<P>(a: &Sweep<P>, b: &Sweep<P>, start: ArcStart, c0: usize, c1: usize)
    requires
        a.start_separates(start, c0, c1),
        start matches ArcStart::Vertex(s) ==> s.spec_index() < a.spec_diagram()@.vertices.len(),
        a.spec_diagram()@.vertices.len() <= b.spec_diagram()@.vertices.len(),
        forall|k: int|
            0 <= k < a.spec_diagram()@.vertices.len() ==> #[trigger] b.spec_diagram()@.vertices[k]
                == a.spec_diagram()@.vertices[k],
        b.spec_slot_cells() == a.spec_slot_cells(),
    ensures
        b.start_separates(start, c0, c1),
{
    if let ArcStart::Vertex(s) = start {
        assert(b.spec_diagram()@.vertices[s.spec_index() as int] == a.spec_diagram()@.vertices[s.spec_index() as int]);
    }
}

/// Adding cells and empty slots keeps the tables and the edges right.
proof fn lemma_tables_kept<P>(a: &Sweep<P>, b: &Sweep<P>)
    requires
        a.wf(),
        b.spec_diagram()@.vertices == a.spec_diagram()@.vertices,
        b.spec_diagram()@.edges == a.spec_diagram()@.edges,
        b.spec_temporaries().len() >= a.spec_temporaries().len(),
        b.spec_slot_cells().len() == b.spec_temporaries().len(),
        forall|t: int|
            0 <= t < a.spec_temporaries().len() ==> #[trigger] b.spec_temporaries()[t] == a.spec_temporaries()[t]
                && b.spec_slot_cells()[t] == a.spec_slot_cells()[t],
        forall|t: int|
            a.spec_temporaries().len() <= t < b.spec_temporaries().len() ==> #[trigger] b.spec_temporaries()[t]
                is None,
    ensures
        b.slots_ok(),
        b.spec_diagram().edges_separate(),
{
    let d = b.spec_diagram()@;
    assert forall|e: int| 0 <= e < d.edges.len() implies {
        let ed = #[trigger] d.edges[e];
        let v0 = d.vertices[ed.vertices.0.spec_index() as int];
        let v1 = d.vertices[ed.vertices.1.spec_index() as int];
        &&& ed.cells.0.spec_index() != ed.cells.1.spec_index()
        &&& touches(v0, ed.cells.0.spec_index())
        &&& touches(v0, ed.cells.1.spec_index())
        &&& touches(v1, ed.cells.0.spec_index())
        &&& touches(v1, ed.cells.1.spec_index())
    } by {
        assert(a.spec_diagram()@.edges[e] == d.edges[e]);
    }
    assert forall|t: int| 0 <= t < b.spec_temporaries().len() implies (#[trigger] b.spec_temporaries()[t] matches Some(s)
        ==> touches(d.vertices[s.spec_index() as int], b.spec_slot_cells()[t].0) && touches(
        d.vertices[s.spec_index() as int],
        b.spec_slot_cells()[t].1,
    )) by {
        if t < a.spec_temporaries().len() {
            assert(a.spec_temporaries()[t] == b.spec_temporaries()[t]);
        }
    }
}

/// A sweep whose line, diagram and tables are those of a well-formed
/// sweep is well-formed too.
proof fn lemma_same_shape<P>(a: &Sweep<P>, b: &Sweep<P>)
    requires
        a.wf(),
        b.core_wf(),
        b.spec_beach()@ == a.spec_beach()@,
        forall|x: usize|
            #[trigger] b.spec_beach().data(x).cell == a.spec_beach().data(x).cell && b.spec_beach().data(x).start
                == a.spec_beach().data(x).start,
        b.spec_diagram() == a.spec_diagram(),
        b.spec_temporaries() == a.spec_temporaries(),
        b.spec_slot_cells() == a.spec_slot_cells(),
    ensures
        b.wf(),
{
    let n = b.spec_beach()@.len() as int;
    assert forall|i: int| 0 <= i < n implies #[trigger] b.boundary_ok(i) by {
        assert(a.boundary_ok(i));
        let x = b.spec_beach()@[i];
        let y = b.spec_beach()@[succ(i, n)];
        assert(b.spec_beach().data(x).cell == a.spec_beach().data(x).cell);
        assert(b.spec_beach().data(y).cell == a.spec_beach().data(y).cell);
    }
}

/// Every vertex of a sweep's diagram is where exactly three cells meet:
/// its three cells are distinct cells of the diagram.
pub proof fn lemma_vertex_valence<P>(s: &Sweep<P>)
    requires
        s.core_wf(),
    ensures
        forall|v: int|
            0 <= v < s.spec_diagram()@.vertices.len() ==> {
                let cs = #[trigger] cells_of(s.spec_diagram()@.vertices[v]);
                &&& cs.len() == 3
                &&& cs.no_duplicates()
                &&& forall|k: int| 0 <= k < 3 ==> cs[k] < s.spec_diagram()@.cells.len()
            },
{
    let d = s.spec_diagram()@;
    assert forall|v: int| 0 <= v < d.vertices.len() implies {
        let cs = #[trigger] cells_of(d.vertices[v]);
        &&& cs.len() == 3
        &&& cs.no_duplicates()
        &&& forall|k: int| 0 <= k < 3 ==> cs[k] < d.cells.len()
    } by {
        let cs = cells_of(d.vertices[v]);
        assert forall|k: int| 0 <= k < 3 implies cs[k] < d.cells.len() by {
            assert(d.vertices[v].cells[k].spec_index() < d.cells.len());
        }
    }
}

/// For every edge of a sweep's diagram, the two cells that it separates
/// are distinct and are cells of both of its ends. Unless its two ends touch
/// the same three cells (as the two poles of sites on one great circle do),
/// they are the only cells that both ends touch.
pub proof fn lemma_edge_cells<P>(s: &Sweep<P>)
    requires
        s.wf(),
    ensures
        forall|e: int|
            #![trigger s.spec_diagram()@.edges[e]]
            0 <= e < s.spec_diagram()@.edges.len() ==> {
                let d = s.spec_diagram()@;
                let ed = d.edges[e];
                let a = cells_of(d.vertices[ed.vertices.0.spec_index() as int]).to_set();
                let b = cells_of(d.vertices[ed.vertices.1.spec_index() as int]).to_set();
                &&& ed.cells.0.spec_index() != ed.cells.1.spec_index()
                &&& a.contains(ed.cells.0.spec_index()) && a.contains(ed.cells.1.spec_index())
                &&& b.contains(ed.cells.0.spec_index()) && b.contains(ed.cells.1.spec_index())
                &&& a != b ==> a.intersect(b) == set![ed.cells.0.spec_index(), ed.cells.1.spec_index()]
            },
{
    let d = s.spec_diagram()@;
    lemma_vertex_valence(s);
    assert forall|e: int| 0 <= e < d.edges.len() implies {
        let ed = #[trigger] d.edges[e];
        let a = cells_of(d.vertices[ed.vertices.0.spec_index() as int]).to_set();
        let b = cells_of(d.vertices[ed.vertices.1.spec_index() as int]).to_set();
        &&& ed.cells.0.spec_index() != ed.cells.1.spec_index()
        &&& a.contains(ed.cells.0.spec_index()) && a.contains(ed.cells.1.spec_index())
        &&& b.contains(ed.cells.0.spec_index()) && b.contains(ed.cells.1.spec_index())
        &&& a != b ==> a.intersect(b) == set![ed.cells.0.spec_index(), ed.cells.1.spec_index()]
    } by {
        let ed = d.edges[e];
        let va = cells_of(d.vertices[ed.vertices.0.spec_index() as int]);
        let vb = cells_of(d.vertices[ed.vertices.1.spec_index() as int]);
        let a = va.to_set();
        let b = vb.to_set();
        let c0 = ed.cells.0.spec_index();
        let c1 = ed.cells.1.spec_index();
        assert(va.no_duplicates() && vb.no_duplicates());
        if a != b {
            assert forall|y: usize| a.intersect(b).contains(y) implies y == c0 || y == c1 by {
                if y != c0 && y != c1 {
                    assert forall|x: usize| a.contains(x) <==> b.contains(x) by {
                        assert(va.contains(y) && vb.contains(y));
                    }
                    assert(a =~= b);
                }
            }
            assert(a.intersect(b) =~= set![c0, c1]);
        }
    }
}

} // verus!


