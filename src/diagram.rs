//! The diagram that a sweep fills: vertices, edges and cells, and how they
//! meet. Positions are carried as they are given; the diagram never reads
//! them.
use crate::id::{Id, IdVec};
use vstd::prelude::*;

verus! {

/// A Voronoi vertex: the three cells that meet there.
#[derive(Clone, Copy)]
pub struct VertexData {
    pub cells: [Cell; 3],
}

/// An edge: its two end vertices and the two cells that it separates.
#[derive(Clone, Copy)]
pub struct EdgeData {
    pub vertices: (Vertex, Vertex),
    pub cells: (Cell, Cell),
}

/// A cell: the position of its site among the points given to the sweep.
#[derive(Clone, Copy)]
pub struct CellData {
    pub site: usize,
}

pub type Vertex = Id<VertexData>;

pub type Edge = Id<EdgeData>;

pub type Cell = Id<CellData>;

/// The indices of a vertex's three cells.
pub open spec fn cells_of(v: VertexData) -> Seq<usize> {
    seq![v.cells[0].spec_index(), v.cells[1].spec_index(), v.cells[2].spec_index()]
}

/// Whether the vertex `v` touches the cell with index `c`.
pub open spec fn touches(v: VertexData, c: usize) -> bool {
    cells_of(v).contains(c)
}

/// The positions below `n` at which `f` holds, in increasing order.
pub open spec fn indices_where(n: int, f: spec_fn(int) -> bool) -> Seq<int>
    decreases n,
{
    if n <= 0 {
        Seq::empty()
    } else if f(n - 1) {
        indices_where(n - 1, f).push(n - 1)
    } else {
        indices_where(n - 1, f)
    }
}

/// The indices named by a sequence of handles.
pub open spec fn ids_of<T>(s: Seq<Id<T>>) -> Seq<int> {
    s.map_values(|x: Id<T>| x.spec_index() as int)
}

/// Whether the edge `e` ends at the vertex with index `v`.
pub open spec fn edge_at(e: EdgeData, v: usize) -> bool {
    e.vertices.0.spec_index() == v || e.vertices.1.spec_index() == v
}

/// Whether the edge `e` borders the cell with index `c`.
pub open spec fn edge_of(e: EdgeData, c: usize) -> bool {
    e.cells.0.spec_index() == c || e.cells.1.spec_index() == c
}

/// The far end of `e` seen from the vertex with index `v`.
pub open spec fn other_end(e: EdgeData, v: usize) -> usize {
    if v == e.vertices.0.spec_index() {
        e.vertices.1.spec_index()
    } else if v == e.vertices.1.spec_index() {
        e.vertices.0.spec_index()
    } else {
        usize::MAX
    }
}

/// The cell across `e` from the cell with index `c`.
pub open spec fn other_side(e: EdgeData, c: usize) -> usize {
    if c == e.cells.0.spec_index() {
        e.cells.1.spec_index()
    } else if c == e.cells.1.spec_index() {
        e.cells.0.spec_index()
    } else {
        usize::MAX
    }
}

/// `c` alone if the vertex `b` touches it, else nothing.
pub open spec fn keep_if_touches(c: usize, b: VertexData) -> Seq<usize> {
    if touches(b, c) {
        seq![c]
    } else {
        Seq::empty()
    }
}

/// The cells of `a`, in its order, that `b` touches too.
pub open spec fn common_cells_of(a: VertexData, b: VertexData) -> Seq<usize> {
    keep_if_touches(a.cells[0].spec_index(), b) + keep_if_touches(a.cells[1].spec_index(), b)
        + keep_if_touches(a.cells[2].spec_index(), b)
}

/// A cell is common to two vertices exactly when both touch it.
pub proof fn lemma_common_cells(a: VertexData, b: VertexData)
    ensures
        forall|c: usize| #[trigger] common_cells_of(a, b).contains(c) <==> (touches(a, c) && touches(b, c)),
{
    let s0 = keep_if_touches(a.cells[0].spec_index(), b);
    let s1 = keep_if_touches(a.cells[1].spec_index(), b);
    let s2 = keep_if_touches(a.cells[2].spec_index(), b);
    let ca = cells_of(a);
    let cc = common_cells_of(a, b);
    assert forall|c: usize| #[trigger] cc.contains(c) <==> (touches(a, c) && touches(b, c)) by {
        if cc.contains(c) {
            let k = choose|k: int| 0 <= k < cc.len() && cc[k] == c;
            if k < s0.len() {
                assert(cc[k] == s0[k]);
                assert(ca[0] == c);
            } else if k < s0.len() + s1.len() {
                assert(cc[k] == s1[k - s0.len()]);
                assert(ca[1] == c);
            } else {
                assert(cc[k] == s2[k - s0.len() - s1.len()]);
                assert(ca[2] == c);
            }
        }
        if touches(a, c) && touches(b, c) {
            let k = choose|k: int| 0 <= k < ca.len() && ca[k] == c;
            if k == 0 {
                assert(cc[0] == c);
            } else if k == 1 {
                assert(cc[s0.len() as int] == c);
            } else {
                assert(cc[(s0.len() + s1.len()) as int] == c);
            }
        }
    }
}

/// What a diagram holds, item by item.
pub struct DiagramView<P> {
    pub positions: Seq<P>,
    pub vertices: Seq<VertexData>,
    pub edges: Seq<EdgeData>,
    pub cells: Seq<CellData>,
}

impl<P> DiagramView<P> {
    /// The diagram with an edge from `v0` to `v1` between `c0` and `c1`
    /// added.
    pub open spec fn with_edge(self, v0: Vertex, v1: Vertex, c0: Cell, c1: Cell) -> DiagramView<P> {
        DiagramView { edges: self.edges.push(EdgeData { vertices: (v0, v1), cells: (c0, c1) }), ..self }
    }
}

/// A Voronoi diagram on the sphere, with vertex positions of type `P`.
pub struct Diagram<P> {
    positions: Vec<P>,
    vertices: IdVec<VertexData>,
    edges: IdVec<EdgeData>,
    cells: IdVec<CellData>,
}

impl<P> View for Diagram<P> {
    type V = DiagramView<P>;

    closed spec fn view(&self) -> DiagramView<P> {
        DiagramView {
            positions: self.positions@,
            vertices: self.vertices@,
            edges: self.edges@,
            cells: self.cells@,
        }
    }
}

impl<P> Diagram<P> {
    /// Every handle stored in the diagram names an item of it.
    pub open spec fn wf(&self) -> bool {
        let d = self@;
        &&& d.positions.len() == d.vertices.len()
        &&& forall|v: int, k: int|
            0 <= v < d.vertices.len() && 0 <= k < 3 ==> (#[trigger] d.vertices[v].cells[k]).spec_index()
                < d.cells.len()
        &&& forall|e: int|
            0 <= e < d.edges.len() ==> {
                &&& (#[trigger] d.edges[e]).vertices.0.spec_index() < d.vertices.len()
                &&& d.edges[e].vertices.1.spec_index() < d.vertices.len()
                &&& d.edges[e].cells.0.spec_index() < d.cells.len()
                &&& d.edges[e].cells.1.spec_index() < d.cells.len()
            }
    }

    /// Each vertex touches three distinct cells.
    pub open spec fn vertices_distinct(&self) -> bool {
        forall|v: int| 0 <= v < self@.vertices.len() ==> (#[trigger] cells_of(self@.vertices[v])).no_duplicates()
    }

    /// The two cells of each edge are distinct and touch both its ends.
    pub open spec fn edges_separate(&self) -> bool {
        forall|e: int|
            0 <= e < self@.edges.len() ==> {
                let ed = #[trigger] self@.edges[e];
                let v0 = self@.vertices[ed.vertices.0.spec_index() as int];
                let v1 = self@.vertices[ed.vertices.1.spec_index() as int];
                &&& ed.cells.0.spec_index() != ed.cells.1.spec_index()
                &&& touches(v0, ed.cells.0.spec_index())
                &&& touches(v0, ed.cells.1.spec_index())
                &&& touches(v1, ed.cells.0.spec_index())
                &&& touches(v1, ed.cells.1.spec_index())
            }
    }

    pub fn new() -> (r: Self)
        ensures
            r.wf(),
            r@.vertices.len() == 0,
            r@.edges.len() == 0,
            r@.cells.len() == 0,
    {
        Diagram { positions: Vec::new(), vertices: IdVec::new(), edges: IdVec::new(), cells: IdVec::new() }
    }

    pub fn num_vertices(&self) -> (r: usize)
        ensures
            r == self@.vertices.len(),
    {
        self.vertices.len()
    }

    pub fn num_edges(&self) -> (r: usize)
        ensures
            r == self@.edges.len(),
    {
        self.edges.len()
    }

    pub fn num_cells(&self) -> (r: usize)
        ensures
            r == self@.cells.len(),
    {
        self.cells.len()
    }

    /// Adds a vertex at `position` where `cells` meet.
    pub fn add_vertex(&mut self, position: P, cells: [Cell; 3]) -> (r: Vertex)
        requires
            old(self).wf(),
            forall|k: int| 0 <= k < 3 ==> (#[trigger] cells[k]).spec_index() < old(self)@.cells.len(),
        ensures
            final(self).wf(),
            r.spec_index() == old(self)@.vertices.len(),
            final(self)@.vertices == old(self)@.vertices.push(VertexData { cells }),
            final(self)@.positions == old(self)@.positions.push(position),
            final(self)@.edges == old(self)@.edges,
            final(self)@.cells == old(self)@.cells,
    {
        self.positions.push(position);
        let r = self.vertices.add(VertexData { cells });
        proof {
            let d = self@;
            let o = old(self)@;
            assert forall|v: int, k: int|
                0 <= v < d.vertices.len() && 0 <= k < 3 implies (#[trigger] d.vertices[v].cells[k]).spec_index()
                < d.cells.len() by {
                if v < o.vertices.len() {
                    assert(d.vertices[v] == o.vertices[v]);
                } else {
                    assert(d.vertices[v].cells == cells);
                    assert(cells[k].spec_index() < o.cells.len());
                }
            }
            assert forall|e: int| 0 <= e < d.edges.len() implies {
                &&& (#[trigger] d.edges[e]).vertices.0.spec_index() < d.vertices.len()
                &&& d.edges[e].vertices.1.spec_index() < d.vertices.len()
                &&& d.edges[e].cells.0.spec_index() < d.cells.len()
                &&& d.edges[e].cells.1.spec_index() < d.cells.len()
            } by {
                assert(d.edges[e] == o.edges[e]);
            }
        }
        r
    }

    /// Adds an edge from `vertex0` to `vertex1` between `cell0` and `cell1`.
    pub fn add_edge(&mut self, vertex0: Vertex, vertex1: Vertex, cell0: Cell, cell1: Cell) -> (r: Edge)
        requires
            old(self).wf(),
            vertex0.spec_index() < old(self)@.vertices.len(),
            vertex1.spec_index() < old(self)@.vertices.len(),
            cell0.spec_index() < old(self)@.cells.len(),
            cell1.spec_index() < old(self)@.cells.len(),
        ensures
            final(self).wf(),
            r.spec_index() == old(self)@.edges.len(),
            final(self)@.edges == old(self)@.edges.push(
                EdgeData { vertices: (vertex0, vertex1), cells: (cell0, cell1) },
            ),
            final(self)@.vertices == old(self)@.vertices,
            final(self)@.positions == old(self)@.positions,
            final(self)@.cells == old(self)@.cells,
    {
        let r = self.edges.add(EdgeData { vertices: (vertex0, vertex1), cells: (cell0, cell1) });
        proof {
            let d = self@;
            let o = old(self)@;
            assert forall|e: int| 0 <= e < d.edges.len() implies {
                &&& (#[trigger] d.edges[e]).vertices.0.spec_index() < d.vertices.len()
                &&& d.edges[e].vertices.1.spec_index() < d.vertices.len()
                &&& d.edges[e].cells.0.spec_index() < d.cells.len()
                &&& d.edges[e].cells.1.spec_index() < d.cells.len()
            } by {
                if e < o.edges.len() {
                    assert(d.edges[e] == o.edges[e]);
                }
            }
        }
        r
    }

    /// Adds a cell for the site at position `site` of the input.
    pub fn add_cell(&mut self, site: usize) -> (r: Cell)
        requires
            old(self).wf(),
        ensures
            final(self).wf(),
            r.spec_index() == old(self)@.cells.len(),
            final(self)@.cells == old(self)@.cells.push(CellData { site }),
            final(self)@.vertices == old(self)@.vertices,
            final(self)@.positions == old(self)@.positions,
            final(self)@.edges == old(self)@.edges,
    {
        let r = self.cells.add(CellData { site });
        proof {
            let d = self@;
            let o = old(self)@;
            assert forall|v: int, k: int|
                0 <= v < d.vertices.len() && 0 <= k < 3 implies (#[trigger] d.vertices[v].cells[k]).spec_index()
                < d.cells.len() by {
                assert(o.vertices[v].cells[k].spec_index() < o.cells.len());
            }
            assert forall|e: int| 0 <= e < d.edges.len() implies {
                &&& (#[trigger] d.edges[e]).vertices.0.spec_index() < d.vertices.len()
                &&& d.edges[e].vertices.1.spec_index() < d.vertices.len()
                &&& d.edges[e].cells.0.spec_index() < d.cells.len()
                &&& d.edges[e].cells.1.spec_index() < d.cells.len()
            } by {
                assert(d.edges[e] == o.edges[e]);
            }
        }
        r
    }

    /// Sets the cells that `edge` separates.
    pub fn set_edge_cells(&mut self, edge: Edge, cell0: Cell, cell1: Cell)
        requires
            old(self).wf(),
            edge.spec_index() < old(self)@.edges.len(),
            cell0.spec_index() < old(self)@.cells.len(),
            cell1.spec_index() < old(self)@.cells.len(),
        ensures
            final(self).wf(),
            final(self)@.edges == old(self)@.edges.update(
                edge.spec_index() as int,
                EdgeData { cells: (cell0, cell1), ..old(self)@.edges[edge.spec_index() as int] },
            ),
            final(self)@.vertices == old(self)@.vertices,
            final(self)@.positions == old(self)@.positions,
            final(self)@.cells == old(self)@.cells,
    {
        let mut data = *self.edges.get(edge);
        data.cells = (cell0, cell1);
        self.edges.set(edge, data);
    }

    /// The handles of all vertices, in order.
    pub fn vertices(&self) -> (r: Vec<Vertex>)
        ensures
            ids_of(r@) == Seq::new(self@.vertices.len(), |i: int| i),
    {
        let r = self.vertices.ids();
        assert(ids_of(r@) =~= Seq::new(self@.vertices.len(), |i: int| i));
        r
    }

    /// The handles of all edges, in order.
    pub fn edges(&self) -> (r: Vec<Edge>)
        ensures
            ids_of(r@) == Seq::new(self@.edges.len(), |i: int| i),
    {
        let r = self.edges.ids();
        assert(ids_of(r@) =~= Seq::new(self@.edges.len(), |i: int| i));
        r
    }

    /// The handles of all cells, in order.
    pub fn cells(&self) -> (r: Vec<Cell>)
        ensures
            ids_of(r@) == Seq::new(self@.cells.len(), |i: int| i),
    {
        let r = self.cells.ids();
        assert(ids_of(r@) =~= Seq::new(self@.cells.len(), |i: int| i));
        r
    }

    pub fn vertex_position(&self, vertex: Vertex) -> (r: &P)
        requires
            self.wf(),
            vertex.spec_index() < self@.vertices.len(),
        ensures
            *r == self@.positions[vertex.spec_index() as int],
    {
        &self.positions[vertex.index()]
    }

    /// The position of the site of `cell` among the points given to the
    /// sweep.
    pub fn cell_site(&self, cell: Cell) -> (r: usize)
        requires
            cell.spec_index() < self@.cells.len(),
        ensures
            r == self@.cells[cell.spec_index() as int].site,
    {
        self.cells.get(cell).site
    }

    /// The three cells that meet at `vertex`.
    pub fn vertex_cells(&self, vertex: Vertex) -> (r: [Cell; 3])
        requires
            vertex.spec_index() < self@.vertices.len(),
        ensures
            r == self@.vertices[vertex.spec_index() as int].cells,
    {
        self.vertices.get(vertex).cells
    }

    /// The two vertices of `edge`.
    pub fn edge_vertices(&self, edge: Edge) -> (r: (Vertex, Vertex))
        requires
            edge.spec_index() < self@.edges.len(),
        ensures
            r == self@.edges[edge.spec_index() as int].vertices,
    {
        self.edges.get(edge).vertices
    }

    /// The two cells that `edge` separates.
    pub fn edge_cells(&self, edge: Edge) -> (r: (Cell, Cell))
        requires
            edge.spec_index() < self@.edges.len(),
        ensures
            r == self@.edges[edge.spec_index() as int].cells,
    {
        self.edges.get(edge).cells
    }

    /// The far end of `edge` seen from `vertex`; no vertex if `vertex` is
    /// not an end of it.
    pub fn other_edge_vertex(&self, edge: Edge, vertex: Vertex) -> (r: Vertex)
        requires
            edge.spec_index() < self@.edges.len(),
        ensures
            ({
                let (v0, v1) = self@.edges[edge.spec_index() as int].vertices;
                r.spec_index() == if vertex.spec_index() == v0.spec_index() {
                    v1.spec_index()
                } else if vertex.spec_index() == v1.spec_index() {
                    v0.spec_index()
                } else {
                    usize::MAX
                }
            }),
    {
        let (vertex0, vertex1) = self.edge_vertices(edge);
        if vertex.index() == vertex0.index() {
            vertex1
        } else if vertex.index() == vertex1.index() {
            vertex0
        } else {
            Vertex::none()
        }
    }

    /// The cell across `edge` from `cell`; no cell if `edge` does not
    /// border `cell`.
    pub fn other_edge_cell(&self, edge: Edge, cell: Cell) -> (r: Cell)
        requires
            edge.spec_index() < self@.edges.len(),
        ensures
            ({
                let (c0, c1) = self@.edges[edge.spec_index() as int].cells;
                r.spec_index() == if cell.spec_index() == c0.spec_index() {
                    c1.spec_index()
                } else if cell.spec_index() == c1.spec_index() {
                    c0.spec_index()
                } else {
                    usize::MAX
                }
            }),
    {
        let (cell0, cell1) = self.edge_cells(edge);
        if cell.index() == cell0.index() {
            cell1
        } else if cell.index() == cell1.index() {
            cell0
        } else {
            Cell::none()
        }
    }

    /// The edges that end at `vertex`, in the order they were added.
    pub fn vertex_edges(&self, vertex: Vertex) -> (r: Vec<Edge>)
        ensures
            ids_of(r@) == indices_where(
                self@.edges.len() as int,
                |e: int| edge_at(self@.edges[e], vertex.spec_index()),
            ),
    {
        let ghost f = |e: int| edge_at(self@.edges[e], vertex.spec_index());
        let n = self.edges.len();
        let ids = self.edges.ids();
        let mut r: Vec<Edge> = Vec::new();
        let mut i: usize = 0;
        while i < n
            invariant
                f == (|e: int| edge_at(self@.edges[e], vertex.spec_index())),
                n == self@.edges.len(),
                ids@.len() == n,
                forall|j: int| 0 <= j < n ==> (#[trigger] ids@[j]).spec_index() == j,
                i <= n,
                ids_of(r@) == indices_where(i as int, f),
            decreases n - i,
        {
            let e = ids[i];
            let (v0, v1) = self.edge_vertices(e);
            let ghost before = r@;
            assert(f(i as int) == (v0.spec_index() == vertex.spec_index() || v1.spec_index() == vertex.spec_index()));
            assert(indices_where(i + 1, f) == if f(i as int) {
                indices_where(i as int, f).push(i as int)
            } else {
                indices_where(i as int, f)
            });
            if v0.index() == vertex.index() || v1.index() == vertex.index() {
                r.push(e);
                assert(ids_of(r@) =~= ids_of(before).push(i as int));
            }
            i += 1;
        }
        r
    }

    /// The edges that border `cell`, in the order they were added.
    pub fn cell_edges(&self, cell: Cell) -> (r: Vec<Edge>)
        ensures
            ids_of(r@) == indices_where(
                self@.edges.len() as int,
                |e: int| edge_of(self@.edges[e], cell.spec_index()),
            ),
    {
        let ghost f = |e: int| edge_of(self@.edges[e], cell.spec_index());
        let n = self.edges.len();
        let ids = self.edges.ids();
        let mut r: Vec<Edge> = Vec::new();
        let mut i: usize = 0;
        while i < n
            invariant
                f == (|e: int| edge_of(self@.edges[e], cell.spec_index())),
                n == self@.edges.len(),
                ids@.len() == n,
                forall|j: int| 0 <= j < n ==> (#[trigger] ids@[j]).spec_index() == j,
                i <= n,
                ids_of(r@) == indices_where(i as int, f),
            decreases n - i,
        {
            let e = ids[i];
            let (c0, c1) = self.edge_cells(e);
            let ghost before = r@;
            assert(indices_where(i + 1, f) == if f(i as int) {
                indices_where(i as int, f).push(i as int)
            } else {
                indices_where(i as int, f)
            });
            if c0.index() == cell.index() || c1.index() == cell.index() {
                r.push(e);
                assert(ids_of(r@) =~= ids_of(before).push(i as int));
            }
            i += 1;
        }
        r
    }

    /// The vertices on the boundary of `cell`, in the order they were added.
    pub fn cell_vertices(&self, cell: Cell) -> (r: Vec<Vertex>)
        ensures
            ids_of(r@) == indices_where(
                self@.vertices.len() as int,
                |v: int| touches(self@.vertices[v], cell.spec_index()),
            ),
    {
        let ghost f = |v: int| touches(self@.vertices[v], cell.spec_index());
        let n = self.vertices.len();
        let ids = self.vertices.ids();
        let mut r: Vec<Vertex> = Vec::new();
        let mut i: usize = 0;
        while i < n
            invariant
                f == (|v: int| touches(self@.vertices[v], cell.spec_index())),
                n == self@.vertices.len(),
                ids@.len() == n,
                forall|j: int| 0 <= j < n ==> (#[trigger] ids@[j]).spec_index() == j,
                i <= n,
                ids_of(r@) == indices_where(i as int, f),
            decreases n - i,
        {
            let v = ids[i];
            let cs = self.vertex_cells(v);
            let ghost before = r@;
            let hit = cs[0].index() == cell.index() || cs[1].index() == cell.index() || cs[2].index()
                == cell.index();
            assert(hit == f(i as int)) by {
                let c = cells_of(self@.vertices[i as int]);
                if hit {
                    if cs[0].spec_index() == cell.spec_index() {
                        assert(c[0] == cell.spec_index());
                    } else if cs[1].spec_index() == cell.spec_index() {
                        assert(c[1] == cell.spec_index());
                    } else {
                        assert(c[2] == cell.spec_index());
                    }
                }
            }
            assert(indices_where(i + 1, f) == if f(i as int) {
                indices_where(i as int, f).push(i as int)
            } else {
                indices_where(i as int, f)
            });
            if hit {
                r.push(v);
                assert(ids_of(r@) =~= ids_of(before).push(i as int));
            }
            i += 1;
        }
        r
    }

    /// The far ends of the edges at `vertex`, edge by edge.
    pub fn vertex_neighbors(&self, vertex: Vertex) -> (r: Vec<Vertex>)
        ensures
            ({
                let es = indices_where(
                    self@.edges.len() as int,
                    |e: int| edge_at(self@.edges[e], vertex.spec_index()),
                );
                &&& r@.len() == es.len()
                &&& forall|k: int|
                    0 <= k < es.len() ==> (#[trigger] r@[k]).spec_index() == other_end(
                        self@.edges[es[k]],
                        vertex.spec_index(),
                    )
            }),
    {
        let es = self.vertex_edges(vertex);
        let ghost ids = ids_of(es@);
        proof {
            self.lemma_indices_in_range(
                self@.edges.len() as int,
                |e: int| edge_at(self@.edges[e], vertex.spec_index()),
            );
        }
        let mut r: Vec<Vertex> = Vec::new();
        let mut k: usize = 0;
        while k < es.len()
            invariant
                ids == ids_of(es@),
                forall|j: int| 0 <= j < ids.len() ==> 0 <= #[trigger] ids[j] < self@.edges.len(),
                k <= es@.len(),
                r@.len() == k,
                forall|j: int|
                    0 <= j < k ==> (#[trigger] r@[j]).spec_index() == other_end(
                        self@.edges[ids[j]],
                        vertex.spec_index(),
                    ),
            decreases es@.len() - k,
        {
            assert(ids[k as int] == es@[k as int].spec_index());
            let w = self.other_edge_vertex(es[k], vertex);
            r.push(w);
            k += 1;
        }
        r
    }

    /// The cells across the edges of `cell`, edge by edge.
    pub fn cell_neighbors(&self, cell: Cell) -> (r: Vec<Cell>)
        ensures
            ({
                let es = indices_where(
                    self@.edges.len() as int,
                    |e: int| edge_of(self@.edges[e], cell.spec_index()),
                );
                &&& r@.len() == es.len()
                &&& forall|k: int|
                    0 <= k < es.len() ==> (#[trigger] r@[k]).spec_index() == other_side(
                        self@.edges[es[k]],
                        cell.spec_index(),
                    )
            }),
    {
        let es = self.cell_edges(cell);
        let ghost ids = ids_of(es@);
        proof {
            self.lemma_indices_in_range(
                self@.edges.len() as int,
                |e: int| edge_of(self@.edges[e], cell.spec_index()),
            );
        }
        let mut r: Vec<Cell> = Vec::new();
        let mut k: usize = 0;
        while k < es.len()
            invariant
                ids == ids_of(es@),
                forall|j: int| 0 <= j < ids.len() ==> 0 <= #[trigger] ids[j] < self@.edges.len(),
                k <= es@.len(),
                r@.len() == k,
                forall|j: int|
                    0 <= j < k ==> (#[trigger] r@[j]).spec_index() == other_side(
                        self@.edges[ids[j]],
                        cell.spec_index(),
                    ),
            decreases es@.len() - k,
        {
            assert(ids[k as int] == es@[k as int].spec_index());
            let c = self.other_edge_cell(es[k], cell);
            r.push(c);
            k += 1;
        }
        r
    }

    proof fn lemma_indices_in_range(&self, n: int, f: spec_fn(int) -> bool)
        ensures
            forall|j: int| 0 <= j < indices_where(n, f).len() ==> 0 <= #[trigger] indices_where(n, f)[j] < n,
        decreases n,
    {
        if n > 0 {
            self.lemma_indices_in_range(n - 1, f);
            let prev = indices_where(n - 1, f);
            assert forall|j: int| 0 <= j < indices_where(n, f).len() implies 0 <= #[trigger] indices_where(n, f)[j] < n by {
                if f(n - 1) {
                    if j < prev.len() {
                        assert(indices_where(n, f)[j] == prev[j]);
                    }
                } else {
                    assert(indices_where(n, f)[j] == prev[j]);
                }
            }
        }
    }

    /// Whether `vertex` touches `cell`.
    fn vertex_touches(&self, vertex: Vertex, cell: Cell) -> (r: bool)
        requires
            vertex.spec_index() < self@.vertices.len(),
        ensures
            r == touches(self@.vertices[vertex.spec_index() as int], cell.spec_index()),
    {
        let cs = self.vertex_cells(vertex);
        let r = cs[0].index() == cell.index() || cs[1].index() == cell.index() || cs[2].index()
            == cell.index();
        proof {
            let c = cells_of(self@.vertices[vertex.spec_index() as int]);
            if r {
                if cs[0].spec_index() == cell.spec_index() {
                    assert(c[0] == cell.spec_index());
                } else if cs[1].spec_index() == cell.spec_index() {
                    assert(c[1] == cell.spec_index());
                } else {
                    assert(c[2] == cell.spec_index());
                }
            }
        }
        r
    }

    /// The cells of `vertex0`, in its order, that `vertex1` touches too.
    pub fn common_cells(&self, vertex0: Vertex, vertex1: Vertex) -> (r: Vec<Cell>)
        requires
            vertex0.spec_index() < self@.vertices.len(),
            vertex1.spec_index() < self@.vertices.len(),
        ensures
            ids_of(r@) == common_cells_of(
                self@.vertices[vertex0.spec_index() as int],
                self@.vertices[vertex1.spec_index() as int],
            ).map_values(|c: usize| c as int),
    {
        let ghost a = self@.vertices[vertex0.spec_index() as int];
        let ghost b = self@.vertices[vertex1.spec_index() as int];
        let cs = self.vertex_cells(vertex0);
        let mut r: Vec<Cell> = Vec::new();
        let mut k: usize = 0;
        while k < 3
            invariant
                cs == a.cells,
                a == self@.vertices[vertex0.spec_index() as int],
                b == self@.vertices[vertex1.spec_index() as int],
                vertex1.spec_index() < self@.vertices.len(),
                k <= 3,
                ids_of(r@) == (if k == 0 {
                    Seq::<usize>::empty()
                } else if k == 1 {
                    keep_if_touches(a.cells[0].spec_index(), b)
                } else if k == 2 {
                    keep_if_touches(a.cells[0].spec_index(), b) + keep_if_touches(a.cells[1].spec_index(), b)
                } else {
                    common_cells_of(a, b)
                }).map_values(|c: usize| c as int),
            decreases 3 - k,
        {
            let c = cs[k];
            assert(c == a.cells[k as int]);
            let ghost before = r@;
            let hit = self.vertex_touches(vertex1, c);
            if hit {
                r.push(c);
            }
            proof {
                let prefix = if k == 0 {
                    Seq::<usize>::empty()
                } else if k == 1 {
                    keep_if_touches(a.cells[0].spec_index(), b)
                } else {
                    keep_if_touches(a.cells[0].spec_index(), b) + keep_if_touches(a.cells[1].spec_index(), b)
                };
                let next = prefix + keep_if_touches(c.spec_index(), b);
                assert(ids_of(before) == prefix.map_values(|c: usize| c as int));
                if hit {
                    assert(ids_of(r@) =~= ids_of(before).push(c.spec_index() as int));
                    assert(next =~= prefix.push(c.spec_index()));
                } else {
                    assert(next =~= prefix);
                }
                assert(ids_of(r@) =~= next.map_values(|c: usize| c as int));
                if k == 0 {
                    assert(next =~= keep_if_touches(a.cells[0].spec_index(), b));
                }
            }
            k += 1;
        }
        r
    }

    /// V − E + F.
    pub fn euler_characteristic(&self) -> (r: i128)
        ensures
            r == self@.vertices.len() - self@.edges.len() + self@.cells.len(),
    {
        self.vertices.len() as i128 - self.edges.len() as i128 + self.cells.len() as i128
    }
}

} // verus!
