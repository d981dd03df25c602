use spherical_voronoi::diagram::{Cell, Diagram, Vertex};

fn three_cells(d: &mut Diagram<u32>, n: usize) -> Vec<Cell> {
    (0..n).map(|i| d.add_cell(i)).collect()
}

#[test]
fn diagram_add_items_and_read_back() {
    let mut d: Diagram<u32> = Diagram::new();
    let c = three_cells(&mut d, 4);
    let v0 = d.add_vertex(100, [c[0], c[1], c[2]]);
    let v1 = d.add_vertex(200, [c[1], c[2], c[3]]);
    assert_eq!(*d.vertex_position(v1), 200);
    assert_eq!(d.vertex_cells(v0).iter().map(|c| c.index()).collect::<Vec<_>>(), vec![0, 1, 2]);
    let e = d.add_edge(v0, v1, c[1], c[2]);
    assert_eq!(d.edge_vertices(e).0.index(), 0);
    assert_eq!(d.edge_cells(e).1.index(), 2);
    assert_eq!(d.num_vertices(), 2);
    assert_eq!(d.num_edges(), 1);
    assert_eq!(d.num_cells(), 4);
    assert_eq!(d.cell_site(c[3]), 3);
    assert_eq!(d.vertices().len(), 2);
    assert_eq!(d.edges().len(), 1);
    assert_eq!(d.cells().len(), 4);
}

#[test]
fn diagram_other_ends() {
    let mut d: Diagram<u32> = Diagram::new();
    let c = three_cells(&mut d, 4);
    let v0 = d.add_vertex(0, [c[0], c[1], c[2]]);
    let v1 = d.add_vertex(0, [c[1], c[2], c[3]]);
    let e = d.add_edge(v0, v1, c[1], c[2]);
    assert!(d.other_edge_vertex(e, v0) == v1);
    assert!(d.other_edge_vertex(e, v1) == v0);
    assert_eq!(d.other_edge_vertex(e, Vertex::new(9)).index(), usize::MAX);
    assert!(d.other_edge_cell(e, c[1]) == c[2]);
    assert_eq!(d.other_edge_cell(e, c[0]).index(), usize::MAX);
}

#[test]
fn diagram_incidence_queries() {
    let mut d: Diagram<u32> = Diagram::new();
    let c = three_cells(&mut d, 4);
    let v0 = d.add_vertex(0, [c[0], c[1], c[2]]);
    let v1 = d.add_vertex(0, [c[1], c[2], c[3]]);
    let v2 = d.add_vertex(0, [c[0], c[1], c[3]]);
    let e0 = d.add_edge(v0, v1, c[1], c[2]);
    let e1 = d.add_edge(v1, v2, c[1], c[3]);
    assert_eq!(d.vertex_edges(v1).iter().map(|e| e.index()).collect::<Vec<_>>(), vec![e0.index(), e1.index()]);
    assert_eq!(d.vertex_neighbors(v1).iter().map(|v| v.index()).collect::<Vec<_>>(), vec![0, 2]);
    assert_eq!(d.cell_vertices(c[3]).iter().map(|v| v.index()).collect::<Vec<_>>(), vec![1, 2]);
    assert_eq!(d.cell_edges(c[1]).len(), 2);
    assert_eq!(d.cell_neighbors(c[1]).iter().map(|c| c.index()).collect::<Vec<_>>(), vec![2, 3]);
    d.set_edge_cells(e0, c[2], c[1]);
    assert_eq!(d.edge_cells(e0).0.index(), 2);
}

#[test]
fn diagram_common_cells() {
    let mut d: Diagram<u32> = Diagram::new();
    let c = three_cells(&mut d, 5);
    let v0 = d.add_vertex(0, [c[0], c[1], c[2]]);
    let v1 = d.add_vertex(0, [c[2], c[1], c[3]]);
    let v2 = d.add_vertex(0, [c[3], c[4], c[0]]);
    assert_eq!(d.common_cells(v0, v1).iter().map(|c| c.index()).collect::<Vec<_>>(), vec![1, 2]);
    assert_eq!(d.common_cells(v0, v2).iter().map(|c| c.index()).collect::<Vec<_>>(), vec![0]);
    assert_eq!(d.common_cells(v1, v2).iter().map(|c| c.index()).collect::<Vec<_>>(), vec![3]);
}

#[test]
fn diagram_euler_characteristic() {
    let mut d: Diagram<u32> = Diagram::new();
    let c = three_cells(&mut d, 4);
    let v = d.add_vertex(0, [c[0], c[1], c[2]]);
    d.add_edge(v, v, c[0], c[1]);
    assert_eq!(d.euler_characteristic(), 1 - 1 + 4);
}
