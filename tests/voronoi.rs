use cgmath::{InnerSpace, Vector3};
use rand::rngs::StdRng;
use rand::{Rng, SeedableRng};
use spherical_voronoi::beach::Arc;
use spherical_voronoi::diagram::Diagram;
use spherical_voronoi::sites::{check_site_count, distinct_sites, sweep_order, BuildError};
use spherical_voronoi::sweep::{Step, Sweep};
use std::collections::HashMap;

type Position = Vector3<f64>;

struct Site {
    position: Position,
    theta: f64,
    phi: f64,
}

fn sweep_key(theta: f64) -> u64 {
    (theta.max(0.0) + 0.0).to_bits()
}

fn clamp(x: f64) -> f64 {
    x.max(-1.0).min(1.0)
}

fn make_site(p: &Position) -> Option<Site> {
    let length = p.magnitude();
    if !(length > 0.0) {
        return None;
    }
    let position = *p / length;
    let position = Vector3::new(position.x + 0.0, position.y + 0.0, position.z + 0.0);
    Some(Site { position, theta: clamp(position.z).acos(), phi: position.y.atan2(position.x) })
}

fn intersect(s0: &Site, s1: &Site, theta: f64) -> f64 {
    if s0.theta >= theta {
        return s0.phi;
    }
    if s1.theta >= theta {
        return s1.phi;
    }
    let u1 = (theta.cos() - s1.theta.cos()) * s0.theta.sin();
    let u2 = (theta.cos() - s0.theta.cos()) * s1.theta.sin();
    let a = u1 * s0.phi.cos() - u2 * s1.phi.cos();
    let b = u1 * s0.phi.sin() - u2 * s1.phi.sin();
    let c = (s0.theta.cos() - s1.theta.cos()) * theta.sin();
    let length = (a * a + b * b).sqrt();
    let ratio = if length > 0.0 { clamp(c / length) } else { 0.0 };
    ratio.asin() - a.atan2(b)
}

fn forward(angle: f64) -> f64 {
    angle.rem_euclid(2.0 * std::f64::consts::PI)
}

fn arc_site<'a>(sweep: &Sweep<Position>, sites: &'a [Site], arc: Arc) -> &'a Site {
    &sites[sweep.diagram().cell_site(sweep.beach().cell(arc))]
}

/// The last meeting point computed for each pair of neighbouring arcs: the
/// sweep angle it was computed at and its azimuth.
type Memo = HashMap<(usize, usize), (f64, f64)>;

/// Where the arc `arc` meets the arc `next` that follows it, with the sweep
/// at `theta`; a pair asked again at no later sweep angle gets the value
/// kept for it.
fn meeting(sweep: &Sweep<Position>, sites: &[Site], memo: &mut Memo, arc: Arc, next: Arc, theta: f64) -> f64 {
    let pair = (arc.index(), next.index());
    if let Some(&(at, phi)) = memo.get(&pair) {
        if theta <= at {
            return phi;
        }
    }
    let phi = intersect(arc_site(sweep, sites, arc), arc_site(sweep, sites, next), theta);
    memo.insert(pair, (theta, phi));
    phi
}

/// How far forward from the azimuth of `site` the range of `arc` starts
/// and ends, with the sweep at the site.
fn arc_range(sweep: &Sweep<Position>, sites: &[Site], memo: &mut Memo, arc: Arc, site: &Site) -> (f64, f64) {
    let (prev, next) = sweep.beach().neighbors(arc);
    let start = forward(meeting(sweep, sites, memo, prev, arc, site.theta) - site.phi);
    let end = forward(meeting(sweep, sites, memo, arc, next, site.theta) - site.phi);
    (start, end)
}

/// The arc that `site` falls on: of the arcs whose range, measured forward
/// from the site's azimuth, wraps past it, the one that starts nearest
/// before it (ranges overlap only where sites share a polar angle); failing
/// all, the one that starts nearest before it.
fn find_arc(sweep: &Sweep<Position>, sites: &[Site], memo: &mut Memo, site: &Site) -> Arc {
    let beach = sweep.beach();
    let first = beach.first().unwrap();
    let mut best: Option<(Arc, f64)> = None;
    let mut fallback: Option<(Arc, f64)> = None;
    let mut arc = first;
    loop {
        let (start, end) = arc_range(sweep, sites, memo, arc, site);
        if start > end && best.map_or(true, |(_, s)| start > s) {
            best = Some((arc, start));
        }
        if fallback.map_or(true, |(_, s)| start > s) {
            fallback = Some((arc, start));
        }
        arc = beach.next(arc);
        if arc == first {
            break;
        }
    }
    best.or(fallback).unwrap().0
}

fn attach(sweep: &mut Sweep<Position>, sites: &[Site], centres: &mut HashMap<u64, Position>, arc: Arc, min_key: u64) {
    let (prev, next) = sweep.beach().neighbors(arc);
    let p0 = arc_site(sweep, sites, prev).position;
    let p1 = arc_site(sweep, sites, arc).position;
    let p2 = arc_site(sweep, sites, next).position;
    let raw = (p0 - p1).cross(p2 - p1);
    let length = raw.magnitude();
    let circle = if length > 0.0 && length.is_finite() {
        let centre = raw / length;
        let theta = clamp(centre.z).acos() + clamp(centre.dot(p1)).acos();
        Some((sweep_key(theta), centre))
    } else {
        None
    };
    if let Some(order) = sweep.try_attach(arc, circle.map(|c| c.0), min_key) {
        centres.insert(order, circle.unwrap().1);
    }
}

fn build(points: &[Position]) -> Result<Diagram<Position>, BuildError> {
    let mut sites = Vec::new();
    for p in points {
        sites.push(make_site(p).ok_or(BuildError::InvalidInput)?);
    }
    let encoded: Vec<(u64, u64, u64)> =
        sites.iter().map(|s| (s.position.x.to_bits(), s.position.y.to_bits(), s.position.z.to_bits())).collect();
    let distinct = distinct_sites(&encoded);
    check_site_count(distinct.len())?;
    let keys: Vec<u64> = distinct.iter().map(|&i| sweep_key(sites[i].theta)).collect();
    let order: Vec<usize> = sweep_order(&keys).into_iter().map(|k| distinct[k]).collect();
    let mut sweep: Sweep<Position> = Sweep::new();
    let mut centres: HashMap<u64, Position> = HashMap::new();
    let mut memo: Memo = HashMap::new();
    let mut next_site = 0;
    loop {
        let site_key = order.get(next_site).map(|&s| sweep_key(sites[s].theta));
        match sweep.next_step(site_key) {
            Step::Site => {
                let s = order[next_site];
                let min_key = sweep_key(sites[s].theta);
                if sweep.beach().created_count() >= usize::MAX - 3 {
                    panic!("too many arcs for one sweep");
                }
                let arc = if sweep.beach().len() <= 1 { None } else { Some(find_arc(&sweep, &sites, &mut memo, &sites[s])) };
                for arc in sweep.site_event(s, arc) {
                    attach(&mut sweep, &sites, &mut centres, arc, min_key);
                }
                next_site += 1;
            }
            Step::Circle(event) => {
                let centre = centres.remove(&event.order).unwrap();
                if let Some((prev, next)) = sweep.circle_event(event, centre) {
                    attach(&mut sweep, &sites, &mut centres, prev, event.key);
                    attach(&mut sweep, &sites, &mut centres, next, event.key);
                }
            }
            Step::Done => break,
        }
    }
    Ok(sweep.into_diagram())
}

fn centroids(points: &[Position], diagram: &Diagram<Position>) -> Vec<Position> {
    let mut out: Vec<Position> = points.to_vec();
    for cell in diagram.cells() {
        let mut sum = Vector3::new(0.0, 0.0, 0.0);
        for v in diagram.cell_vertices(cell) {
            sum += *diagram.vertex_position(v);
        }
        if sum.magnitude() > 0.0 {
            out[diagram.cell_site(cell)] = sum.normalize();
        }
    }
    out
}

fn build_relaxed(points: &[Position], relaxations: usize) -> Result<Diagram<Position>, BuildError> {
    let mut points = points.to_vec();
    for _ in 0..relaxations {
        let diagram = build(&points)?;
        points = centroids(&points, &diagram);
    }
    build(&points)
}

fn site_of(points: &[Position], diagram: &Diagram<Position>, cell: spherical_voronoi::diagram::Cell) -> Position {
    points[diagram.cell_site(cell)].normalize()
}

fn check_vertices(points: &[Position], d: &Diagram<Position>) {
    for v in d.vertices() {
        let cells = d.vertex_cells(v);
        assert!(cells[0] != cells[1] && cells[1] != cells[2] && cells[0] != cells[2]);
        let p = *d.vertex_position(v);
        let ds: Vec<f64> = cells.iter().map(|&c| clamp(p.dot(site_of(points, d, c))).acos()).collect();
        let nearest = points.iter().map(|q| clamp(p.dot(q.normalize())).acos()).fold(f64::MAX, f64::min);
        for x in &ds {
            assert!((x - ds[0]).abs() < 1e-6);
            assert!(nearest > x - 1e-6);
        }
    }
}

fn check_edges(d: &Diagram<Position>) {
    for e in d.edges() {
        let (v0, v1) = d.edge_vertices(e);
        let (c0, c1) = d.edge_cells(e);
        assert!(c0 != c1);
        let common = d.common_cells(v0, v1);
        assert_eq!(common.len(), 2);
        assert!(common.contains(&c0) && common.contains(&c1));
    }
}

fn check_rings(d: &Diagram<Position>) {
    for c in d.cells() {
        let edges = d.cell_edges(c);
        if edges.is_empty() {
            continue;
        }
        let mut degree: HashMap<usize, usize> = HashMap::new();
        for e in &edges {
            let (v0, v1) = d.edge_vertices(*e);
            *degree.entry(v0.index()).or_insert(0) += 1;
            *degree.entry(v1.index()).or_insert(0) += 1;
        }
        assert!(degree.values().all(|&k| k == 2));
        assert_eq!(degree.len(), edges.len());
        let mut seen = vec![edges[0]];
        let start = d.edge_vertices(edges[0]).0;
        let mut at = d.edge_vertices(edges[0]).1;
        while at != start {
            let next = edges.iter().find(|e| !seen.contains(*e) && (d.edge_vertices(**e).0 == at || d.edge_vertices(**e).1 == at)).unwrap();
            seen.push(*next);
            at = d.other_edge_vertex(*next, at);
        }
        assert_eq!(seen.len(), edges.len());
    }
}

fn tetrahedron() -> Vec<Position> {
    vec![Vector3::new(1.0, 1.0, 1.0), Vector3::new(1.0, -1.0, -1.0), Vector3::new(-1.0, 1.0, -1.0), Vector3::new(-1.0, -1.0, 1.0)]
}

fn octahedron() -> Vec<Position> {
    vec![
        Vector3::new(1.0, 0.0, 0.0),
        Vector3::new(-1.0, 0.0, 0.0),
        Vector3::new(0.0, 1.0, 0.0),
        Vector3::new(0.0, -1.0, 0.0),
        Vector3::new(0.0, 0.0, 1.0),
        Vector3::new(0.0, 0.0, -1.0),
    ]
}

fn random_points(seed: u64, n: usize) -> Vec<Position> {
    let mut rng = StdRng::seed_from_u64(seed);
    (0..n).map(|_| Vector3::new(rng.gen_range(-1.0..1.0), rng.gen_range(-1.0..1.0), rng.gen_range(-1.0..1.0))).collect()
}

fn energy(points: &[Position], d: &Diagram<Position>) -> f64 {
    let mut total = 0.0;
    for v in d.vertices() {
        let p = *d.vertex_position(v);
        for &c in d.vertex_cells(v).iter() {
            total += 1.0 - p.dot(site_of(points, d, c));
        }
    }
    total
}

#[test]
fn tetrahedron_gives_four_cells_four_vertices_six_edges() {
    let pts = tetrahedron();
    let d = build(&pts).unwrap();
    assert_eq!(d.num_cells(), 4);
    assert_eq!(d.num_vertices(), 4);
    assert_eq!(d.num_edges(), 6);
    assert_eq!(d.euler_characteristic(), 2);
    check_vertices(&pts, &d);
    check_edges(&d);
    check_rings(&d);
}

#[test]
fn octahedron_gives_one_vertex_per_octant() {
    let pts = octahedron();
    let d = build(&pts).unwrap();
    assert_eq!(d.num_cells(), 6);
    assert_eq!(d.num_vertices(), 8);
    assert_eq!(d.num_edges(), 12);
    for v in d.vertices() {
        let p = *d.vertex_position(v);
        assert!((p.x.abs() - p.y.abs()).abs() < 1e-9 && (p.y.abs() - p.z.abs()).abs() < 1e-9);
    }
    check_vertices(&pts, &d);
    check_edges(&d);
    check_rings(&d);
}

#[test]
fn two_opposite_points_give_two_hemispheres() {
    let pts = vec![Vector3::new(1.0, 0.0, 0.0), Vector3::new(-1.0, 0.0, 0.0)];
    let d = build(&pts).unwrap();
    assert_eq!(d.num_cells(), 2);
    assert_eq!(d.num_vertices(), 0);
    assert_eq!(d.num_edges(), 0);
    assert_eq!(d.euler_characteristic(), 2);
}

#[test]
fn one_point_is_too_few() {
    assert_eq!(build(&[Vector3::new(0.0, 0.0, 1.0)]).err(), Some(BuildError::FewPoints));
}

#[test]
fn coincident_points_count_once() {
    let pts = vec![Vector3::new(0.0, 0.0, 1.0), Vector3::new(0.0, 0.0, 2.0)];
    assert_eq!(build(&pts).err(), Some(BuildError::FewPoints));
}

#[test]
fn zero_vector_is_invalid() {
    let pts = vec![Vector3::new(0.0, 0.0, 0.0), Vector3::new(0.0, 0.0, 1.0), Vector3::new(1.0, 0.0, 0.0)];
    assert_eq!(build(&pts).err(), Some(BuildError::InvalidInput));
}

#[test]
fn random_hundred_points_form_a_sphere() {
    let pts = random_points(7, 100);
    let d = build(&pts).unwrap();
    assert_eq!(d.num_cells(), 100);
    assert_eq!(d.euler_characteristic(), 2);
    check_vertices(&pts, &d);
    check_edges(&d);
    check_rings(&d);
}

#[test]
fn nearest_site_owns_each_sample() {
    let pts = random_points(11, 40);
    let d = build(&pts).unwrap();
    for s in random_points(12, 200) {
        let p = s.normalize();
        let nearest = (0..pts.len()).fold(0, |best, i| if p.dot(pts[i].normalize()) > p.dot(pts[best].normalize()) { i } else { best });
        let cell = d.cells().into_iter().find(|&c| d.cell_site(c) == nearest).unwrap();
        let site = pts[nearest].normalize();
        for e in d.cell_edges(cell) {
            let (v0, v1) = d.edge_vertices(e);
            let normal = d.vertex_position(v0).cross(*d.vertex_position(v1));
            assert!(normal.dot(p) * normal.dot(site) >= -1e-9);
        }
    }
}

#[test]
fn rebuilding_from_the_sites_gives_the_same_diagram() {
    let pts = random_points(3, 50);
    let d = build(&pts).unwrap();
    let sites: Vec<Position> = d.cells().into_iter().map(|c| pts[d.cell_site(c)].normalize()).collect();
    let again = build(&sites).unwrap();
    assert_eq!(again.num_cells(), d.num_cells());
    assert_eq!(again.num_vertices(), d.num_vertices());
    assert_eq!(again.num_edges(), d.num_edges());
    let mut a: Vec<(i64, i64, i64)> = d.vertices().into_iter().map(|v| { let p = d.vertex_position(v); ((p.x * 1e6).round() as i64, (p.y * 1e6).round() as i64, (p.z * 1e6).round() as i64) }).collect();
    let mut b: Vec<(i64, i64, i64)> = again.vertices().into_iter().map(|v| { let p = again.vertex_position(v); ((p.x * 1e6).round() as i64, (p.y * 1e6).round() as i64, (p.z * 1e6).round() as i64) }).collect();
    a.sort();
    b.sort();
    assert_eq!(a, b);
}

#[test]
fn no_relaxation_equals_the_plain_sweep() {
    let pts = random_points(5, 30);
    let d = build(&pts).unwrap();
    let r = build_relaxed(&pts, 0).unwrap();
    assert_eq!(d.num_vertices(), r.num_vertices());
    assert_eq!(d.num_edges(), r.num_edges());
    for v in d.vertices() {
        assert_eq!(*d.vertex_position(v), *r.vertex_position(v));
    }
}

#[test]
fn points_on_a_great_circle_finish() {
    let pts: Vec<Position> = (0..6).map(|k| { let a = k as f64; Vector3::new(a.cos(), a.sin(), 0.0) }).collect();
    let d = build(&pts).unwrap();
    assert_eq!(d.num_cells(), 6);
    assert_eq!(d.euler_characteristic(), 2);
    check_edges(&d);
}

#[test]
fn relaxation_lowers_the_energy() {
    let pts = random_points(7, 100);
    let before = build(&pts).unwrap();
    let relaxed_points = {
        let mut p = pts.clone();
        for _ in 0..3 {
            let d = build(&p).unwrap();
            p = centroids(&p, &d);
        }
        p
    };
    let after = build_relaxed(&pts, 3).unwrap();
    assert_eq!(after.num_cells(), 100);
    assert_eq!(after.euler_characteristic(), 2);
    assert!(energy(&relaxed_points, &after) < energy(&pts, &before));
}
