use spherical_voronoi::beach::ArcStart;
use spherical_voronoi::sweep::{Step, Sweep};

#[test]
fn empty_sweep_is_done_or_takes_a_site() {
    let mut sweep: Sweep<u32> = Sweep::new();
    assert!(matches!(sweep.next_step(None), Step::Done));
    assert!(matches!(sweep.next_step(Some(5)), Step::Site));
}

#[test]
fn first_two_sites_share_a_start() {
    let mut sweep: Sweep<u32> = Sweep::new();
    assert!(sweep.site_event(4, None).is_empty());
    assert!(sweep.site_event(9, None).is_empty());
    let beach = sweep.beach();
    assert_eq!(beach.len(), 2);
    let a = beach.first().unwrap();
    let b = beach.next(a);
    assert!(matches!(beach.start(a), ArcStart::Temporary(0)));
    assert!(matches!(beach.start(b), ArcStart::Temporary(0)));
    assert_eq!(sweep.diagram().num_cells(), 2);
    assert_eq!(sweep.diagram().cell_site(beach.cell(b)), 9);
}

#[test]
fn split_schedule_and_fire_a_circle() {
    let mut sweep: Sweep<u32> = Sweep::new();
    sweep.site_event(0, None);
    sweep.site_event(1, None);
    let a0 = sweep.beach().first().unwrap();
    let n1 = sweep.beach().next(a0);
    let candidates = sweep.site_event(2, Some(a0));
    assert_eq!(candidates.len(), 2);
    let twin = candidates[0];
    assert!(candidates[1] == a0);
    let n2 = sweep.beach().prev(a0);
    assert!(sweep.beach().prev(n2) == twin);
    assert!(sweep.beach().prev(twin) == n1);
    assert!(sweep.beach().next(a0) == n1);
    assert_eq!(sweep.beach().cell(twin).index(), 0);
    assert_eq!(sweep.beach().cell(n2).index(), 2);
    assert!(matches!(sweep.beach().start(twin), ArcStart::Temporary(1)));
    assert!(matches!(sweep.beach().start(n2), ArcStart::Temporary(1)));
    assert!(matches!(sweep.beach().start(a0), ArcStart::Temporary(0)));

    assert_eq!(sweep.try_attach(a0, None, 5), None);
    assert_eq!(sweep.try_attach(twin, Some(3), 5), None);
    assert_eq!(sweep.try_attach(a0, Some(10), 5), Some(0));
    assert!(sweep.beach().is_valid(a0));

    assert!(matches!(sweep.next_step(Some(10)), Step::Site));
    let event = match sweep.next_step(Some(20)) {
        Step::Circle(e) => e,
        _ => panic!("a circle event was due"),
    };
    assert!(event.arc == a0);
    assert_eq!(event.key, 10);

    let neighbours = sweep.circle_event(event, 42).unwrap();
    assert!(neighbours.0 == n2 && neighbours.1 == n1);
    let d = sweep.diagram();
    assert_eq!(d.num_vertices(), 1);
    assert_eq!(*d.vertex_position(d.vertices()[0]), 42);
    assert_eq!(d.vertex_cells(d.vertices()[0]).iter().map(|c| c.index()).collect::<Vec<_>>(), vec![2, 0, 1]);
    assert_eq!(d.num_edges(), 0);
    assert_eq!(sweep.beach().len(), 3);
    assert!(!sweep.beach().is_live(a0));
    assert!(matches!(sweep.beach().start(n2), ArcStart::Vertex(v) if v.index() == 0));
    assert!(matches!(sweep.next_step(None), Step::Done));
}

#[test]
fn cancelled_circle_is_dropped() {
    let mut sweep: Sweep<u32> = Sweep::new();
    sweep.site_event(0, None);
    sweep.site_event(1, None);
    let a0 = sweep.beach().first().unwrap();
    sweep.site_event(2, Some(a0));
    assert_eq!(sweep.try_attach(a0, Some(10), 0), Some(0));
    sweep.site_event(3, Some(a0));
    assert!(!sweep.beach().is_valid(a0));
    assert!(matches!(sweep.next_step(None), Step::Done));
}

#[test]
fn circle_of_repeated_cells_is_refused() {
    let mut sweep: Sweep<u32> = Sweep::new();
    sweep.site_event(0, None);
    sweep.site_event(1, None);
    let a0 = sweep.beach().first().unwrap();
    assert_eq!(sweep.try_attach(a0, Some(1), 0), None);
}

#[test]
fn known_starts_always_give_edges() {
    let mut sweep: Sweep<u32> = Sweep::new();
    sweep.site_event(0, None);
    sweep.site_event(1, None);
    let a0 = sweep.beach().first().unwrap();
    let n1 = sweep.beach().next(a0);
    sweep.site_event(2, Some(a0));
    sweep.site_event(3, Some(n1));
    let mut fired = 0;
    let arcs: Vec<_> = {
        let b = sweep.beach();
        let first = b.first().unwrap();
        let mut v = vec![first];
        let mut at = b.next(first);
        while at != first {
            v.push(at);
            at = b.next(at);
        }
        v
    };
    for (k, arc) in arcs.iter().enumerate() {
        sweep.try_attach(*arc, Some(10 + k as u64), 0);
    }
    let mut vertices_before = 0;
    loop {
        match sweep.next_step(None) {
            Step::Circle(e) => {
                fired += 1;
                let edges_before = sweep.diagram().num_edges();
                let known = {
                    let b = sweep.beach();
                    let (prev, _) = b.neighbors(e.arc);
                    [b.start(prev), b.start(e.arc)].iter().filter(|s| matches!(s, ArcStart::Vertex(_))).count()
                };
                if let Some((prev, next)) = sweep.circle_event(e, fired) {
                    sweep.try_attach(prev, Some(100 + fired as u64), e.key);
                    sweep.try_attach(next, Some(200 + fired as u64), e.key);
                }
                assert!(sweep.diagram().num_edges() >= edges_before + known);
                assert_eq!(sweep.diagram().num_vertices(), vertices_before + 1);
                vertices_before += 1;
            }
            Step::Done => break,
            Step::Site => unreachable!(),
        }
    }
    assert!(fired > 0);
}
