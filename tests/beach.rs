use spherical_voronoi::beach::{Arc, ArcStart, Beach};
use spherical_voronoi::diagram::Cell;

fn cells_in_order(beach: &Beach) -> Vec<usize> {
    let mut out = Vec::new();
    if let Some(first) = beach.first() {
        let mut arc = first;
        loop {
            out.push(beach.cell(arc).index());
            arc = beach.next(arc);
            if arc == first {
                break;
            }
        }
    }
    out
}

#[test]
fn beach_single_arc_is_its_own_neighbour() {
    let mut beach = Beach::new();
    let a = beach.insert_after(None, Cell::new(0));
    assert_eq!(beach.len(), 1);
    assert!(beach.next(a) == a);
    assert!(beach.prev(a) == a);
    assert!(matches!(beach.start(a), ArcStart::Unknown));
    assert!(!beach.is_valid(a));
}

#[test]
fn beach_insert_after_splices_in_order() {
    let mut beach = Beach::new();
    let a = beach.insert_after(None, Cell::new(0));
    let b = beach.insert_after(Some(a), Cell::new(1));
    let c = beach.insert_after(Some(a), Cell::new(2));
    assert_eq!(beach.len(), 3);
    assert_eq!(cells_in_order(&beach), vec![0, 2, 1]);
    let (p, n) = beach.neighbors(c);
    assert!(p == a && n == b);
    assert!(beach.next(b) == a);
    assert!(beach.prev(a) == b);
}

#[test]
fn beach_remove_relinks_neighbours() {
    let mut beach = Beach::new();
    let a = beach.insert_after(None, Cell::new(0));
    let b = beach.insert_after(Some(a), Cell::new(1));
    let c = beach.insert_after(Some(b), Cell::new(2));
    beach.remove(b);
    assert_eq!(beach.len(), 2);
    assert!(!beach.is_live(b));
    assert!(beach.next(a) == c && beach.prev(a) == c);
    beach.remove(a);
    assert_eq!(cells_in_order(&beach), vec![2]);
    assert!(beach.first() == Some(c));
    beach.remove(c);
    assert_eq!(beach.len(), 0);
    assert!(beach.first().is_none());
}

#[test]
fn beach_handles_are_not_reused() {
    let mut beach = Beach::new();
    let a = beach.insert_after(None, Cell::new(0));
    let b = beach.insert_after(Some(a), Cell::new(1));
    beach.remove(b);
    let c: Arc = beach.insert_after(Some(a), Cell::new(2));
    assert_eq!(c.index(), 2);
    assert_eq!(beach.created_count(), 3);
}

#[test]
fn beach_attach_detach_and_start() {
    let mut beach = Beach::new();
    let a = beach.insert_after(None, Cell::new(4));
    beach.attach(a, 9);
    assert!(beach.is_valid(a));
    assert_eq!(beach.event(a), 9);
    beach.detach(a);
    assert!(!beach.is_valid(a));
    beach.set_start(a, ArcStart::Temporary(3));
    assert!(matches!(beach.start(a), ArcStart::Temporary(3)));
    assert_eq!(beach.cell(a).index(), 4);
    beach.clear();
    assert_eq!(beach.len(), 0);
    assert_eq!(beach.created_count(), 0);
}
