use spherical_voronoi::beach::Arc;
use spherical_voronoi::events::EventQueue;

#[test]
fn queue_pops_smallest_key_first() {
    let mut q = EventQueue::new();
    q.push(30, Arc::new(0));
    q.push(10, Arc::new(1));
    q.push(20, Arc::new(2));
    let keys: Vec<u64> = (0..3).map(|_| q.pop().unwrap().key).collect();
    assert_eq!(keys, vec![10, 20, 30]);
    assert!(q.pop().is_none());
    assert!(q.is_empty());
}

#[test]
fn queue_ties_leave_in_push_order() {
    let mut q = EventQueue::new();
    let first = q.push(5, Arc::new(7));
    let second = q.push(5, Arc::new(3));
    assert_eq!(first, 0);
    assert_eq!(second, 1);
    assert_eq!(q.peek().unwrap().order, first);
    assert_eq!(q.pop().unwrap().arc.index(), 7);
    assert_eq!(q.pop().unwrap().arc.index(), 3);
}

#[test]
fn queue_clear_keeps_counting() {
    let mut q = EventQueue::new();
    q.push(1, Arc::new(0));
    q.clear();
    assert!(q.is_empty());
    assert_eq!(q.next_order(), 1);
    assert_eq!(q.push(1, Arc::new(0)), 1);
}
