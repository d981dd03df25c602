use spherical_voronoi::id::{Id, IdVec};

#[test]
fn id_keeps_its_index() {
    let id: Id<u8> = Id::new(7);
    assert_eq!(id.index(), 7);
    assert!(id == Id::new(7));
    assert!(id != Id::new(8));
}

#[test]
fn id_none_is_the_largest_index() {
    let id: Id<u8> = Id::none();
    assert_eq!(id.index(), usize::MAX);
}

#[test]
fn idvec_add_hands_out_positions() {
    let mut v: IdVec<&str> = IdVec::new();
    let a = v.add("a");
    let b = v.add("b");
    assert_eq!(a.index(), 0);
    assert_eq!(b.index(), 1);
    assert_eq!(v.len(), 2);
    assert_eq!(*v.get(b), "b");
}

#[test]
fn idvec_remove_moves_the_last_item() {
    let mut v: IdVec<u32> = IdVec::default();
    let a = v.add(10);
    v.add(20);
    v.add(30);
    let moved = v.remove(a);
    assert_eq!(moved.index(), 2);
    assert_eq!(v.len(), 2);
    assert_eq!(*v.get(Id::new(0)), 30);
    assert_eq!(*v.get(Id::new(1)), 20);
}

#[test]
fn idvec_retain_keeps_order() {
    let mut v: IdVec<u32> = IdVec::new();
    for x in 0..10u32 {
        v.add(x);
    }
    v.retain(|x| x % 3 == 0);
    assert_eq!(v.len(), 4);
    let kept: Vec<u32> = v.ids().into_iter().map(|id| *v.get(id)).collect();
    assert_eq!(kept, vec![0, 3, 6, 9]);
}

#[test]
fn idvec_ids_and_set_and_clear() {
    let mut v: IdVec<u32> = IdVec::new();
    v.add(1);
    v.add(2);
    let ids = v.ids();
    assert_eq!(ids.iter().map(|i| i.index()).collect::<Vec<_>>(), vec![0, 1]);
    v.set(ids[1], 5);
    assert_eq!(*v.get(ids[1]), 5);
    v.clear();
    assert_eq!(v.len(), 0);
}
