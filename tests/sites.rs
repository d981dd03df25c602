use spherical_voronoi::sites::{check_site_count, distinct_sites, sweep_order, BuildError};

#[test]
fn distinct_sites_keeps_first_occurrences() {
    let pts = vec![(1, 2, 3), (4, 5, 6), (1, 2, 3), (7, 8, 9), (4, 5, 6)];
    assert_eq!(distinct_sites(&pts), vec![0, 1, 3]);
    assert_eq!(distinct_sites(&Vec::new()), Vec::<usize>::new());
}

#[test]
fn site_count_below_two_is_refused() {
    assert_eq!(check_site_count(0), Err(BuildError::FewPoints));
    assert_eq!(check_site_count(1), Err(BuildError::FewPoints));
    assert_eq!(check_site_count(2), Ok(()));
}

#[test]
fn sweep_order_sorts_by_key_then_position() {
    let keys = vec![30, 10, 20, 10, 0];
    assert_eq!(sweep_order(&keys), vec![4, 1, 3, 2, 0]);
    assert_eq!(sweep_order(&Vec::new()), Vec::<usize>::new());
}
