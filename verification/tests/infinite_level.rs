use vackrooms::infinite_level::{region_count, InfiniteRegionWindow};

#[test]
fn area_and_halo_define_an_explicit_negative_coordinate_window() {
    // The area (-0.1, 0.1)..(79.9, 79.9) grown by 0.4 touches regions -1..=1
    // on both axes.
    let window = InfiniteRegionWindow::from_region_range(-1, -1, 1, 1, |x, z| (x, z));
    let keys = window.region_keys();
    assert_eq!(
        keys,
        vec![(-1, -1), (0, -1), (1, -1), (-1, 0), (0, 0), (1, 0), (-1, 1), (0, 1), (1, 1)]
    );
    assert_eq!(window.len(), keys.len());
    assert!(!window.is_empty());
}

#[test]
fn lookup_never_falls_back_to_an_unrelated_region() {
    let window = InfiniteRegionWindow::from_region_range(-1, -1, 1, 1, |x, z| (x * 80, z * 80));
    assert_eq!(window.plan_for_region(0, -1), Some(&(0, -80)));
    assert_eq!(window.plan_for_region(1, 0), Some(&(80, 0)));
    assert_eq!(window.plan_for_region(5, 5), None);
    assert_eq!(window.plan_for_region(-2, 0), None);
    for z in -1..=1 {
        for x in -1..=1 {
            assert_eq!(window.plan_for_region(x, z), Some(&(x * 80, z * 80)));
        }
    }
}

#[test]
fn planning_the_same_window_replays_the_same_plans() {
    let plan = |x: i64, z: i64| x.wrapping_mul(31) ^ z;
    let a = InfiniteRegionWindow::from_region_range(3, -2, 6, 4, plan);
    let b = InfiniteRegionWindow::from_region_range(3, -2, 6, 4, plan);
    assert_eq!(a.region_keys(), b.region_keys());
    assert_eq!(a.len(), 4 * 7);
    for (x, z) in a.region_keys() {
        assert_eq!(a.plan_for_region(x, z), b.plan_for_region(x, z));
        assert_eq!(a.plan_for_region(x, z), Some(&plan(x, z)));
    }
}

#[test]
fn region_counts_are_inclusive() {
    assert_eq!(region_count(-1, 1), 3);
    assert_eq!(region_count(5, 5), 1);
    assert_eq!(region_count(i64::MIN, i64::MIN + 9), 10);
}
