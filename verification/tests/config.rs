use kamilata::{KamilataConfig, MinTargetMax};

#[test]
fn mtm_new_clamps() {
    let t = MinTargetMax::new(10, 5, 3);
    assert_eq!(t.min(), 10);
    assert_eq!(t.target(), 10);
    assert_eq!(t.max(), 10);

    let t = MinTargetMax::new(1, 5, 10);
    assert_eq!(t.min(), 1);
    assert_eq!(t.target(), 5);
    assert_eq!(t.max(), 10);
}

#[test]
fn mtm_set_min_clamps() {
    let mut t = MinTargetMax::new(1, 5, 10);
    t.set_min(7);
    assert_eq!(t.min(), 7);
    assert_eq!(t.target(), 7);
    assert_eq!(t.max(), 10);
    assert!(t.min() <= t.target() && t.target() <= t.max());

    let mut t = MinTargetMax::new(1, 5, 10);
    t.set_min(0);
    assert_eq!(t.min(), 0);
    assert_eq!(t.target(), 5);
    assert_eq!(t.max(), 10);
}

#[test]
fn mtm_set_max_clamps() {
    let mut t = MinTargetMax::new(2, 5, 10);
    t.set_max(4);
    assert_eq!(t.min(), 2);
    assert_eq!(t.target(), 4);
    assert_eq!(t.max(), 4);

    let mut t = MinTargetMax::new(2, 5, 10);
    t.set_max(1);
    assert_eq!(t.min(), 1);
    assert_eq!(t.target(), 1);
    assert_eq!(t.max(), 1);
}

#[test]
fn mtm_set_target_clamps() {
    let mut t = MinTargetMax::new(2, 5, 10);
    t.set_target(20);
    assert_eq!(t.min(), 2);
    assert_eq!(t.target(), 20);
    assert_eq!(t.max(), 20);

    let mut t = MinTargetMax::new(2, 5, 10);
    t.set_target(1);
    assert_eq!(t.min(), 1);
    assert_eq!(t.target(), 1);
    assert_eq!(t.max(), 10);
}

#[test]
fn mtm_intersection() {
    let a = MinTargetMax::new(10, 20, 30);
    let b = MinTargetMax::new(15, 35, 40);
    let t = a.intersection(&b).expect("the ranges overlap");
    assert_eq!(t.min(), 15);
    assert_eq!(t.target(), 27);
    assert_eq!(t.max(), 30);

    let c = MinTargetMax::new(40, 45, 50);
    assert!(a.intersection(&c).is_none());
}

#[test]
fn config_default_values() {
    let config = KamilataConfig::default();
    assert_eq!(config.get_filters_interval.min(), 15_000);
    assert_eq!(config.get_filters_interval.target(), 20_000);
    assert_eq!(config.get_filters_interval.max(), 180_000);
    assert_eq!(config.filter_count, 8);
    assert_eq!(config.max_seeders, 20);
    assert_eq!(config.max_leechers, 50);
}
