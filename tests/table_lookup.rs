use gpa_engine::qpt::{build_qpt, max_quality_point};

#[test]
fn lookup_sixty_scale_points() {
    let qpt = build_qpt();
    assert_eq!(qpt.lookup(60, 45), Some(1100));
    assert_eq!(qpt.lookup(60, 50), Some(1200));
    assert_eq!(qpt.lookup(60, 24), Some(300));
    assert_eq!(qpt.lookup(60, 31), Some(633));
}

#[test]
fn lookup_forty_scale_points() {
    let qpt = build_qpt();
    assert_eq!(qpt.lookup(40, 16), Some(200));
    assert_eq!(qpt.lookup(40, 22), Some(467));
    assert_eq!(qpt.lookup(40, 40), Some(800));
}

#[test]
fn lookup_outside_domain_is_not_found() {
    let qpt = build_qpt();
    assert_eq!(qpt.lookup(60, 10), None);
    assert_eq!(qpt.lookup(60, 61), None);
    assert_eq!(qpt.lookup(40, 15), None);
    assert_eq!(qpt.lookup(120, 47), None);
    assert_eq!(qpt.lookup(120, 83), None);
    assert_eq!(qpt.lookup(120, 97), None);
}

#[test]
fn lookup_scale_without_rows_is_not_found() {
    let qpt = build_qpt();
    assert_eq!(qpt.lookup(100, 50), None);
    assert_eq!(qpt.lookup(0, 0), None);
}

#[test]
fn duplicate_key_last_definition_wins() {
    let qpt = build_qpt();
    assert_eq!(qpt.lookup(120, 80), Some(1967));
    assert_eq!(qpt.lookup(120, 79), Some(1850));
    assert_eq!(qpt.lookup(120, 91), Some(2150));
}

#[test]
fn lookup_twice_gives_same_value() {
    let qpt = build_qpt();
    let first = qpt.lookup(120, 63);
    let second = qpt.lookup(120, 63);
    assert_eq!(first, second);
    assert_eq!(first, Some(1317));
    assert_eq!(qpt.lookup(60, 10), qpt.lookup(60, 10));
}

#[test]
fn scale_maxima() {
    assert_eq!(max_quality_point(40), Some(8));
    assert_eq!(max_quality_point(60), Some(12));
    assert_eq!(max_quality_point(100), Some(20));
    assert_eq!(max_quality_point(120), Some(24));
    assert_eq!(max_quality_point(50), None);
}
