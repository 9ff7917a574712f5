use photo_edit::curves::{
    add_point, is_removable, move_point, nearest_point, remove_point, straight_line, CurvePoint, CurvesSettings,
    BITS_255,
};
use photo_edit::number::F64;

fn n(v: f64) -> F64 {
    F64 { bits: v.to_bits() }
}

fn p(x: f64, y: f64) -> CurvePoint {
    CurvePoint { x: n(x), y: n(y) }
}

fn xs(points: &[CurvePoint]) -> Vec<(f64, f64)> {
    points.iter().map(|q| (f64::from_bits(q.x.bits), f64::from_bits(q.y.bits))).collect()
}

fn with(points: Vec<CurvePoint>) -> CurvesSettings {
    let mut s = CurvesSettings::default();
    s.channels[1] = points;
    s
}

#[test]
fn a_line_is_valid_and_changes_nothing() {
    let s = CurvesSettings::default();
    assert!(s.is_valid());
    assert!(s.is_identity());
    assert_eq!(xs(&straight_line()), vec![(0.0, 0.0), (255.0, 255.0)]);
    assert_eq!(BITS_255, 255.0f64.to_bits());
}

#[test]
fn validity_asks_for_rising_points_in_range() {
    assert!(with(vec![p(0.0, 0.0), p(10.0, 255.0), p(255.0, 3.0)]).is_valid());
    assert!(!with(vec![p(0.0, 0.0)]).is_valid());
    assert!(!with(vec![p(0.0, 0.0), p(0.0, 1.0), p(255.0, 255.0)]).is_valid());
    assert!(!with(vec![p(0.0, 0.0), p(255.0, 256.0)]).is_valid());
    assert!(!with(vec![p(0.0, -1.0), p(255.0, 255.0)]).is_valid());
    assert!(!with(vec![p(0.0, f64::NAN), p(255.0, 255.0)]).is_valid());
    assert!(!with(vec![p(0.0, f64::INFINITY), p(255.0, 255.0)]).is_valid());
    assert!(!with(vec![p(1.0, 0.0), p(255.0, 255.0)]).is_valid());
    assert!(!with(vec![p(0.0, 0.0), p(254.0, 255.0)]).is_valid());
}

#[test]
fn identity_needs_points_on_the_diagonal() {
    assert!(with(vec![p(0.0, 0.0), p(99.5, 99.5), p(255.0, 255.0)]).is_identity());
    assert!(!with(vec![p(0.0, 0.0), p(99.5, 99.0), p(255.0, 255.0)]).is_identity());
    assert!(with(vec![p(0.0, -0.0), p(255.0, 255.0)]).is_identity());
}

#[test]
fn nearest_point_is_the_first_of_the_closest() {
    assert_eq!(nearest_point(&vec![]), None);
    assert_eq!(nearest_point(&vec![n(4.0), n(1.0), n(1.0), n(9.0)]), Some(1));
    assert_eq!(nearest_point(&vec![n(13.5)]), Some(0));
    assert_eq!(nearest_point(&vec![n(14.0), n(20.0)]), None);
}

#[test]
fn points_are_added_in_order() {
    let mut points = straight_line();
    let at = add_point(&mut points, n(100.0), n(30.0), &vec![n(100.0), n(155.0)]);
    assert_eq!(at, Some(1));
    assert_eq!(xs(&points), vec![(0.0, 0.0), (100.0, 30.0), (255.0, 255.0)]);
    assert!(with(points).is_valid());
}

#[test]
fn crowded_points_are_refused() {
    let mut points = vec![p(0.0, 0.0), p(100.0, 100.0), p(255.0, 255.0)];
    assert_eq!(add_point(&mut points, n(101.0), n(30.0), &vec![n(101.0), n(1.0), n(154.0)]), None);
    assert_eq!(add_point(&mut points, n(1.0), n(30.0), &vec![n(1.5), n(99.0), n(254.0)]), None);
    assert_eq!(add_point(&mut points, n(254.0), n(30.0), &vec![n(254.0), n(154.0), n(1.5)]), None);
    assert_eq!(points.len(), 3);
    let mut full: Vec<CurvePoint> = (0..32).map(|i| p(i as f64 * 255.0 / 31.0, 0.0)).collect();
    let gaps = full.iter().map(|_| n(4.0)).collect();
    assert_eq!(add_point(&mut full, n(4.0), n(4.0), &gaps), None);
}

#[test]
fn ends_move_up_and_down_only() {
    let mut points = vec![p(0.0, 0.0), p(100.0, 100.0), p(255.0, 255.0)];
    move_point(&mut points, 0, n(50.0), n(20.0), n(0.0), n(0.0));
    move_point(&mut points, 1, n(300.0), n(7.0), n(2.0), n(253.0));
    assert_eq!(xs(&points)[0], (0.0, 20.0));
    assert_eq!(xs(&points)[1], (253.0, 7.0));
    move_point(&mut points, 1, n(-3.0), n(7.0), n(2.0), n(253.0));
    assert_eq!(xs(&points)[1], (2.0, 7.0));
    assert!(with(points).is_valid());
}

#[test]
fn only_inner_points_are_removed() {
    assert!(!is_removable(3, 0));
    assert!(is_removable(3, 1));
    assert!(!is_removable(3, 2));
    assert!(!is_removable(2, 1));
    let mut points = vec![p(0.0, 0.0), p(100.0, 100.0), p(255.0, 255.0)];
    remove_point(&mut points, 1);
    assert_eq!(points.len(), 2);
    remove_point(&mut points, 1);
    assert_eq!(points.len(), 2);
}
