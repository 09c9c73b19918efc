use ecurve::Point;
use std::collections::HashSet;

#[test]
fn at_infinity_is_the_identity() {
    assert_eq!(Point::at_infinity(), Point::Infinity);
    assert!(Point::at_infinity().is_at_infinity());
}

#[test]
fn affine_points_are_not_at_infinity() {
    assert!(!Point::Affine { x: 0, y: 0 }.is_at_infinity());
    assert!(!Point::Affine { x: 3, y: 6 }.is_at_infinity());
}

#[test]
fn accessors_give_the_coordinates_of_affine_points() {
    let p = Point::Affine { x: 3, y: 6 };
    assert_eq!(p.x(), Some(3));
    assert_eq!(p.y(), Some(6));
    assert_eq!(Point::Infinity.x(), None);
    assert_eq!(Point::Infinity.y(), None);
}

#[test]
fn equality_tells_coordinates_apart() {
    assert_eq!(Point::Affine { x: 1, y: 2 }, Point::Affine { x: 1, y: 2 });
    assert_ne!(Point::Affine { x: 1, y: 2 }, Point::Affine { x: 2, y: 1 });
    assert_ne!(Point::Affine { x: 1, y: 2 }, Point::Affine { x: 1, y: 3 });
    assert_ne!(Point::Affine { x: 0, y: 0 }, Point::Infinity);
    assert_eq!(Point::Infinity, Point::at_infinity());
}

#[test]
fn hashing_agrees_with_equality() {
    let mut seen: HashSet<Point> = HashSet::new();
    assert!(seen.insert(Point::Infinity));
    assert!(!seen.insert(Point::at_infinity()));
    assert!(seen.insert(Point::Affine { x: 0, y: 0 }));
    assert!(seen.insert(Point::Affine { x: 0, y: 1 }));
    assert!(!seen.insert(Point::Affine { x: 0, y: 1 }));
    assert_eq!(seen.len(), 3);
}

#[test]
fn points_are_copied_freely() {
    let p = Point::Affine { x: 4, y: 0 };
    let q = p;
    let r = p.clone();
    assert_eq!(p, q);
    assert_eq!(p, r);
}
