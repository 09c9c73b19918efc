use ecurve::{find_all_points, is_point_on_curve, Point};

fn affine(x: i64, y: i64) -> Point {
    Point::Affine { x, y }
}

#[test]
fn curve_4_4_mod_7_has_these_points() {
    let points = find_all_points(4, 4, 7);
    let expected = vec![
        affine(0, 2),
        affine(0, 5),
        affine(1, 3),
        affine(1, 4),
        affine(3, 1),
        affine(3, 6),
        affine(4, 0),
        affine(5, 3),
        affine(5, 4),
        Point::Infinity,
    ];
    assert_eq!(points, expected);
}

#[test]
fn enumeration_is_exactly_the_solutions_of_the_equation() {
    let (a, b, m): (i64, i64, i64) = (4, 4, 7);
    let points = find_all_points(a, b, m);
    let mut expected: Vec<Point> = Vec::new();
    for x in 0..m {
        for y in 0..m {
            if (y * y - (x * x * x + a * x + b)).rem_euclid(m) == 0 {
                expected.push(affine(x, y));
            }
        }
    }
    expected.push(Point::Infinity);
    assert_eq!(points, expected);
    assert_eq!(points.len(), 10);
}

#[test]
fn identity_comes_last_and_once() {
    for (a, b, m) in [(4, 4, 7), (2, 3, 97), (1, 1, 5), (0, 7, 13), (1, 1, 1)] {
        let points = find_all_points(a, b, m);
        assert_eq!(points.last(), Some(&Point::Infinity));
        let identities = points.iter().filter(|p| p.is_at_infinity()).count();
        assert_eq!(identities, 1);
    }
}

#[test]
fn points_come_by_rising_x_then_rising_y() {
    let points = find_all_points(2, 3, 97);
    assert_eq!(points.len(), 100);
    assert_eq!(&points[..6], &[
        affine(0, 10),
        affine(0, 87),
        affine(1, 43),
        affine(1, 54),
        affine(3, 6),
        affine(3, 91),
    ]);
    assert_eq!(&points[97..], &[affine(95, 66), affine(96, 0), Point::Infinity]);
    for pair in points[..99].windows(2) {
        let (x1, y1) = (pair[0].x().unwrap(), pair[0].y().unwrap());
        let (x2, y2) = (pair[1].x().unwrap(), pair[1].y().unwrap());
        assert!(x1 < x2 || (x1 == x2 && y1 < y2));
    }
}

#[test]
fn every_listed_point_is_on_the_curve() {
    for (a, b, m) in [(4, 4, 7), (2, 3, 97), (2, 2, 17), (4, 4, 6)] {
        for p in find_all_points(a, b, m) {
            if let Point::Affine { x, y } = p {
                assert!(0 <= x && x < m && 0 <= y && y < m);
                assert!(is_point_on_curve(x, y, a, b, m));
            }
        }
    }
}

#[test]
fn modulus_without_coordinates_leaves_the_identity_alone() {
    assert_eq!(find_all_points(4, 4, 0), vec![Point::Infinity]);
    assert_eq!(find_all_points(4, 4, -7), vec![Point::Infinity]);
}

#[test]
fn modulus_one_has_one_affine_point() {
    assert_eq!(find_all_points(1, 1, 1), vec![affine(0, 0), Point::Infinity]);
}

#[test]
fn membership_on_curve_4_4_mod_7() {
    assert!(is_point_on_curve(0, 2, 4, 4, 7));
    assert!(is_point_on_curve(0, 5, 4, 4, 7));
    assert!(is_point_on_curve(1, 3, 4, 4, 7));
    assert!(is_point_on_curve(4, 0, 4, 4, 7));
    assert!(!is_point_on_curve(1, 0, 4, 4, 7));
    assert!(!is_point_on_curve(3, 2, 4, 4, 7));
    assert!(!is_point_on_curve(3, 5, 4, 4, 7));
    assert!(!is_point_on_curve(5, 0, 4, 4, 7));
    assert!(!is_point_on_curve(6, 2, 4, 4, 7));
    assert!(!is_point_on_curve(6, 5, 4, 4, 7));
}

#[test]
fn membership_uses_the_remainder_that_is_never_negative() {
    // y^2 - (x^3 + 4x + 4) is negative here: 0 - 14 for (1, 0) modulo 14
    assert!(is_point_on_curve(1, 0, 4, 9, 14));
    assert!(is_point_on_curve(0, 2, 4, 4, 7));
    assert!(is_point_on_curve(-7, 2, 4, 4, 7));
    assert!(is_point_on_curve(7, -2, 4, 4, 7));
    assert!(is_point_on_curve(0, 2, -3, -3, 7));
}

#[test]
fn membership_does_not_overflow() {
    let m: i64 = 9_223_372_036_854_775_783;
    assert!(is_point_on_curve(2, 3, 1, -1, m));
    assert!(!is_point_on_curve(2, 4, 1, -1, m));
    assert!(is_point_on_curve(
        2_749_926_643_072_966_268,
        5_635_756_383_185_783_555,
        1,
        -1,
        m
    ));
    assert!(is_point_on_curve(i64::MAX, 0, i64::MAX, 0, i64::MAX));
    assert!(!is_point_on_curve(i64::MIN, 0, i64::MIN, i64::MIN, i64::MAX));
}
