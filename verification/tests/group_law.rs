use ecurve::{elliptic_add, find_all_points, is_point_on_curve, scalar_mult, CurveError, Point};

fn affine(x: i64, y: i64) -> Point {
    Point::Affine { x, y }
}

fn negate(p: &Point, m: i64) -> Point {
    match *p {
        Point::Affine { x, y } if y != 0 => Point::Affine { x, y: m - y },
        other => other,
    }
}

#[test]
fn adding_the_identity_changes_nothing() {
    for (a, b, m) in [(4, 4, 7), (2, 3, 97), (4, 4, 6)] {
        for p in find_all_points(a, b, m) {
            assert_eq!(elliptic_add(&p, &Point::Infinity, a, m), Ok(p));
            assert_eq!(elliptic_add(&Point::Infinity, &p, a, m), Ok(p));
        }
    }
    assert_eq!(
        elliptic_add(&Point::Infinity, &Point::Infinity, 4, 7),
        Ok(Point::Infinity)
    );
}

#[test]
fn adding_the_negation_gives_the_identity() {
    for (a, b, m) in [(4, 4, 7), (2, 3, 97), (1, 1, 23)] {
        for p in find_all_points(a, b, m) {
            assert_eq!(elliptic_add(&p, &negate(&p, m), a, m), Ok(Point::Infinity));
        }
    }
}

#[test]
fn point_of_order_two_doubles_to_the_identity() {
    assert_eq!(elliptic_add(&affine(4, 0), &affine(4, 0), 4, 7), Ok(Point::Infinity));
    assert_eq!(elliptic_add(&affine(96, 0), &affine(96, 0), 2, 97), Ok(Point::Infinity));
}

#[test]
fn doubling_follows_the_tangent() {
    assert_eq!(elliptic_add(&affine(0, 2), &affine(0, 2), 4, 7), Ok(affine(1, 4)));
    assert_eq!(elliptic_add(&affine(3, 6), &affine(3, 6), 2, 97), Ok(affine(80, 10)));
}

#[test]
fn distinct_points_follow_the_chord() {
    assert_eq!(elliptic_add(&affine(0, 2), &affine(1, 3), 4, 7), Ok(affine(0, 5)));
    assert_eq!(elliptic_add(&affine(3, 1), &affine(5, 4), 4, 7), Ok(affine(3, 6)));
    assert_eq!(elliptic_add(&affine(3, 6), &affine(80, 10), 2, 97), Ok(affine(80, 87)));
}

#[test]
fn sums_stay_on_the_curve() {
    let (a, b, m) = (4, 4, 7);
    let points = find_all_points(a, b, m);
    for p in &points {
        for q in &points {
            let sum = elliptic_add(p, q, a, m).unwrap();
            assert!(points.contains(&sum));
        }
    }
}

#[test]
fn addition_is_commutative() {
    for (a, b, m) in [(4, 4, 7), (1, 1, 23), (4, 4, 6), (1, 0, 4)] {
        let points = find_all_points(a, b, m);
        for p in &points {
            for q in &points {
                assert_eq!(elliptic_add(p, q, a, m), elliptic_add(q, p, a, m));
            }
        }
    }
}

#[test]
fn addition_is_associative() {
    for (a, b, m) in [(4, 4, 7), (1, 1, 5), (1, 6, 11)] {
        let points = find_all_points(a, b, m);
        for p in &points {
            for q in &points {
                for r in &points {
                    let left = elliptic_add(&elliptic_add(p, q, a, m).unwrap(), r, a, m);
                    let right = elliptic_add(p, &elliptic_add(q, r, a, m).unwrap(), a, m);
                    assert_eq!(left, right);
                }
            }
        }
    }
}

#[test]
fn addition_fails_without_inverse() {
    // modulo 6 the denominators 4 and 3 have no inverse
    assert_eq!(
        elliptic_add(&affine(0, 2), &affine(0, 2), 4, 6),
        Err(CurveError::NonInvertibleElement)
    );
    assert_eq!(
        elliptic_add(&affine(0, 2), &affine(3, 1), 4, 6),
        Err(CurveError::NonInvertibleElement)
    );
    assert_eq!(elliptic_add(&affine(0, 2), &affine(1, 3), 4, 6), Ok(affine(0, 4)));
}

#[test]
fn point_with_twice_its_ordinate_equal_to_the_modulus_has_no_double() {
    // (1, 3) is its own mirror image modulo 6, yet its ordinate is not 0
    let p = affine(1, 3);
    assert_eq!(negate(&p, 6), p);
    assert_eq!(elliptic_add(&p, &p, 4, 6), Err(CurveError::NonInvertibleElement));
}

#[test]
fn addition_with_a_modulus_near_the_limit() {
    let m: i64 = 9_223_372_036_854_775_783;
    let p = affine(2, 3);
    let double = affine(7_429_938_585_244_124_937, 3_885_772_478_489_743_501);
    let triple = affine(5_215_025_655_967_231_761, 1_690_665_779_580_470_968);
    assert_eq!(elliptic_add(&p, &p, 1, m), Ok(double));
    assert_eq!(elliptic_add(&double, &p, 1, m), Ok(triple));
    assert_eq!(elliptic_add(&p, &double, 1, m), Ok(triple));
}

#[test]
fn multiple_by_zero_is_the_identity() {
    for p in find_all_points(4, 4, 7) {
        assert_eq!(scalar_mult(0, &p, 4, 7), Ok(Point::Infinity));
    }
    assert_eq!(scalar_mult(0, &affine(1, 3), 4, 6), Ok(Point::Infinity));
}

#[test]
fn multiple_by_one_is_the_point() {
    for p in find_all_points(4, 4, 7) {
        assert_eq!(scalar_mult(1, &p, 4, 7), Ok(p));
    }
    // no doubling is needed for the factor 1, so none can fail
    assert_eq!(scalar_mult(1, &affine(1, 3), 4, 6), Ok(affine(1, 3)));
}

#[test]
fn multiples_of_a_generator() {
    let p = affine(0, 2);
    let expected = [
        Point::Infinity,
        affine(0, 2),
        affine(1, 4),
        affine(3, 6),
        affine(5, 3),
        affine(4, 0),
        affine(5, 4),
        affine(3, 1),
        affine(1, 3),
        affine(0, 5),
        Point::Infinity,
        affine(0, 2),
    ];
    for (k, multiple) in expected.iter().enumerate() {
        assert_eq!(scalar_mult(k as i64, &p, 4, 7), Ok(*multiple));
    }
}

#[test]
fn each_multiple_is_the_one_before_plus_the_point() {
    for (a, b, m) in [(4, 4, 7), (1, 1, 23)] {
        for p in find_all_points(a, b, m) {
            for k in 1..=40 {
                let before = scalar_mult(k - 1, &p, a, m).unwrap();
                assert_eq!(scalar_mult(k, &p, a, m), elliptic_add(&before, &p, a, m));
            }
        }
    }
}

#[test]
fn large_scalars() {
    let p = affine(0, 2);
    assert_eq!(scalar_mult(1_000_000_000_000_000_000, &p, 4, 7), Ok(Point::Infinity));
    assert_eq!(scalar_mult(i64::MAX, &p, 4, 7), Ok(affine(3, 1)));
    let m: i64 = 9_223_372_036_854_775_783;
    let q = scalar_mult(1_000_003, &affine(2, 3), 1, m).unwrap();
    assert_eq!(q, affine(2_749_926_643_072_966_268, 5_635_756_383_185_783_555));
    assert!(is_point_on_curve(q.x().unwrap(), q.y().unwrap(), 1, -1, m));
    assert_eq!(
        scalar_mult(i64::MAX, &affine(2, 3), 1, m),
        Ok(affine(2_592_941_764_262_791_081, 4_848_286_385_910_213_607))
    );
}

#[test]
fn negative_scalars_are_refused() {
    let p = affine(0, 2);
    assert_eq!(scalar_mult(-1, &p, 4, 7), Err(CurveError::UnsupportedScalar));
    assert_eq!(scalar_mult(i64::MIN, &p, 4, 7), Err(CurveError::UnsupportedScalar));
    assert_eq!(
        scalar_mult(-5, &Point::Infinity, 4, 7),
        Err(CurveError::UnsupportedScalar)
    );
}

#[test]
fn multiple_fails_where_a_sum_on_the_way_fails() {
    assert_eq!(scalar_mult(2, &affine(1, 3), 4, 6), Err(CurveError::NonInvertibleElement));
    assert_eq!(scalar_mult(3, &affine(0, 2), 4, 6), Err(CurveError::NonInvertibleElement));
    assert_eq!(scalar_mult(3, &affine(4, 0), 4, 6), Ok(affine(4, 0)));
}
