use ecurve::{
    find_all_points, find_generators, order_of, scalar_mult, CurveError, Point, MAX_MODULUS,
};

fn affine(x: i64, y: i64) -> Point {
    Point::Affine { x, y }
}

#[test]
fn orders_on_curve_4_4_mod_7() {
    let points = find_all_points(4, 4, 7);
    let orders: Vec<Option<i64>> =
        points.iter().map(|p| order_of(p, 4, 7, 10).unwrap()).collect();
    let expected: Vec<Option<i64>> =
        [10, 10, 5, 5, 10, 10, 2, 5, 5, 1].iter().map(|k| Some(*k)).collect();
    assert_eq!(orders, expected);
}

#[test]
fn identity_has_order_one() {
    assert_eq!(order_of(&Point::Infinity, 4, 7, 1), Ok(Some(1)));
    assert_eq!(order_of(&Point::Infinity, 4, 7, 100), Ok(Some(1)));
}

#[test]
fn order_divides_the_number_of_points() {
    for (a, b, m) in [(4, 4, 7), (2, 3, 97), (1, 1, 23), (2, 2, 17), (0, 7, 13)] {
        let points = find_all_points(a, b, m);
        let total = points.len() as i64;
        for p in &points {
            let order = order_of(p, a, m, total).unwrap().unwrap();
            assert_eq!(total % order, 0);
        }
    }
}

#[test]
fn order_is_the_least_factor_that_gives_the_identity() {
    for (a, b, m) in [(4, 4, 7), (1, 1, 23)] {
        let points = find_all_points(a, b, m);
        let total = points.len() as i64;
        for p in &points {
            let order = order_of(p, a, m, total).unwrap().unwrap();
            assert_eq!(scalar_mult(order, p, a, m), Ok(Point::Infinity));
            for k in 1..order {
                assert_ne!(scalar_mult(k, p, a, m), Ok(Point::Infinity));
            }
        }
    }
}

#[test]
fn order_beyond_the_limit_is_not_found() {
    let p = affine(0, 2);
    assert_eq!(order_of(&p, 4, 7, 9), Ok(None));
    assert_eq!(order_of(&p, 4, 7, 10), Ok(Some(10)));
    assert_eq!(order_of(&p, 4, 7, 11), Ok(Some(10)));
    assert_eq!(order_of(&affine(3, 6), 2, 97, 4), Ok(None));
    assert_eq!(order_of(&affine(3, 6), 2, 97, 5), Ok(Some(5)));
}

#[test]
fn limit_below_one_finds_nothing() {
    assert_eq!(order_of(&Point::Infinity, 4, 7, 0), Ok(None));
    assert_eq!(order_of(&affine(0, 2), 4, 7, -3), Ok(None));
    assert_eq!(order_of(&affine(1, 3), 4, 6, 0), Ok(None));
}

#[test]
fn order_search_fails_where_a_multiple_does() {
    assert_eq!(order_of(&affine(1, 3), 4, 6, 7), Err(CurveError::NonInvertibleElement));
    assert_eq!(order_of(&affine(0, 2), 4, 6, 7), Err(CurveError::NonInvertibleElement));
    // the first multiple exists, and the limit ends the search before the second
    assert_eq!(order_of(&affine(1, 3), 4, 6, 1), Ok(None));
    assert_eq!(order_of(&affine(4, 0), 4, 6, 7), Ok(Some(2)));
}

#[test]
fn generators_of_curve_4_4_mod_7() {
    let generators = find_generators(4, 4, 7).unwrap();
    assert_eq!(generators, vec![affine(0, 2), affine(0, 5), affine(3, 1), affine(3, 6)]);
}

#[test]
fn generators_are_the_points_whose_order_is_the_number_of_points() {
    for (a, b, m) in [(4, 4, 7), (1, 1, 5), (1, 1, 23), (2, 3, 97), (0, 0, 3)] {
        let points = find_all_points(a, b, m);
        let total = points.len() as i64;
        let expected: Vec<Point> = points
            .iter()
            .filter(|p| order_of(p, a, m, total) == Ok(Some(total)))
            .copied()
            .collect();
        assert_eq!(find_generators(a, b, m), Ok(expected));
    }
}

#[test]
fn group_of_prime_size_is_generated_by_every_affine_point() {
    let points = find_all_points(0, 7, 13);
    assert_eq!(points.len(), 7);
    assert_eq!(find_generators(0, 7, 13).unwrap(), points[..6].to_vec());
}

#[test]
fn group_that_is_not_cyclic_has_no_generator() {
    assert_eq!(find_all_points(2, 3, 97).len(), 100);
    assert_eq!(find_generators(2, 3, 97), Ok(vec![]));
}

#[test]
fn curve_with_twelve_generators() {
    let expected = vec![
        affine(0, 1),
        affine(0, 22),
        affine(1, 7),
        affine(1, 16),
        affine(3, 10),
        affine(3, 13),
        affine(9, 7),
        affine(9, 16),
        affine(18, 3),
        affine(18, 20),
        affine(19, 5),
        affine(19, 18),
    ];
    assert_eq!(find_generators(1, 1, 23), Ok(expected));
}

#[test]
fn modulus_one_is_generated_by_its_affine_point() {
    assert_eq!(find_generators(1, 1, 1), Ok(vec![affine(0, 0)]));
}

#[test]
fn curve_without_affine_points_is_generated_by_the_identity() {
    assert_eq!(find_all_points(2, 2, 3), vec![Point::Infinity]);
    assert_eq!(find_generators(2, 2, 3), Ok(vec![Point::Infinity]));
}

#[test]
fn identity_is_no_generator_of_a_larger_group() {
    for (a, b, m) in [(4, 4, 7), (1, 1, 5), (0, 7, 13)] {
        let generators = find_generators(a, b, m).unwrap();
        assert!(!generators.contains(&Point::Infinity));
    }
}

#[test]
fn generators_fail_where_an_order_search_fails() {
    assert_eq!(find_generators(4, 4, 6), Err(CurveError::NonInvertibleElement));
    assert_eq!(find_generators(1, 1, 2), Err(CurveError::NonInvertibleElement));
    assert_eq!(find_generators(1, 0, 4), Err(CurveError::NonInvertibleElement));
}

#[test]
fn modulus_above_the_limit_is_refused() {
    assert_eq!(MAX_MODULUS, 3_037_000_499);
    assert_eq!(find_generators(4, 4, MAX_MODULUS + 1), Err(CurveError::ArithmeticOverflow));
    assert_eq!(find_generators(4, 4, i64::MAX), Err(CurveError::ArithmeticOverflow));
}
