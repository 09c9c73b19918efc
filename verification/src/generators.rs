//! The order of a point, and the points that generate the whole group of a curve.

use vstd::prelude::*;

use crate::enumerate::{curve_points, find_all_points, lemma_point_count_bound};
use crate::group::{curve_mul, scalar_mult};
use crate::point::{models, CurveError, Point, PointModel};

verus! {

/// The `k`-fold multiple of `p` exists and is not the identity.
pub open spec fn proper_multiple(k: int, p: PointModel, a: int, m: int) -> bool {
    &&& k >= 0
    &&& curve_mul(k as nat, p, a, m) is Some
    &&& curve_mul(k as nat, p, a, m) != Some(PointModel::Infinity)
}

/// `k` is the order of `p`: the least positive number whose multiple of `p` is the
/// identity, all smaller positive multiples being points other than the identity.
pub open spec fn has_order(k: int, p: PointModel, a: int, m: int) -> bool {
    &&& k >= 1
    &&& curve_mul(k as nat, p, a, m) == Some(PointModel::Infinity)
    &&& forall|j: int| 1 <= j < k ==> #[trigger] proper_multiple(j, p, a, m)
}

/// Before the multiples of `p` reach the identity, and within the first `limit` of them,
/// one does not exist.
pub open spec fn order_search_fails(limit: int, p: PointModel, a: int, m: int) -> bool {
    exists|j: int|
        {
            &&& 1 <= j <= limit
            &&& #[trigger] curve_mul(j as nat, p, a, m) is None
            &&& forall|i: int| 1 <= i < j ==> #[trigger] proper_multiple(i, p, a, m)
        }
}

/// Those of `points` whose order is `total`, in their order.
pub open spec fn points_of_order(
    points: Seq<PointModel>,
    total: int,
    a: int,
    m: int,
) -> Seq<PointModel> {
    points.filter(|p: PointModel| has_order(total, p, a, m))
}

/// The generators of the curve: those of its points whose order is the number of all its
/// points, in the order of `curve_points`.
pub open spec fn generators(a: int, b: int, m: int) -> Seq<PointModel> {
    let points = curve_points(a, b, m);
    points_of_order(points, points.len() as int, a, m)
}

/// The search for the order of one of the points of the curve fails, the limit being the
/// number of all its points.
pub open spec fn some_order_search_fails(a: int, b: int, m: int) -> bool {
    let points = curve_points(a, b, m);
    exists|i: int|
        0 <= i < points.len() && #[trigger] order_search_fails(
            points.len() as int,
            points[i],
            a,
            m,
        )
}

/// One more point joins those of order `total` if that is its order, and changes nothing
/// otherwise.
pub proof fn lemma_points_of_order_step(
    points: Seq<PointModel>,
    p: PointModel,
    total: int,
    a: int,
    m: int,
)
    ensures
        points_of_order(points.push(p), total, a, m) == if has_order(total, p, a, m) {
            points_of_order(points, total, a, m).push(p)
        } else {
            points_of_order(points, total, a, m)
        },
        points_of_order(Seq::empty(), total, a, m) == Seq::<PointModel>::empty(),
{
    assert(points.push(p).drop_last() =~= points);
    reveal_with_fuel(Seq::filter, 2);
}

/// A point has at most one order, and the search for it cannot also fail.
pub proof fn lemma_order_unique(k: int, total: int, p: PointModel, a: int, m: int)
    requires
        has_order(k, p, a, m),
        k <= total,
    ensures
        has_order(total, p, a, m) <==> k == total,
        !order_search_fails(total, p, a, m),
{
    if k < total && has_order(total, p, a, m) {
        assert(proper_multiple(k, p, a, m));
    }
    if order_search_fails(total, p, a, m) {
        let j = choose|j: int|
            {
                &&& 1 <= j <= total
                &&& #[trigger] curve_mul(j as nat, p, a, m) is None
                &&& forall|i: int| 1 <= i < j ==> #[trigger] proper_multiple(i, p, a, m)
            };
        if j < k {
            assert(proper_multiple(j, p, a, m));
        } else if j > k {
            assert(proper_multiple(k, p, a, m));
        }
    }
}

/// A point none of whose first `total` multiples is the identity has no order up to
/// `total`, and the search for one does not fail.
pub proof fn lemma_no_order_within(total: int, p: PointModel, a: int, m: int)
    requires
        forall|j: int| 1 <= j <= total ==> #[trigger] proper_multiple(j, p, a, m),
    ensures
        !has_order(total, p, a, m),
        !order_search_fails(total, p, a, m),
{
    if has_order(total, p, a, m) {
        assert(proper_multiple(total, p, a, m));
    }
    if order_search_fails(total, p, a, m) {
        let j = choose|j: int|
            {
                &&& 1 <= j <= total
                &&& #[trigger] curve_mul(j as nat, p, a, m) is None
                &&& forall|i: int| 1 <= i < j ==> #[trigger] proper_multiple(i, p, a, m)
            };
        assert(proper_multiple(j, p, a, m));
    }
}

/// The largest modulus for which the number of points surely fits a scalar.
pub const MAX_MODULUS: i64 = 3_037_000_499;

/// The order of `point`, if it is at most `limit`: the multiples of `point` are computed
/// by rising factor, from 1 on, until one is the identity.
///
/// `Ok(None)` says that none of the first `limit` multiples is the identity. The search
/// fails with `NonInvertibleElement` where it comes to a multiple that does not exist.
pub fn order_of(point: &Point, a: i64, m: i64, limit: i64) -> (res: Result<
    Option<i64>,
    CurveError,
>)
    requires
        m > 0,
    ensures
        match res {
            Ok(Some(k)) => k <= limit && has_order(k as int, point@, a as int, m as int),
            Ok(None) => forall|j: int|
                1 <= j <= limit ==> #[trigger] proper_multiple(j, point@, a as int, m as int),
            Err(e) => e == CurveError::NonInvertibleElement && order_search_fails(
                limit as int,
                point@,
                a as int,
                m as int,
            ),
        },
{
    if limit < 1 {
        return Ok(None);
    }
    let mut k: i64 = 1;
    loop
        invariant
            m > 0,
            1 <= k <= limit,
            forall|j: int| 1 <= j < k ==> #[trigger] proper_multiple(j, point@, a as int, m as int),
        decreases limit - k,
    {
        match scalar_mult(k, point, a, m) {
            Ok(multiple) => {
                if multiple.is_at_infinity() {
                    return Ok(Some(k));
                }
                assert(proper_multiple(k as int, point@, a as int, m as int));
            },
            Err(e) => {
                return Err(e);
            },
        }
        if k == limit {
            return Ok(None);
        }
        k = k + 1;
    }
}

/// The generators of the curve `y^2 = x^3 + a*x + b` modulo `m`: the points whose order
/// is the number of all points of the curve, in the order in which `find_all_points`
/// lists them.
///
/// A modulus above `MAX_MODULUS` is refused with `ArithmeticOverflow`. Otherwise the call
/// fails with `NonInvertibleElement` exactly where the search for the order of one of the
/// points does.
pub fn find_generators(a: i64, b: i64, m: i64) -> (res: Result<Vec<Point>, CurveError>)
    requires
        m > 0,
    ensures
        m > MAX_MODULUS ==> (res matches Err(e) && e == CurveError::ArithmeticOverflow),
        m <= MAX_MODULUS ==> match res {
            Ok(found) => models(found@) == generators(a as int, b as int, m as int)
                && !some_order_search_fails(a as int, b as int, m as int),
            Err(e) => e == CurveError::NonInvertibleElement && some_order_search_fails(
                a as int,
                b as int,
                m as int,
            ),
        },
{
    if m > MAX_MODULUS {
        return Err(CurveError::ArithmeticOverflow);
    }
    let points: Vec<Point> = find_all_points(a, b, m);
    proof {
        assert(m * m <= 3_037_000_499 * 3_037_000_499) by (nonlinear_arith)
            requires
                0 < m <= 3_037_000_499,
        ;
        lemma_point_count_bound(a as int, b as int, m as int);
        assert(models(points@).len() == points@.len());
    }
    let total: i64 = points.len() as i64;
    let mut found: Vec<Point> = Vec::new();
    proof {
        lemma_points_of_order_step(
            Seq::empty(),
            PointModel::Infinity,
            total as int,
            a as int,
            m as int,
        );
        assert(models(points@).take(0) =~= Seq::<PointModel>::empty());
        assert(models(found@) =~= Seq::<PointModel>::empty());
    }
    let mut i: usize = 0;
    while i < points.len()
        invariant
            0 < m <= MAX_MODULUS,
            i <= points.len(),
            total == points.len(),
            models(points@) == curve_points(a as int, b as int, m as int),
            models(found@) == points_of_order(
                models(points@).take(i as int),
                total as int,
                a as int,
                m as int,
            ),
            forall|j: int|
                0 <= j < i ==> !#[trigger] order_search_fails(
                    total as int,
                    models(points@)[j],
                    a as int,
                    m as int,
                ),
        decreases points.len() - i,
    {
        let point: Point = points[i];
        proof {
            assert(models(points@).take(i + 1) =~= models(points@).take(i as int).push(point@));
            lemma_points_of_order_step(
                models(points@).take(i as int),
                point@,
                total as int,
                a as int,
                m as int,
            );
        }
        match order_of(&point, a, m, total) {
            Ok(Some(order)) => {
                proof {
                    lemma_order_unique(order as int, total as int, point@, a as int, m as int);
                }
                if order == total {
                    let ghost before = found@;
                    found.push(point);
                    assert(models(found@) =~= models(before).push(point@));
                }
            },
            Ok(None) => {
                proof {
                    lemma_no_order_within(total as int, point@, a as int, m as int);
                }
            },
            Err(e) => {
                proof {
                    let all = curve_points(a as int, b as int, m as int);
                    assert(all.len() == total);
                    assert(all[i as int] == point@);
                    assert(order_search_fails(
                        all.len() as int,
                        all[i as int],
                        a as int,
                        m as int,
                    ));
                }
                return Err(e);
            },
        }
        i = i + 1;
    }
    proof {
        assert(models(points@).take(points@.len() as int) =~= models(points@));
    }
    Ok(found)
}

} // verus!
