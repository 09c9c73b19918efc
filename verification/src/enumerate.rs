//! Membership in a curve, and the list of all its points by exhaustive search.

use vstd::arithmetic::div_mod::{
    lemma_fundamental_div_mod, lemma_fundamental_div_mod_converse, lemma_mod_bound,
};
use vstd::prelude::*;

use crate::modular::{lemma_mod_shift, lemma_same_mod_difference, mul_mod, reduce};
use crate::point::{models, Point, PointModel};

verus! {

/// By how much `(x, y)` misses the equation of the curve: `y^2 - (x^3 + a*x + b)`.
pub open spec fn residual(x: int, y: int, a: int, b: int) -> int {
    y * y - (x * x * x + a * x + b)
}

/// `(x, y)` satisfies `y^2 = x^3 + a*x + b` modulo `m`.
pub open spec fn on_curve(x: int, y: int, a: int, b: int, m: int) -> bool {
    residual(x, y, a, b) % m == 0
}

/// An affine point that satisfies the equation of the curve.
pub open spec fn is_curve_point(p: PointModel, a: int, b: int, m: int) -> bool {
    p matches PointModel::Affine { x, y } && on_curve(x, y, a, b, m)
}

/// The pair of coordinates in `[0, m)` with number `i`, counting by rising `x` and, for
/// one `x`, by rising `y`.
pub open spec fn candidate(i: int, m: int) -> PointModel {
    PointModel::Affine { x: i / m, y: i % m }
}

/// The affine points of the curve among the first `n` candidates, in their order.
pub open spec fn affine_points_among(n: nat, a: int, b: int, m: int) -> Seq<PointModel> {
    Seq::new(n, |i: int| candidate(i, m)).filter(|p: PointModel| is_curve_point(p, a, b, m))
}

/// How many pairs of coordinates in `[0, m)` there are.
pub open spec fn candidate_count(m: int) -> nat {
    if m > 0 {
        (m * m) as nat
    } else {
        0
    }
}

/// All points of the curve: the affine ones by rising `x`, then rising `y`, and the
/// identity last.
pub open spec fn curve_points(a: int, b: int, m: int) -> Seq<PointModel> {
    affine_points_among(candidate_count(m), a, b, m).push(PointModel::Infinity)
}

/// One more candidate adds itself to the affine points if it lies on the curve, and
/// nothing otherwise.
pub proof fn lemma_affine_points_step(n: nat, a: int, b: int, m: int)
    ensures
        affine_points_among(n + 1, a, b, m) == if is_curve_point(candidate(n as int, m), a, b, m) {
            affine_points_among(n, a, b, m).push(candidate(n as int, m))
        } else {
            affine_points_among(n, a, b, m)
        },
        affine_points_among(0, a, b, m) == Seq::<PointModel>::empty(),
{
    let longer = Seq::new(n + 1, |i: int| candidate(i, m));
    let shorter = Seq::new(n, |i: int| candidate(i, m));
    assert(longer.drop_last() =~= shorter);
    assert(longer.last() == candidate(n as int, m));
    reveal_with_fuel(Seq::filter, 2);
    assert(Seq::new(0, |i: int| candidate(i, m)).len() == 0);
}

/// There are at most as many affine points as candidates.
pub proof fn lemma_point_count_bound(a: int, b: int, m: int)
    ensures
        curve_points(a, b, m).len() <= candidate_count(m) + 1,
{
    Seq::new(candidate_count(m), |i: int| candidate(i, m)).lemma_filter_len(
        |p: PointModel| is_curve_point(p, a, b, m),
    );
}

/// An affine point with both coordinates in `[0, m)`.
pub open spec fn in_range(p: PointModel, m: int) -> bool {
    p matches PointModel::Affine { x, y } && 0 <= x < m && 0 <= y < m
}

/// Both points are affine, and the first has the smaller `x` or, with the same `x`, the
/// smaller `y`.
pub open spec fn comes_before(p: PointModel, q: PointModel) -> bool {
    match (p, q) {
        (PointModel::Affine { x: x1, y: y1 }, PointModel::Affine { x: x2, y: y2 }) => x1 < x2 || (x1
            == x2 && y1 < y2),
        _ => false,
    }
}

/// The number of a pair of coordinates among the candidates.
spec fn position(p: PointModel, m: int) -> int {
    match p {
        PointModel::Affine { x, y } => x * m + y,
        PointModel::Infinity => -1,
    }
}

/// A candidate has coordinates in `[0, m)`, and its number is its position.
proof fn lemma_candidate(k: int, m: int)
    requires
        m > 0,
        0 <= k < m * m,
    ensures
        in_range(candidate(k, m), m),
        position(candidate(k, m), m) == k,
{
    lemma_fundamental_div_mod(k, m);
    lemma_mod_bound(k, m);
    assert(0 <= k / m < m && (k / m) * m + k % m == k) by (nonlinear_arith)
        requires
            k == m * (k / m) + k % m,
            0 <= k % m < m,
            0 <= k < m * m,
    ;
}

/// A pair of coordinates in `[0, m)` is the candidate at its position.
proof fn lemma_position(x: int, y: int, m: int)
    requires
        0 <= x < m,
        0 <= y < m,
    ensures
        0 <= x * m + y < m * m,
        candidate(x * m + y, m) == (PointModel::Affine { x, y }),
{
    assert(0 <= x * m && x * m + m <= m * m) by (nonlinear_arith)
        requires
            0 <= x < m,
    ;
    lemma_fundamental_div_mod_converse(x * m + y, m, x, y);
}

/// Positions order the pairs of coordinates in `[0, m)` by `x`, then by `y`.
proof fn lemma_positions_order(p: PointModel, q: PointModel, m: int)
    requires
        in_range(p, m),
        in_range(q, m),
        position(p, m) < position(q, m),
    ensures
        comes_before(p, q),
{
    let (x1, y1) = (p->x, p->y);
    let (x2, y2) = (q->x, q->y);
    if x1 > x2 {
        assert(x1 * m >= x2 * m + m) by (nonlinear_arith)
            requires
                x1 >= x2 + 1,
                m > 0,
        ;
    }
}

/// Among the first `n` candidates, the affine points of the curve are those candidates
/// that satisfy its equation, each once, by rising position.
proof fn lemma_affine_points_among(n: nat, a: int, b: int, m: int)
    requires
        m > 0,
        n <= m * m,
    ensures
        forall|i: int|
            0 <= i < affine_points_among(n, a, b, m).len() ==> {
                let p = #[trigger] affine_points_among(n, a, b, m)[i];
                in_range(p, m) && is_curve_point(p, a, b, m) && position(p, m) < n
            },
        forall|i: int, j: int|
            0 <= i < j < affine_points_among(n, a, b, m).len() ==> position(
                #[trigger] affine_points_among(n, a, b, m)[i],
                m,
            ) < position(#[trigger] affine_points_among(n, a, b, m)[j], m),
        forall|k: int|
            0 <= k < n && is_curve_point(#[trigger] candidate(k, m), a, b, m)
                ==> affine_points_among(n, a, b, m).contains(candidate(k, m)),
    decreases n,
{
    if n == 0 {
        lemma_affine_points_step(0, a, b, m);
    } else {
        let before = affine_points_among((n - 1) as nat, a, b, m);
        let now = affine_points_among(n, a, b, m);
        let last = candidate(n - 1, m);
        lemma_affine_points_among((n - 1) as nat, a, b, m);
        lemma_affine_points_step((n - 1) as nat, a, b, m);
        lemma_candidate(n - 1, m);
        if is_curve_point(last, a, b, m) {
            assert(now == before.push(last));
            assert(now[before.len() as int] == last);
            assert forall|k: int|
                0 <= k < n && is_curve_point(#[trigger] candidate(k, m), a, b, m) implies now.contains(
                candidate(k, m),
            ) by {
                if k < n - 1 {
                    let i = choose|i: int| 0 <= i < before.len() && before[i] == candidate(k, m);
                    assert(now[i] == candidate(k, m));
                }
            }
        }
    }
}

/// The list of all points is exact: before the identity, which comes last, stand the
/// pairs of coordinates in `[0, m)` that satisfy the equation of the curve, all of them,
/// each once, by rising `x` and then rising `y`.
pub proof fn lemma_curve_points_exact(a: int, b: int, m: int)
    ensures
        curve_points(a, b, m).len() >= 1,
        curve_points(a, b, m).last() == PointModel::Infinity,
        forall|i: int|
            0 <= i < curve_points(a, b, m).len() - 1 ==> {
                let p = #[trigger] curve_points(a, b, m)[i];
                in_range(p, m) && is_curve_point(p, a, b, m)
            },
        forall|i: int, j: int|
            0 <= i < j < curve_points(a, b, m).len() - 1 ==> comes_before(
                #[trigger] curve_points(a, b, m)[i],
                #[trigger] curve_points(a, b, m)[j],
            ),
        forall|x: int, y: int|
            0 <= x < m && 0 <= y < m && #[trigger] on_curve(x, y, a, b, m) ==> curve_points(
                a,
                b,
                m,
            ).contains(PointModel::Affine { x, y }),
{
    let n = candidate_count(m);
    let affine = affine_points_among(n, a, b, m);
    let all = curve_points(a, b, m);
    if m > 0 {
        lemma_affine_points_among(n, a, b, m);
        assert forall|i: int, j: int| 0 <= i < j < all.len() - 1 implies comes_before(
            #[trigger] all[i],
            #[trigger] all[j],
        ) by {
            assert(all[i] == affine[i] && all[j] == affine[j]);
            lemma_positions_order(all[i], all[j], m);
        }
        assert forall|x: int, y: int|
            0 <= x < m && 0 <= y < m && #[trigger] on_curve(x, y, a, b, m) implies all.contains(
            PointModel::Affine { x, y },
        ) by {
            lemma_position(x, y, m);
            let k = x * m + y;
            assert(is_curve_point(candidate(k, m), a, b, m));
            let i = choose|i: int| 0 <= i < affine.len() && affine[i] == candidate(k, m);
            assert(all[i] == candidate(k, m));
        }
    } else {
        lemma_affine_points_step(0, a, b, m);
    }
}

/// Whether `(x, y)` satisfies `y^2 = x^3 + a*x + b` modulo `m`.
pub fn is_point_on_curve(x: i64, y: i64, a: i64, b: i64, m: i64) -> (r: bool)
    requires
        m > 0,
    ensures
        r == on_curve(x as int, y as int, a as int, b as int, m as int),
{
    let y2: i64 = mul_mod(y, y, m);
    let x2: i64 = mul_mod(x, x, m);
    let x3: i64 = mul_mod(x2, x, m);
    let ax: i64 = mul_mod(a, x, m);
    let difference: i128 = (y2 as i128) - ((x3 as i128) + (ax as i128) + (b as i128));
    proof {
        let mi = m as int;
        lemma_fundamental_div_mod_converse(y2 as int, mi, 0, y2 as int);
        lemma_fundamental_div_mod_converse(x2 as int, mi, 0, x2 as int);
        lemma_fundamental_div_mod_converse(x3 as int, mi, 0, x3 as int);
        lemma_fundamental_div_mod_converse(ax as int, mi, 0, ax as int);
        let k1 = lemma_same_mod_difference(y * y, y2 as int, mi);
        let k2 = lemma_same_mod_difference(x * x, x2 as int, mi);
        let k3 = lemma_same_mod_difference(x2 * x, x3 as int, mi);
        let k4 = lemma_same_mod_difference(a * x, ax as int, mi);
        let k = k1 - k3 - k2 * x - k4;
        assert(y * y - (x * x * x + a * x + b) == difference + k * mi) by (nonlinear_arith)
            requires
                y * y == y2 + k1 * mi,
                x * x == x2 + k2 * mi,
                x2 * x == x3 + k3 * mi,
                a * x == ax + k4 * mi,
                difference == y2 - (x3 + ax + b),
                k == k1 - k3 - k2 * x - k4,
        ;
        lemma_mod_shift(y * y - (x * x * x + a * x + b), difference as int, k, mi);
    }
    reduce(difference, m) == 0
}

/// All points of the curve `y^2 = x^3 + a*x + b` modulo `m`, found by trying every pair
/// of coordinates in `[0, m)`; the identity comes last.
pub fn find_all_points(a: i64, b: i64, m: i64) -> (points: Vec<Point>)
    ensures
        models(points@) == curve_points(a as int, b as int, m as int),
{
    let mut points: Vec<Point> = Vec::new();
    proof {
        lemma_affine_points_step(0, a as int, b as int, m as int);
        assert(models(points@) =~= Seq::<PointModel>::empty());
    }
    let mut x: i64 = 0;
    while x < m
        invariant
            0 <= x,
            m > 0 ==> x <= m,
            m <= 0 ==> x == 0,
            models(points@) == affine_points_among((x * m) as nat, a as int, b as int, m as int),
        decreases m - x,
    {
        let mut y: i64 = 0;
        while y < m
            invariant
                0 <= x < m,
                0 <= y <= m,
                models(points@) == affine_points_among(
                    (x * m + y) as nat,
                    a as int,
                    b as int,
                    m as int,
                ),
            decreases m - y,
        {
            proof {
                let i = x * m + y;
                assert(0 <= x * m) by (nonlinear_arith)
                    requires
                        0 <= x,
                        0 < m,
                ;
                assert(i == x * m + y);
                lemma_fundamental_div_mod_converse(i, m as int, x as int, y as int);
                lemma_affine_points_step(i as nat, a as int, b as int, m as int);
            }
            if is_point_on_curve(x, y, a, b, m) {
                let ghost before = points@;
                points.push(Point::Affine { x, y });
                assert(models(points@) =~= models(before).push(
                    PointModel::Affine { x: x as int, y: y as int },
                ));
            }
            y = y + 1;
        }
        proof {
            assert((x + 1) * m == x * m + m) by (nonlinear_arith);
        }
        x = x + 1;
    }
    proof {
        if m > 0 {
            assert(x == m);
        } else {
            assert(x == 0);
            assert(x * m == 0);
        }
    }
    let ghost before = points@;
    points.push(Point::Infinity);
    assert(models(points@) =~= models(before).push(PointModel::Infinity));
    points
}

} // verus!
