//! Laws of the sum and the multiples of points. Of every curve and modulus: the identity
//! is neutral, a point and its negation cancel, the sum is commutative and stays on the
//! curve. Wherever the multiples of a point add up like their factors: doubling and
//! adding computes the repeated sum.

use vstd::arithmetic::div_mod::{lemma_fundamental_div_mod_converse, lemma_mod_bound};
use vstd::prelude::*;

use crate::enumerate::{
    curve_points, in_range, lemma_curve_points_exact, on_curve, residual,
};
use crate::group::{curve_add, curve_mul, curve_neg, double_and_add, slope};
use crate::modular::{
    inverse_mod, lemma_divides_combination, lemma_inverse_mod_is_inverse,
    lemma_inverse_mod_negation, lemma_mod_shift, lemma_remainder_shift,
    lemma_same_mod_difference,
};
use crate::point::PointModel;

verus! {

/// The identity is neutral: added to a point from either side, it leaves the point.
pub proof fn lemma_add_identity(p: PointModel, a: int, m: int)
    ensures
        curve_add(p, PointModel::Infinity, a, m) == Some(p),
        curve_add(PointModel::Infinity, p, a, m) == Some(p),
{
}

/// A point and its negation sum to the identity, unless twice its ordinate is `m`:
/// such a point is its own negation without having ordinate 0.
pub proof fn lemma_add_negation(p: PointModel, a: int, m: int)
    requires
        p matches PointModel::Affine { x, y } ==> 2 * y != m,
    ensures
        curve_add(p, curve_neg(p, m), a, m) == Some(PointModel::Infinity),
{
}

/// The slope times its denominator is its numerator, up to a multiple of `m`.
proof fn lemma_slope_solves(num: int, den: int, m: int)
    requires
        m > 0,
        inverse_mod(den, m) is Some,
    ensures
        (((num * inverse_mod(den, m).unwrap()) % m) * den - num) % m == 0,
{
    let inv = inverse_mod(den, m).unwrap();
    let lambda = (num * inv) % m;
    lemma_inverse_mod_is_inverse(den, m);
    let k = lemma_remainder_shift(num * inv, m);
    let i = lemma_same_mod_difference(den * inv, 1, m);
    let unit = den * inv;
    assert(lambda * den == num * unit + (k * den) * m) by (nonlinear_arith)
        requires
            lambda == num * inv + k * m,
            unit == den * inv,
    ;
    assert(num * unit == num + (num * i) * m) by (nonlinear_arith)
        requires
            unit == 1 + i * m,
    ;
    let w = num * i + k * den;
    assert(w * m == (num * i) * m + (k * den) * m) by (nonlinear_arith)
        requires
            w == num * i + k * den,
    ;
    lemma_mod_shift(lambda * den - num, 0, w, m);
}

/// The slope of the line through two points with different abscissas does not depend on
/// the order in which they are given.
proof fn lemma_chord_slope(x1: int, y1: int, x2: int, y2: int, a: int, m: int)
    requires
        m > 0,
        x1 != x2,
    ensures
        slope(x1, y1, x2, y2, a, m) == slope(x2, y2, x1, y1, a, m),
{
    let den = x2 - x1;
    let num = y2 - y1;
    lemma_inverse_mod_negation(den, m);
    assert(-den == x1 - x2);
    if let Some(inv) = inverse_mod(den, m) {
        let back = (-inv) % m;
        let j = lemma_remainder_shift(-inv, m);
        assert((-num) * back == num * inv + (-num * j) * m) by (nonlinear_arith)
            requires
                back == -inv + j * m,
        ;
        lemma_mod_shift((-num) * back, num * inv, -num * j, m);
        assert(y1 - y2 == -num);
    }
}

/// The sum of two points does not depend on their order.
pub proof fn lemma_add_commutative(p: PointModel, q: PointModel, a: int, m: int)
    requires
        m > 0,
    ensures
        curve_add(p, q, a, m) == curve_add(q, p, a, m),
{
    match (p, q) {
        (PointModel::Affine { x: x1, y: y1 }, PointModel::Affine { x: x2, y: y2 }) => {
            if x1 != x2 {
                lemma_chord_slope(x1, y1, x2, y2, a, m);
                if let Some(lambda) = slope(x1, y1, x2, y2, a, m) {
                    let x3 = (lambda * lambda - x1 - x2) % m;
                    assert(lambda * lambda - x2 - x1 == lambda * lambda - x1 - x2);
                    // the two ordinates differ by lambda * (x2 - x1) - (y2 - y1)
                    lemma_slope_solves(y2 - y1, x2 - x1, m);
                    let miss = lambda * (x2 - x1) - (y2 - y1);
                    let k = lemma_same_mod_difference(miss, 0, m);
                    assert(lambda * (x1 - x3) - y1 == (lambda * (x2 - x3) - y2) + (-k) * m)
                        by (nonlinear_arith)
                        requires
                            miss == lambda * (x2 - x1) - (y2 - y1),
                            miss == 0 + k * m,
                    ;
                    lemma_mod_shift(lambda * (x1 - x3) - y1, lambda * (x2 - x3) - y2, -k, m);
                }
            }
        },
        _ => {},
    }
}

/// Along the line of slope `lambda` through `(x, y)`, the residual changes by a multiple
/// of the step `t`.
proof fn lemma_residual_along_line(x: int, y: int, lambda: int, t: int, a: int, b: int)
    ensures
        residual(x + t, y + lambda * t, a, b) == residual(x, y, a, b) - t * (3 * x * x + 3 * x * t
            + t * t + a - lambda * lambda * t - 2 * lambda * y),
{
    let z = x + t;
    let w = lambda * t;
    let cube = z * z * z;
    let square = (y + w) * (y + w);
    let k = 3 * x * x + 3 * x * t + t * t + a - lambda * lambda * t - 2 * lambda * y;
    let x3 = x * x * x;
    let x2t = x * x * t;
    let xt2 = x * t * t;
    let t3 = t * t * t;
    let l2t2 = lambda * lambda * t * t;
    let lyt = lambda * y * t;
    let xx = x * x;
    let xt = x * t;
    let tt = t * t;
    let zz = z * z;
    assert(zz == xx + 2 * xt + tt) by (nonlinear_arith)
        requires
            z == x + t,
            zz == z * z,
            xx == x * x,
            xt == x * t,
            tt == t * t,
    ;
    assert(zz * z == xx * x + xx * t + 2 * (xt * x) + 2 * (xt * t) + tt * x + tt * t)
        by (nonlinear_arith)
        requires
            z == x + t,
            zz == xx + 2 * xt + tt,
    ;
    assert(xx * x == x3 && xx * t == x2t && xt * x == x2t && xt * t == xt2 && tt * x == xt2 && tt
        * t == t3) by (nonlinear_arith)
        requires
            xx == x * x,
            xt == x * t,
            tt == t * t,
            x3 == x * x * x,
            x2t == x * x * t,
            xt2 == x * t * t,
            t3 == t * t * t,
    ;
    assert(cube == x3 + 3 * x2t + 3 * xt2 + t3);
    assert(a * z == a * x + a * t) by (nonlinear_arith)
        requires
            z == x + t,
    ;
    let ww = w * w;
    let wy = w * y;
    assert(square == y * y + 2 * wy + ww) by (nonlinear_arith)
        requires
            square == (y + w) * (y + w),
            ww == w * w,
            wy == w * y,
    ;
    assert(ww == l2t2 && wy == lyt) by (nonlinear_arith)
        requires
            w == lambda * t,
            ww == w * w,
            wy == w * y,
            l2t2 == lambda * lambda * t * t,
            lyt == lambda * y * t,
    ;
    let part_a = 3 * x * x;
    let part_b = 3 * x * t;
    let part_c = t * t;
    let part_d = lambda * lambda * t;
    let part_e = 2 * lambda * y;
    assert(t * k == t * part_a + t * part_b + t * part_c + t * a - t * part_d - t * part_e) by (nonlinear_arith)
        requires
            k == part_a + part_b + part_c + a - part_d - part_e,
    ;
    assert(t * part_a == 3 * x2t) by (nonlinear_arith)
        requires
            part_a == 3 * x * x,
            x2t == x * x * t,
    ;
    assert(t * part_b == 3 * xt2) by (nonlinear_arith)
        requires
            part_b == 3 * x * t,
            xt2 == x * t * t,
    ;
    assert(t * part_c == t3) by (nonlinear_arith)
        requires
            part_c == t * t,
            t3 == t * t * t,
    ;
    assert(t * part_d == l2t2) by (nonlinear_arith)
        requires
            part_d == lambda * lambda * t,
            l2t2 == lambda * lambda * t * t,
    ;
    assert(t * part_e == 2 * lyt) by (nonlinear_arith)
        requires
            part_e == 2 * lambda * y,
            lyt == lambda * y * t,
    ;
    assert(t * a == a * t) by (nonlinear_arith);
}

/// The residual depends on the remainders of the coordinates alone, up to a multiple of `m`.
proof fn lemma_residual_congruent(x: int, y: int, j: int, k: int, a: int, b: int, m: int)
    requires
        m > 0,
    ensures
        residual(x + j * m, y + k * m, a, b) % m == residual(x, y, a, b) % m,
{
    let t = j * m;
    lemma_residual_along_line(x, y, 0, t, a, b);
    let c = 3 * x * x + 3 * x * t + t * t + a;
    assert(y + 0 * t == y);
    assert(3 * x * x + 3 * x * t + t * t + a - 0 * 0 * t - 2 * 0 * y == c) by (nonlinear_arith)
        requires
            c == 3 * x * x + 3 * x * t + t * t + a,
    ;
    let s = k * m;
    assert((y + s) * (y + s) == y * y + (k * (s + 2 * y)) * m) by (nonlinear_arith)
        requires
            s == k * m,
    ;
    assert(t * c == (j * c) * m) by (nonlinear_arith)
        requires
            t == j * m,
    ;
    let e = k * (s + 2 * y) - j * c;
    assert(e * m == (k * (s + 2 * y)) * m - (j * c) * m) by (nonlinear_arith)
        requires
            e == k * (s + 2 * y) - j * c,
    ;
    lemma_mod_shift(residual(x + j * m, y + k * m, a, b), residual(x, y, a, b), e, m);
}

/// A number whose product with an invertible one is a multiple of `m` is a multiple of `m`.
proof fn lemma_cancel_unit(c: int, u: int, m: int)
    requires
        m > 0,
        inverse_mod(u, m) is Some,
        (u * c) % m == 0,
    ensures
        c % m == 0,
{
    let inv = inverse_mod(u, m).unwrap();
    lemma_inverse_mod_is_inverse(u, m);
    let i = lemma_same_mod_difference(u * inv, 1, m);
    lemma_fundamental_div_mod_converse(m, m, 1, 0);
    lemma_divides_combination(m, u * c, m, inv, -(c * i));
    let unit = u * inv;
    assert((u * c) * inv + m * (-(c * i)) == c) by (nonlinear_arith)
        requires
            unit == u * inv,
            unit == 1 + i * m,
    ;
}

/// A point that is the identity or satisfies the equation of the curve.
pub open spec fn belongs_to_curve(p: PointModel, a: int, b: int, m: int) -> bool {
    match p {
        PointModel::Infinity => true,
        PointModel::Affine { x, y } => on_curve(x, y, a, b, m),
    }
}

/// The sum of two points of a curve, where it exists, is a point of that curve.
pub proof fn lemma_add_stays_on_curve(p: PointModel, q: PointModel, a: int, b: int, m: int)
    requires
        m > 0,
        belongs_to_curve(p, a, b, m),
        belongs_to_curve(q, a, b, m),
    ensures
        curve_add(p, q, a, m) matches Some(r) ==> belongs_to_curve(r, a, b, m),
{
    match (p, q) {
        (PointModel::Affine { x: x1, y: y1 }, PointModel::Affine { x: x2, y: y2 }) => {
            if !(x1 == x2 && (y1 != y2 || y1 == 0)) {
                if let Some(lambda) = slope(x1, y1, x2, y2, a, m) {
                    let num = if x1 == x2 {
                        3 * x1 * x1 + a
                    } else {
                        y2 - y1
                    };
                    let den = if x1 == x2 {
                        2 * y1
                    } else {
                        x2 - x1
                    };
                    lemma_slope_solves(num, den, m);
                    let miss = lambda * den - num;
                    let e1 = residual(x1, y1, a, b);
                    let e2 = residual(x2, y2, a, b);
                    let u = x2 - x1;
                    let far_x = lambda * lambda - x1 - x2;
                    let d = far_x - x1;
                    let bend_u = 3 * x1 * x1 + 3 * x1 * u + u * u + a - lambda * lambda * u - 2
                        * lambda * y1;
                    let bend_d = 3 * x1 * x1 + 3 * x1 * d + d * d + a - lambda * lambda * d - 2
                        * lambda * y1;
                    // the line meets the curve in a third point with abscissa far_x
                    assert(bend_d == bend_u) by (nonlinear_arith)
                        requires
                            d + u + 3 * x1 == lambda * lambda,
                            bend_u == 3 * x1 * x1 + 3 * x1 * u + u * u + a - lambda * lambda * u
                                - 2 * lambda * y1,
                            bend_d == 3 * x1 * x1 + 3 * x1 * d + d * d + a - lambda * lambda * d
                                - 2 * lambda * y1,
                    ;
                    if x1 == x2 {
                        assert(bend_u == -miss) by (nonlinear_arith)
                            requires
                                u == 0,
                                bend_u == 3 * x1 * x1 + 3 * x1 * u + u * u + a - lambda * lambda
                                    * u - 2 * lambda * y1,
                                miss == lambda * (2 * y1) - (3 * x1 * x1 + a),
                        ;
                        lemma_fundamental_div_mod_converse(m, m, 1, 0);
                        lemma_divides_combination(m, miss, m, -1, 0);
                    } else {
                        lemma_residual_along_line(x1, y1, lambda, u, a, b);
                        assert(y1 + lambda * u == y2 + miss);
                        assert(x1 + u == x2);
                        assert((y2 + miss) * (y2 + miss) == y2 * y2 + miss * (miss + 2 * y2))
                            by (nonlinear_arith);
                        assert(u * bend_u == e1 - e2 - miss * (miss + 2 * y2));
                        lemma_divides_combination(m, e1, e2, 1, -1);
                        lemma_divides_combination(m, e1 * 1 + e2 * (-1), miss, 1, -(miss + 2 * y2));
                        assert(miss * (-(miss + 2 * y2)) == -(miss * (miss + 2 * y2)))
                            by (nonlinear_arith);
                        lemma_cancel_unit(bend_u, u, m);
                    }
                    lemma_residual_along_line(x1, y1, lambda, d, a, b);
                    let far_y = lambda * (x1 - far_x) - y1;
                    assert(far_y == -(y1 + lambda * d)) by (nonlinear_arith)
                        requires
                            far_y == lambda * (x1 - far_x) - y1,
                            d == far_x - x1,
                    ;
                    assert(far_y * far_y == (y1 + lambda * d) * (y1 + lambda * d))
                        by (nonlinear_arith)
                        requires
                            far_y == -(y1 + lambda * d),
                    ;
                    assert(x1 + d == far_x);
                    assert(residual(far_x, far_y, a, b) == e1 - d * bend_d);
                    lemma_divides_combination(m, e1, bend_d, 1, -d);
                    assert(bend_d * (-d) == -(d * bend_d)) by (nonlinear_arith);
                    assert(residual(far_x, far_y, a, b) % m == 0);
                    // the coordinates of the sum are the remainders of far_x and far_y
                    let x3 = far_x % m;
                    let raw = lambda * (x1 - x3) - y1;
                    let y3 = raw % m;
                    let j = lemma_remainder_shift(far_x, m);
                    let k = lemma_remainder_shift(raw, m);
                    assert(raw == far_y - (lambda * j) * m) by (nonlinear_arith)
                        requires
                            raw == lambda * (x1 - x3) - y1,
                            far_y == lambda * (x1 - far_x) - y1,
                            x3 == far_x + j * m,
                    ;
                    assert(y3 == far_y + (k - lambda * j) * m) by (nonlinear_arith)
                        requires
                            y3 == raw + k * m,
                            raw == far_y - (lambda * j) * m,
                    ;
                    lemma_residual_congruent(far_x, far_y, j, k - lambda * j, a, b, m);
                }
            }
        },
        _ => {},
    }
}

/// The sum of two points, where it is not one of them or the identity, has coordinates
/// in `[0, m)`.
pub proof fn lemma_add_in_range(p: PointModel, q: PointModel, a: int, m: int)
    requires
        m > 0,
        p is Infinity || in_range(p, m),
        q is Infinity || in_range(q, m),
    ensures
        curve_add(p, q, a, m) matches Some(r) ==> r is Infinity || in_range(r, m),
{
    if let (PointModel::Affine { x: x1, y: y1 }, PointModel::Affine { x: x2, y: y2 }) = (p, q) {
        if let Some(lambda) = slope(x1, y1, x2, y2, a, m) {
            let x3 = (lambda * lambda - x1 - x2) % m;
            lemma_mod_bound(lambda * lambda - x1 - x2, m);
            lemma_mod_bound(lambda * (x1 - x3) - y1, m);
        }
    }
}

/// The points of a curve are closed under the sum: the sum of two points of the list of
/// all points, where it exists, is in that list.
pub proof fn lemma_sum_is_listed(p: PointModel, q: PointModel, a: int, b: int, m: int)
    requires
        m > 0,
        curve_points(a, b, m).contains(p),
        curve_points(a, b, m).contains(q),
    ensures
        curve_add(p, q, a, m) matches Some(r) ==> curve_points(a, b, m).contains(r),
{
    let all = curve_points(a, b, m);
    lemma_curve_points_exact(a, b, m);
    let i = choose|i: int| 0 <= i < all.len() && all[i] == p;
    let j = choose|j: int| 0 <= j < all.len() && all[j] == q;
    assert(all[i] == p && all[j] == q);
    lemma_add_in_range(p, q, a, m);
    lemma_add_stays_on_curve(p, q, a, b, m);
    if let Some(r) = curve_add(p, q, a, m) {
        match r {
            PointModel::Infinity => {
                assert(all[all.len() - 1] == r);
            },
            PointModel::Affine { x, y } => {
                assert(on_curve(x, y, a, b, m));
            },
        }
    }
}

/// The zero-fold multiple of every point is the identity.
pub proof fn lemma_mul_zero(p: PointModel, a: int, m: int)
    ensures
        curve_mul(0, p, a, m) == Some(PointModel::Infinity),
{
}

/// The one-fold multiple of every point is the point.
pub proof fn lemma_mul_one(p: PointModel, a: int, m: int)
    ensures
        curve_mul(1, p, a, m) == Some(p),
{
}

/// The sum of a multiple, where it exists, and the point.
pub open spec fn add_next(multiple: Option<PointModel>, p: PointModel, a: int, m: int) -> Option<
    PointModel,
> {
    match multiple {
        Some(r) => curve_add(r, p, a, m),
        None => None,
    }
}

/// The `n`-fold sum of `p` with itself, built up one `p` at a time from the identity.
pub open spec fn repeated_add(n: nat, p: PointModel, a: int, m: int) -> Option<PointModel>
    decreases n,
{
    if n == 0 {
        Some(PointModel::Infinity)
    } else {
        add_next(repeated_add((n - 1) as nat, p, a, m), p, a, m)
    }
}

/// Up to the factor 3, doubling and adding gives the same as adding the point to the
/// multiple before.
pub proof fn lemma_mul_step_small(k: nat, p: PointModel, a: int, m: int)
    requires
        m > 0,
        1 <= k <= 3,
    ensures
        curve_mul(k, p, a, m) == add_next(curve_mul((k - 1) as nat, p, a, m), p, a, m),
        curve_mul(k, p, a, m) == repeated_add(k, p, a, m),
{
    reveal_with_fuel(double_and_add, 3);
    reveal_with_fuel(repeated_add, 4);
    if let Some(double) = curve_add(p, p, a, m) {
        lemma_add_commutative(p, double, a, m);
    }
}

/// The sum of the `j`-fold and the `k`-fold sum of `p`, where both exist.
pub open spec fn sum_of_multiples(j: nat, k: nat, p: PointModel, a: int, m: int) -> Option<
    PointModel,
> {
    match (repeated_add(j, p, a, m), repeated_add(k, p, a, m)) {
        (Some(r), Some(s)) => curve_add(r, s, a, m),
        _ => None,
    }
}

/// Up to the factor `n`, the multiples of `p` exist and add up like their factors: the
/// `j`-fold and the `k`-fold sum give the `(j + k)`-fold one. This holds of the points of
/// a curve whose sum is associative.
pub open spec fn multiples_add_up(n: nat, p: PointModel, a: int, m: int) -> bool {
    forall|j: nat, k: nat|
        j + k <= n ==> repeated_add(j + k, p, a, m) is Some && #[trigger] sum_of_multiples(
            j,
            k,
            p,
            a,
            m,
        ) == repeated_add(j + k, p, a, m)
}

/// Doubling and adding from the `c`-fold and the `d`-fold sum, along the digits of `k`,
/// arrives at the `(c + k * d)`-fold sum.
proof fn lemma_double_and_add_multiples(
    k: nat,
    c: nat,
    d: nat,
    n: nat,
    p: PointModel,
    a: int,
    m: int,
)
    requires
        multiples_add_up(n, p, a, m),
        c + k * d <= n,
        d <= n,
    ensures
        repeated_add(c, p, a, m) is Some,
        repeated_add(d, p, a, m) is Some,
        double_and_add(k, repeated_add(c, p, a, m).unwrap(), repeated_add(d, p, a, m).unwrap(), a, m)
            == repeated_add(c + k * d, p, a, m),
    decreases k,
{
    assert(c <= n) by (nonlinear_arith)
        requires
            c + k * d <= n,
    ;
    assert(sum_of_multiples(c, 0, p, a, m) == repeated_add(c, p, a, m));
    assert(sum_of_multiples(d, 0, p, a, m) == repeated_add(d, p, a, m));
    if k == 0 {
        assert(c + k * d == c) by (nonlinear_arith)
            requires
                k == 0,
        ;
    } else {
        let bit: nat = k % 2;
        let half: nat = k / 2;
        let next: nat = c + bit * d;
        assert(next + half * (2 * d) == c + k * d && next <= c + k * d && (bit == 1 ==> next == c
            + d) && (bit == 0 ==> next == c) && (half > 0 ==> 2 * d <= c + k * d)
            && (half == 0 ==> next == c + k * d)) by (nonlinear_arith)
            requires
                k == 2 * half + bit,
                bit == 0 || bit == 1,
                k > 0,
                next == c + bit * d,
        ;
        if bit == 1 {
            assert(sum_of_multiples(c, d, p, a, m) == repeated_add(c + d, p, a, m));
        }
        if half > 0 {
            assert(sum_of_multiples(d, d, p, a, m) == repeated_add(d + d, p, a, m));
            lemma_double_and_add_multiples(half, next, 2 * d, n, p, a, m);
        }
    }
}

/// Doubling and adding computes the `n`-fold sum of `p`, wherever the multiples of `p`
/// add up like their factors.
pub proof fn lemma_mul_is_repeated_add(n: nat, p: PointModel, a: int, m: int)
    requires
        multiples_add_up(n, p, a, m),
    ensures
        curve_mul(n, p, a, m) == repeated_add(n, p, a, m),
{
    reveal_with_fuel(repeated_add, 2);
    if n >= 1 {
        assert(0 + n * 1 == n) by (nonlinear_arith);
        lemma_double_and_add_multiples(n, 0, 1, n, p, a, m);
    }
}

/// Each multiple is the multiple before plus the point, wherever the multiples of `p`
/// add up like their factors.
pub proof fn lemma_mul_step(k: nat, p: PointModel, a: int, m: int)
    requires
        k >= 1,
        multiples_add_up(k, p, a, m),
    ensures
        curve_mul(k, p, a, m) == add_next(curve_mul((k - 1) as nat, p, a, m), p, a, m),
{
    lemma_mul_is_repeated_add(k, p, a, m);
    assert(multiples_add_up((k - 1) as nat, p, a, m));
    lemma_mul_is_repeated_add((k - 1) as nat, p, a, m);
}

} // verus!
