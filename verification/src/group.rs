//! The group law of a curve `y^2 = x^3 + a*x + b` modulo `m`: the sum of two points and
//! the multiples of a point.

use vstd::arithmetic::div_mod::{
    lemma_fundamental_div_mod_converse, lemma_mul_mod_noop_general,
};
use vstd::prelude::*;

use crate::modular::{
    inverse_mod, lemma_inverse_mod_congruent, lemma_mod_shift, lemma_same_mod_difference, mod_inv,
    mul_mod, reduce,
};
use crate::point::{CurveError, Point, PointModel};

verus! {

/// The slope of the line through `(x1, y1)` and `(x2, y2)`, or of the tangent where the
/// two have one abscissa, reduced modulo `m`; `None` where the denominator has no inverse.
pub open spec fn slope(x1: int, y1: int, x2: int, y2: int, a: int, m: int) -> Option<int> {
    let num = if x1 == x2 {
        3 * x1 * x1 + a
    } else {
        y2 - y1
    };
    let den = if x1 == x2 {
        2 * y1
    } else {
        x2 - x1
    };
    match inverse_mod(den, m) {
        Some(inv) => Some((num * inv) % m),
        None => None,
    }
}

/// The sum of two points; `None` where the slope it needs does not exist.
///
/// The identity added to a point leaves it as it is. Two points with one abscissa and
/// different ordinates, or the same point with ordinate 0, give the identity. Otherwise
/// the third point of the line through both is mirrored, with coordinates in `[0, m)`.
pub open spec fn curve_add(p: PointModel, q: PointModel, a: int, m: int) -> Option<PointModel> {
    match (p, q) {
        (PointModel::Infinity, _) => Some(q),
        (_, PointModel::Infinity) => Some(p),
        (PointModel::Affine { x: x1, y: y1 }, PointModel::Affine { x: x2, y: y2 }) => {
            if x1 == x2 && (y1 != y2 || y1 == 0) {
                Some(PointModel::Infinity)
            } else {
                match slope(x1, y1, x2, y2, a, m) {
                    Some(lambda) => {
                        let x3 = (lambda * lambda - x1 - x2) % m;
                        let y3 = (lambda * (x1 - x3) - y1) % m;
                        Some(PointModel::Affine { x: x3, y: y3 })
                    },
                    None => None,
                }
            }
        },
    }
}

/// The point that sums with `p` to the identity: `p` mirrored at the axis of abscissas.
pub open spec fn curve_neg(p: PointModel, m: int) -> PointModel {
    match p {
        PointModel::Infinity => p,
        PointModel::Affine { x, y } => if y != 0 {
            PointModel::Affine { x, y: m - y }
        } else {
            p
        },
    }
}

/// Doubling and adding along the binary digits of `n`, lowest first: `acc` takes up
/// `addend` where the digit is 1, and `addend` is doubled for as long as digits are left.
/// `None` where one of these sums does not exist.
pub open spec fn double_and_add(
    n: nat,
    acc: PointModel,
    addend: PointModel,
    a: int,
    m: int,
) -> Option<PointModel>
    decreases n,
{
    if n == 0 {
        Some(acc)
    } else {
        let taken = if n % 2 == 1 {
            curve_add(acc, addend, a, m)
        } else {
            Some(acc)
        };
        if n / 2 == 0 {
            taken
        } else {
            match (taken, curve_add(addend, addend, a, m)) {
                (Some(next_acc), Some(doubled)) => double_and_add(n / 2, next_acc, doubled, a, m),
                _ => None,
            }
        }
    }
}

/// The `n`-fold multiple of `p`, as doubling and adding computes it.
pub open spec fn curve_mul(n: nat, p: PointModel, a: int, m: int) -> Option<PointModel> {
    double_and_add(n, PointModel::Infinity, p, a, m)
}

/// The slope for `elliptic_add`, from coordinates that it has told apart already.
fn slope_of(x1: i64, y1: i64, x2: i64, y2: i64, a: i64, m: i64) -> (res: Result<
    i64,
    CurveError,
>)
    requires
        m > 0,
    ensures
        match res {
            Ok(lambda) => slope(x1 as int, y1 as int, x2 as int, y2 as int, a as int, m as int)
                == Some(lambda as int) && 0 <= lambda < m,
            Err(e) => e == CurveError::NonInvertibleElement && slope(
                x1 as int,
                y1 as int,
                x2 as int,
                y2 as int,
                a as int,
                m as int,
            ) is None,
        },
{
    let num: i64;
    let den: i64;
    let ghost num_exact: int;
    let ghost den_exact: int;
    if x1 == x2 {
        let square: i64 = mul_mod(x1, x1, m);
        num = reduce(3 * (square as i128) + (a as i128), m);
        den = reduce(2 * (y1 as i128), m);
        proof {
            num_exact = 3 * x1 * x1 + a;
            den_exact = 2 * y1;
            lemma_fundamental_div_mod_converse(square as int, m as int, 0, square as int);
            let k = lemma_same_mod_difference(x1 * x1, square as int, m as int);
            assert(3 * x1 * x1 + a == (3 * square + a) + (3 * k) * m) by (nonlinear_arith)
                requires
                    x1 * x1 == square + k * m,
            ;
            lemma_mod_shift(num_exact, 3 * square + a, 3 * k, m as int);
        }
    } else {
        num = reduce((y2 as i128) - (y1 as i128), m);
        den = reduce((x2 as i128) - (x1 as i128), m);
        proof {
            num_exact = y2 - y1;
            den_exact = x2 - x1;
        }
    }
    proof {
        lemma_fundamental_div_mod_converse(den as int, m as int, 0, den as int);
        lemma_inverse_mod_congruent(den as int, den_exact, m as int);
    }
    match mod_inv(den, m) {
        Ok(inv) => {
            proof {
                lemma_fundamental_div_mod_converse(num as int, m as int, 0, num as int);
                lemma_mul_mod_noop_general(num as int, inv as int, m as int);
                lemma_mul_mod_noop_general(num_exact, inv as int, m as int);
            }
            Ok(mul_mod(num, inv, m))
        },
        Err(e) => Err(e),
    }
}

/// The sum of two points of the curve with coefficient `a` modulo `m`.
///
/// It fails with `NonInvertibleElement` exactly where the slope has a denominator
/// without inverse modulo `m`.
pub fn elliptic_add(p: &Point, q: &Point, a: i64, m: i64) -> (res: Result<Point, CurveError>)
    requires
        m > 0,
    ensures
        match res {
            Ok(r) => curve_add(p@, q@, a as int, m as int) == Some(r@),
            Err(e) => e == CurveError::NonInvertibleElement && curve_add(
                p@,
                q@,
                a as int,
                m as int,
            ) is None,
        },
{
    match (*p, *q) {
        (Point::Infinity, _) => Ok(*q),
        (_, Point::Infinity) => Ok(*p),
        (Point::Affine { x: x1, y: y1 }, Point::Affine { x: x2, y: y2 }) => {
            if x1 == x2 && (y1 != y2 || y1 == 0) {
                return Ok(Point::Infinity);
            }
            match slope_of(x1, y1, x2, y2, a, m) {
                Ok(lambda) => {
                    assert(0 <= lambda * lambda <= 0x4000_0000_0000_0000_0000_0000_0000_0000)
                        by (nonlinear_arith)
                        requires
                            0 <= lambda <= 0x8000_0000_0000_0000,
                    ;
                    let x3: i64 = reduce(
                        (lambda as i128) * (lambda as i128) - (x1 as i128) - (x2 as i128),
                        m,
                    );
                    let d: i128 = (x1 as i128) - (x3 as i128);
                    assert(-0x7fff_ffff_ffff_ffff_0000_0000_0000_0000 <= lambda * d
                        <= 0x7fff_ffff_ffff_ffff_0000_0000_0000_0000) by (nonlinear_arith)
                        requires
                            0 <= lambda <= 0x7fff_ffff_ffff_ffff,
                            -0x1_0000_0000_0000_0000 <= d <= 0x1_0000_0000_0000_0000,
                    ;
                    let y3: i64 = reduce((lambda as i128) * d - (y1 as i128), m);
                    Ok(Point::Affine { x: x3, y: y3 })
                },
                Err(e) => Err(e),
            }
        },
    }
}

/// The `n`-fold multiple of `p`, by doubling and adding.
///
/// A negative `n` is refused with `UnsupportedScalar`. Otherwise the call fails with
/// `NonInvertibleElement` exactly where one of the sums on the way does not exist.
pub fn scalar_mult(n: i64, p: &Point, a: i64, m: i64) -> (res: Result<Point, CurveError>)
    requires
        m > 0,
    ensures
        n < 0 ==> res == Err::<Point, CurveError>(CurveError::UnsupportedScalar),
        n >= 0 ==> match res {
            Ok(r) => curve_mul(n as nat, p@, a as int, m as int) == Some(r@),
            Err(e) => e == CurveError::NonInvertibleElement && curve_mul(
                n as nat,
                p@,
                a as int,
                m as int,
            ) is None,
        },
{
    if n < 0 {
        return Err(CurveError::UnsupportedScalar);
    }
    let mut result: Point = Point::at_infinity();
    let mut addend: Point = *p;
    let mut k: u64 = n as u64;
    while k > 0
        invariant
            m > 0,
            n >= 0,
            double_and_add(k as nat, result@, addend@, a as int, m as int) == curve_mul(
                n as nat,
                p@,
                a as int,
                m as int,
            ),
        decreases k,
    {
        assert(k & 1 == k % 2) by (bit_vector);
        assert(k >> 1 == k / 2) by (bit_vector);
        if k & 1 == 1 {
            match elliptic_add(&result, &addend, a, m) {
                Ok(sum) => {
                    result = sum;
                },
                Err(e) => {
                    return Err(e);
                },
            }
        }
        k = k >> 1;
        if k > 0 {
            match elliptic_add(&addend, &addend, a, m) {
                Ok(doubled) => {
                    addend = doubled;
                },
                Err(e) => {
                    return Err(e);
                },
            }
        }
    }
    Ok(result)
}

} // verus!
