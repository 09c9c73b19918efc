//! Arithmetic modulo `m`: remainders in `[0, m)`, greatest common divisors and
//! multiplicative inverses.

use vstd::arithmetic::div_mod::{
    lemma_fundamental_div_mod, lemma_fundamental_div_mod_converse, lemma_mod_multiples_vanish,
    lemma_mod_bound, lemma_mul_mod_noop_general,
};
use vstd::math::abs;
use vstd::prelude::*;

use crate::point::CurveError;

verus! {

/// The greatest common divisor, by Euclid's recursion.
pub open spec fn gcd(a: nat, b: nat) -> nat
    decreases b,
{
    if b == 0 {
        a
    } else {
        gcd(b, a % b)
    }
}

/// `t` is the inverse of `a` modulo `m`: it lies in `[0, m)` and `a * t` is congruent to 1.
pub open spec fn is_inverse_mod(t: int, a: int, m: int) -> bool {
    0 <= t < m && (a * t) % m == 1int % m
}

/// The inverse of `a` modulo `m`, where there is one.
pub open spec fn inverse_mod(a: int, m: int) -> Option<int> {
    if exists|t: int| is_inverse_mod(t, a, m) {
        Some(choose|t: int| is_inverse_mod(t, a, m))
    } else {
        None
    }
}

/// A number that differs from `y` by a multiple of `m` has the remainder of `y`.
pub proof fn lemma_mod_shift(x: int, y: int, k: int, m: int)
    requires
        m > 0,
        x == y + k * m,
    ensures
        x % m == y % m,
{
    lemma_mod_multiples_vanish(k, y, m);
    assert(m * k + y == x) by (nonlinear_arith)
        requires
            x == y + k * m,
    ;
}

/// Two numbers with one remainder differ by a multiple of `m`.
pub proof fn lemma_same_mod_difference(x: int, y: int, m: int) -> (k: int)
    requires
        m > 0,
        x % m == y % m,
    ensures
        x == y + k * m,
{
    lemma_fundamental_div_mod(x, m);
    lemma_fundamental_div_mod(y, m);
    let k = x / m - y / m;
    assert(x == y + k * m) by (nonlinear_arith)
        requires
            x == m * (x / m) + x % m,
            y == m * (y / m) + y % m,
            x % m == y % m,
            k == x / m - y / m,
    ;
    k
}

/// A remainder differs from its number by a multiple of `m`, and lies in `[0, m)`.
pub proof fn lemma_remainder_shift(x: int, m: int) -> (k: int)
    requires
        m > 0,
    ensures
        x % m == x + k * m,
        0 <= x % m < m,
{
    lemma_fundamental_div_mod(x, m);
    lemma_mod_bound(x, m);
    let k = -(x / m);
    assert(x % m == x + k * m) by (nonlinear_arith)
        requires
            x == m * (x / m) + x % m,
            k == -(x / m),
    ;
    k
}

/// The remainder of `v` modulo `m`, in `[0, m)` whatever the sign of `v`.
pub fn reduce(v: i128, m: i64) -> (r: i64)
    requires
        m > 0,
    ensures
        r == (v as int) % (m as int),
        0 <= r < m,
{
    let w: i128 = v % (m as i128);
    proof {
        let mi = m as int;
        let vi = v as int;
        if v >= 0 {
            assert(w == vi % mi);
        } else {
            // the truncating remainder of a negative number is the negated remainder of its
            // absolute value
            let u = (-vi) % mi;
            assert(w == -u);
            lemma_fundamental_div_mod(-vi, mi);
            let q = (-vi) / mi;
            if u == 0 {
                assert(vi == (-q) * mi + 0) by (nonlinear_arith)
                    requires
                        -vi == mi * q + u,
                        u == 0,
                ;
                lemma_fundamental_div_mod_converse(vi, mi, -q, 0);
            } else {
                assert(vi == (-q - 1) * mi + (mi - u)) by (nonlinear_arith)
                    requires
                        -vi == mi * q + u,
                ;
                lemma_fundamental_div_mod_converse(vi, mi, -q - 1, mi - u);
            }
        }
    }
    if w < 0 {
        (w + m as i128) as i64
    } else {
        w as i64
    }
}

/// The product of `x` and `y` modulo `m`.
pub fn mul_mod(x: i64, y: i64, m: i64) -> (r: i64)
    requires
        m > 0,
    ensures
        r == (x * y) % (m as int),
        0 <= r < m,
{
    assert(-0x4000_0000_0000_0000_0000_0000_0000_0000 <= x * y
        <= 0x4000_0000_0000_0000_0000_0000_0000_0000) by (nonlinear_arith)
        requires
            -0x8000_0000_0000_0000 <= x <= 0x8000_0000_0000_0000,
            -0x8000_0000_0000_0000 <= y <= 0x8000_0000_0000_0000,
    ;
    reduce((x as i128) * (y as i128), m)
}

/// A sum of multiples of `d` is a multiple of `d`.
pub proof fn lemma_divides_combination(d: int, x: int, y: int, j: int, k: int)
    requires
        d > 0,
        x % d == 0,
        y % d == 0,
    ensures
        (x * j + y * k) % d == 0,
{
    lemma_fundamental_div_mod(x, d);
    lemma_fundamental_div_mod(y, d);
    let w = (x / d) * j + (y / d) * k;
    assert(x * j + y * k == w * d + 0) by (nonlinear_arith)
        requires
            x == d * (x / d),
            y == d * (y / d),
            w == (x / d) * j + (y / d) * k,
    ;
    lemma_fundamental_div_mod_converse(x * j + y * k, d, w, 0);
}

/// The greatest common divisor of two numbers, not both zero, is positive and divides both.
pub proof fn lemma_gcd_divides(a: nat, b: nat)
    requires
        a > 0 || b > 0,
    ensures
        gcd(a, b) > 0,
        (a as int) % (gcd(a, b) as int) == 0,
        (b as int) % (gcd(a, b) as int) == 0,
    decreases b,
{
    if b == 0 {
        lemma_fundamental_div_mod_converse(a as int, a as int, 1, 0);
        lemma_fundamental_div_mod_converse(0, a as int, 0, 0);
    } else {
        lemma_gcd_divides(b, a % b);
        let g = gcd(b, a % b) as int;
        lemma_fundamental_div_mod(a as int, b as int);
        lemma_divides_combination(g, b as int, (a % b) as int, (a as int) / (b as int), 1);
        assert((b as int) * ((a as int) / (b as int)) + ((a % b) as int) * 1 == a as int)
            by (nonlinear_arith)
            requires
                a as int == (b as int) * ((a as int) / (b as int)) + (a as int) % (b as int),
        ;
    }
}

/// Every common divisor of two numbers divides their greatest common divisor.
pub proof fn lemma_gcd_greatest(a: nat, b: nat, d: nat)
    requires
        d > 0,
        (a as int) % (d as int) == 0,
        (b as int) % (d as int) == 0,
    ensures
        (gcd(a, b) as int) % (d as int) == 0,
    decreases b,
{
    if b != 0 {
        lemma_fundamental_div_mod(a as int, b as int);
        lemma_divides_combination(d as int, a as int, b as int, 1, -((a as int) / (b as int)));
        assert((a as int) * 1 + (b as int) * (-((a as int) / (b as int))) == (a % b) as int)
            by (nonlinear_arith)
            requires
                a as int == (b as int) * ((a as int) / (b as int)) + (a as int) % (b as int),
        ;
        lemma_gcd_greatest(b, a % b, d);
    }
}

/// The greatest common divisor does not depend on the order of its arguments.
pub proof fn lemma_gcd_symmetric(a: nat, b: nat)
    ensures
        gcd(a, b) == gcd(b, a),
{
    if a == 0 && b == 0 {
    } else {
        lemma_gcd_divides(a, b);
        lemma_gcd_divides(b, a);
        lemma_gcd_greatest(a, b, gcd(b, a));
        lemma_gcd_greatest(b, a, gcd(a, b));
        lemma_divisors_of_each_other(gcd(a, b) as int, gcd(b, a) as int);
    }
}

/// Two positive numbers that divide each other are equal.
pub proof fn lemma_divisors_of_each_other(x: int, y: int)
    requires
        x > 0,
        y > 0,
        x % y == 0,
        y % x == 0,
    ensures
        x == y,
{
    lemma_fundamental_div_mod(x, y);
    lemma_fundamental_div_mod(y, x);
    assert(x == y) by (nonlinear_arith)
        requires
            x > 0,
            y > 0,
            x == y * (x / y),
            y == x * (y / x),
    ;
}

/// A number has at most one inverse modulo `m`.
pub proof fn lemma_inverse_unique(t1: int, t2: int, a: int, m: int)
    requires
        is_inverse_mod(t1, a, m),
        is_inverse_mod(t2, a, m),
    ensures
        t1 == t2,
{
    let k1 = lemma_same_mod_difference(a * t1, 1, m);
    let k2 = lemma_same_mod_difference(a * t2, 1, m);
    let k = t1 * k2 - t2 * k1;
    assert(t2 == t1 + k * m) by (nonlinear_arith)
        requires
            a * t1 == 1 + k1 * m,
            a * t2 == 1 + k2 * m,
            k == t1 * k2 - t2 * k1,
    ;
    lemma_mod_shift(t2, t1, k, m);
    lemma_fundamental_div_mod_converse(t1, m, 0, t1);
    lemma_fundamental_div_mod_converse(t2, m, 0, t2);
}

/// What `inverse_mod` names is the inverse, and there is no other.
pub proof fn lemma_inverse_mod_is(t: int, a: int, m: int)
    requires
        is_inverse_mod(t, a, m),
    ensures
        inverse_mod(a, m) == Some(t),
{
    let c = choose|t: int| is_inverse_mod(t, a, m);
    lemma_inverse_unique(c, t, a, m);
}

/// What `inverse_mod` names, where it names anything, is an inverse.
pub proof fn lemma_inverse_mod_is_inverse(a: int, m: int)
    ensures
        inverse_mod(a, m) matches Some(t) ==> is_inverse_mod(t, a, m),
{
}

/// Whether a number has an inverse, and which, depends on its remainder alone.
pub proof fn lemma_inverse_mod_congruent(a: int, b: int, m: int)
    requires
        m > 0,
        a % m == b % m,
    ensures
        inverse_mod(a, m) == inverse_mod(b, m),
{
    assert forall|t: int| is_inverse_mod(t, a, m) == is_inverse_mod(t, b, m) by {
        lemma_mul_mod_noop_general(a, t, m);
        lemma_mul_mod_noop_general(b, t, m);
    }
    if exists|t: int| is_inverse_mod(t, a, m) {
        let c = choose|t: int| is_inverse_mod(t, a, m);
        assert(is_inverse_mod(c, b, m));
        lemma_inverse_mod_is(c, b, m);
    } else {
        assert forall|t: int| !is_inverse_mod(t, b, m) by {
            assert(!is_inverse_mod(t, a, m));
        }
    }
}

/// Only a number whose remainder is coprime to `m` has an inverse modulo `m`.
pub proof fn lemma_inverse_implies_coprime(t: int, a: int, m: int)
    requires
        is_inverse_mod(t, a, m),
    ensures
        gcd((a % m) as nat, m as nat) == 1,
{
    let a0 = a % m;
    lemma_gcd_divides(a0 as nat, m as nat);
    let g = gcd(a0 as nat, m as nat) as int;
    let k = lemma_same_mod_difference(a * t, 1, m);
    lemma_fundamental_div_mod(a, m);
    let q = a / m;
    lemma_divides_combination(g, a0, m, t, q * t - k);
    assert(a0 * t + m * (q * t - k) == 1) by (nonlinear_arith)
        requires
            a * t == 1 + k * m,
            a == m * q + a0,
    ;
    if g > 1 {
        lemma_fundamental_div_mod_converse(1, g, 0, 1);
    }
}

/// A number and its remainder modulo `m` have the same greatest common divisor with `m`.
pub proof fn lemma_gcd_of_remainder(a: int, m: int)
    requires
        m > 0,
    ensures
        gcd((a % m) as nat, m as nat) == gcd(abs(a), m as nat),
{
    let a0 = a % m;
    let size = abs(a) as int;
    let k = lemma_remainder_shift(a, m);
    let sign: int = if a < 0 {
        -1
    } else {
        1
    };
    lemma_gcd_divides(a0 as nat, m as nat);
    lemma_gcd_divides(size as nat, m as nat);
    let g0 = gcd(a0 as nat, m as nat) as int;
    let g1 = gcd(size as nat, m as nat) as int;
    // what divides the remainder and m divides the number
    lemma_divides_combination(g0, a0, m, sign, -k * sign);
    assert(a0 * sign + m * (-k * sign) == size) by (nonlinear_arith)
        requires
            a0 == a + k * m,
            size == sign * a,
            sign == 1 || sign == -1,
    ;
    lemma_gcd_greatest(size as nat, m as nat, g0 as nat);
    // what divides the number and m divides the remainder
    lemma_divides_combination(g1, size, m, sign, k);
    assert(size * sign + m * k == a0) by (nonlinear_arith)
        requires
            a0 == a + k * m,
            size == sign * a,
            sign == 1 || sign == -1,
    ;
    lemma_gcd_greatest(a0 as nat, m as nat, g1 as nat);
    lemma_divisors_of_each_other(g0, g1);
}

/// The greatest common divisor of two numbers is a combination of them with integer
/// coefficients, which this gives.
pub proof fn lemma_gcd_combination(a: nat, b: nat) -> (c: (int, int))
    ensures
        a * c.0 + b * c.1 == gcd(a, b),
    decreases b,
{
    if b == 0 {
        assert(a * 1 + b * 0 == a) by (nonlinear_arith)
            requires
                b == 0,
        ;
        (1, 0)
    } else {
        let (x, y) = lemma_gcd_combination(b, a % b);
        lemma_fundamental_div_mod(a as int, b as int);
        let q = (a as int) / (b as int);
        let r = (a % b) as int;
        assert(a * y + b * (x - q * y) == b * x + r * y) by (nonlinear_arith)
            requires
                a == b * q + r,
        ;
        (y, x - q * y)
    }
}

/// A number whose remainder is coprime to `m` has an inverse modulo `m`.
pub proof fn lemma_coprime_has_inverse(a: int, m: int)
    requires
        m > 0,
        gcd((a % m) as nat, m as nat) == 1,
    ensures
        inverse_mod(a, m) is Some,
{
    let a0 = a % m;
    let back = lemma_remainder_shift(a, m);
    let (x, y) = lemma_gcd_combination(a0 as nat, m as nat);
    let t = x % m;
    let j = lemma_remainder_shift(x, m);
    let w = a * j - back * x - y;
    assert(a * t == 1 + w * m) by (nonlinear_arith)
        requires
            a0 * x + m * y == 1,
            a0 == a + back * m,
            t == x + j * m,
            w == a * j - back * x - y,
    ;
    lemma_mod_shift(a * t, 1, w, m);
    lemma_inverse_mod_is(t, a, m);
}

/// A number has an inverse modulo `m` exactly when its remainder is coprime to `m`.
pub proof fn lemma_inverse_exists_iff_coprime(a: int, m: int)
    requires
        m > 0,
    ensures
        inverse_mod(a, m) is Some <==> gcd((a % m) as nat, m as nat) == 1,
{
    if gcd((a % m) as nat, m as nat) == 1 {
        lemma_coprime_has_inverse(a, m);
    }
    if let Some(t) = inverse_mod(a, m) {
        lemma_inverse_implies_coprime(t, a, m);
    }
}

/// `m` is a prime number.
pub open spec fn is_prime(m: int) -> bool {
    m >= 2 && forall|d: int| 1 < d < m ==> #[trigger] (m % d) != 0
}

/// Modulo a prime, every number that is not a multiple of it has an inverse.
pub proof fn lemma_prime_has_inverses(a: int, m: int)
    requires
        is_prime(m),
        a % m != 0,
    ensures
        inverse_mod(a, m) is Some,
{
    let r = a % m;
    lemma_mod_bound(a, m);
    lemma_gcd_divides(r as nat, m as nat);
    let g = gcd(r as nat, m as nat) as int;
    // a divisor of the prime m is 1 or m, and m does not divide r
    lemma_fundamental_div_mod(m, g);
    assert(g <= m) by (nonlinear_arith)
        requires
            m == g * (m / g),
            m > 0,
            g > 0,
    ;
    if g == m {
        lemma_fundamental_div_mod_converse(r, m, 0, r);
    }
    lemma_coprime_has_inverse(a, m);
}

/// The negated number has the negated inverse, and none where the number has none.
pub proof fn lemma_inverse_mod_negation(d: int, m: int)
    requires
        m > 0,
    ensures
        inverse_mod(-d, m) == match inverse_mod(d, m) {
            Some(inv) => Some((-inv) % m),
            None => None,
        },
{
    if exists|t: int| is_inverse_mod(t, d, m) {
        let inv = choose|t: int| is_inverse_mod(t, d, m);
        lemma_negated_inverse(inv, d, m);
        lemma_inverse_mod_is((-inv) % m, -d, m);
    } else {
        let e = -d;
        if exists|t: int| is_inverse_mod(t, e, m) {
            let inv = choose|t: int| is_inverse_mod(t, e, m);
            lemma_negated_inverse(inv, e, m);
            assert(-e == d);
            assert(is_inverse_mod((-inv) % m, d, m));
        }
    }
}

/// If `inv` is the inverse of `d`, the remainder of `-inv` is the inverse of `-d`.
proof fn lemma_negated_inverse(inv: int, d: int, m: int)
    requires
        m > 0,
        is_inverse_mod(inv, d, m),
    ensures
        is_inverse_mod((-inv) % m, -d, m),
{
    let t = (-inv) % m;
    let j = lemma_remainder_shift(-inv, m);
    let k = lemma_same_mod_difference(d * inv, 1, m);
    assert((-d) * t == 1 + (k - d * j) * m) by (nonlinear_arith)
        requires
            t == -inv + j * m,
            d * inv == 1 + k * m,
    ;
    lemma_mod_shift((-d) * t, 1, k - d * j, m);
}

/// One step of the extended Euclidean algorithm keeps what the loop of `mod_inv` relies on:
/// the coefficients stay within `[-m, m]`, alternate in sign, and still combine to the
/// remainders.
proof fn lemma_euclid_step(
    m: int,
    a0: int,
    t: int,
    nt: int,
    r: int,
    nr: int,
    s: int,
    ns: int,
    sgn: int,
    q: int,
)
    requires
        0 < nr < r <= m,
        q == r / nr,
        r == t * a0 + s * m,
        nr == nt * a0 + ns * m,
        sgn == 1 || sgn == -1,
        sgn * nt >= 0,
        sgn * t <= 0,
        sgn * (nt * r - t * nr) == m,
    ensures
        0 <= q <= r,
        -m <= q * nt <= m,
        -m <= t - q * nt <= m,
        0 <= q * nr <= r,
        r - q * nr == r % nr,
        r - q * nr == (t - q * nt) * a0 + (s - q * ns) * m,
        (-sgn) * (t - q * nt) >= 0,
        (-sgn) * nt <= 0,
        (-sgn) * ((t - q * nt) * nr - nt * (r - q * nr)) == m,
        -m <= 2 * nt <= m,
{
    lemma_fundamental_div_mod(r, nr);
    let r2 = r % nr;
    assert(r == q * nr + r2 && 0 <= r2 < nr && 0 <= q <= r) by (nonlinear_arith)
        requires
            r == nr * q + r2,
            0 <= r2 < nr,
            0 < nr < r,
    ;
    let u = sgn * nt;
    let v = -(sgn * t);
    assert(u * r + v * nr == m && nt == sgn * u && t == -(sgn * v)) by (nonlinear_arith)
        requires
            sgn == 1 || sgn == -1,
            u == sgn * nt,
            v == -(sgn * t),
            sgn * (nt * r - t * nr) == m,
    ;
    assert(0 <= q * u <= m && 0 <= 2 * u <= m && 0 <= v + q * u && (v + q * u) * nr + u * r2
        == m && v + q * u <= m) by (nonlinear_arith)
        requires
            u >= 0,
            v >= 0,
            u * r + v * nr == m,
            r == q * nr + r2,
            0 <= r2 < nr,
            0 < nr < r,
            0 <= q <= r,
    ;
    assert(q * nt == sgn * (q * u) && t - q * nt == -sgn * (v + q * u)) by (nonlinear_arith)
        requires
            nt == sgn * u,
            t == -(sgn * v),
    ;
    assert((-sgn) * (t - q * nt) == v + q * u && (-sgn) * nt == -u && (-sgn) * ((t - q * nt) * nr
        - nt * (r - q * nr)) == (v + q * u) * nr + u * r2) by (nonlinear_arith)
        requires
            sgn == 1 || sgn == -1,
            nt == sgn * u,
            t - q * nt == -sgn * (v + q * u),
            r == q * nr + r2,
    ;
    assert(r - q * nr == (t - q * nt) * a0 + (s - q * ns) * m) by (nonlinear_arith)
        requires
            r == t * a0 + s * m,
            nr == nt * a0 + ns * m,
    ;
}

/// The inverse of `a` modulo `m`, by the extended Euclidean algorithm.
///
/// There is one exactly when `a` is coprime to `m`; it is then the only `t` in `[0, m)`
/// with `a * t` congruent to 1. Otherwise the call fails with `NonInvertibleElement`.
pub fn mod_inv(a: i64, m: i64) -> (res: Result<i64, CurveError>)
    requires
        m > 0,
    ensures
        res is Ok <==> gcd(abs(a as int), m as nat) == 1,
        match res {
            Ok(t) => is_inverse_mod(t as int, a as int, m as int) && inverse_mod(
                a as int,
                m as int,
            ) == Some(t as int),
            Err(e) => e == CurveError::NonInvertibleElement && inverse_mod(a as int, m as int)
                is None,
        },
{
    let a0: i64 = reduce(a as i128, m);
    let mut t: i64 = 0;
    let mut new_t: i64 = 1;
    let mut r: i64 = m;
    let mut new_r: i64 = a0;
    let ghost mut s: int = 1;
    let ghost mut ns: int = 0;
    let ghost mut sgn: int = 1;
    proof {
        assert(r == t * a0 + s * m && new_r == new_t * a0 + ns * m && sgn * (new_t * r - t
            * new_r) == m) by (nonlinear_arith)
            requires
                t == 0,
                new_t == 1,
                r == m,
                new_r == a0,
                s == 1,
                ns == 0,
                sgn == 1,
        ;
    }
    while new_r != 0
        invariant
            m > 0,
            0 <= a0 < m,
            0 <= new_r < r <= m,
            gcd(r as nat, new_r as nat) == gcd(m as nat, a0 as nat),
            r == t * a0 + s * m,
            new_r == new_t * a0 + ns * m,
            sgn == 1 || sgn == -1,
            sgn * new_t >= 0,
            sgn * t <= 0,
            sgn * (new_t * r - t * new_r) == m,
            -m <= 2 * t <= m,
        decreases new_r,
    {
        let quotient: i64 = r / new_r;
        proof {
            lemma_euclid_step(
                m as int,
                a0 as int,
                t as int,
                new_t as int,
                r as int,
                new_r as int,
                s,
                ns,
                sgn,
                quotient as int,
            );
        }
        let next_t: i64 = t - quotient * new_t;
        t = new_t;
        new_t = next_t;
        let next_r: i64 = r - quotient * new_r;
        r = new_r;
        new_r = next_r;
        proof {
            let next_s = s - quotient * ns;
            s = ns;
            ns = next_s;
            sgn = -sgn;
        }
    }
    proof {
        // the remainder of `a` is coprime to `m` exactly when the last remainder is 1
        assert(gcd(r as nat, 0) == r);
        lemma_gcd_symmetric(m as nat, a0 as nat);
        lemma_gcd_of_remainder(a as int, m as int);
    }
    if r != 1 {
        proof {
            if exists|u: int| is_inverse_mod(u, a as int, m as int) {
                let u = choose|u: int| is_inverse_mod(u, a as int, m as int);
                lemma_inverse_implies_coprime(u, a as int, m as int);
            }
        }
        return Err(CurveError::NonInvertibleElement);
    }
    let inv: i64 = if t < 0 {
        t + m
    } else {
        t
    };
    proof {
        lemma_fundamental_div_mod_converse(a0 as int, m as int, 0, a0 as int);
        let k = lemma_same_mod_difference(a as int, a0 as int, m as int);
        let shift: int = if t < 0 {
            1
        } else {
            0
        };
        let w = -s + shift * a0 + inv * k;
        assert(a * inv == 1 + w * m) by (nonlinear_arith)
            requires
                1 == t * a0 + s * m,
                a == a0 + k * m,
                inv == t + shift * m,
                w == -s + shift * a0 + inv * k,
        ;
        lemma_mod_shift(a * inv, 1, w, m as int);
        lemma_inverse_mod_is(inv as int, a as int, m as int);
    }
    Ok(inv)
}

} // verus!
