//! What follows where the points of a curve form a group under the sum: the multiple of
//! every point by the number of all points is the identity, every point has an order,
//! and that order divides the number of all points. That the sum is associative is the
//! hypothesis of these lemmas; that all sums exist is proved here for odd primes.

use vstd::arithmetic::div_mod::{
    lemma_fundamental_div_mod, lemma_fundamental_div_mod_converse, lemma_mod_bound,
};
use vstd::prelude::*;

use crate::enumerate::{
    comes_before, curve_points, in_range, lemma_curve_points_exact, on_curve, residual,
};
use crate::generators::{has_order, order_search_fails, proper_multiple, some_order_search_fails};
use crate::group::{curve_add, curve_mul, curve_neg};
use crate::laws::{
    lemma_add_commutative, lemma_mul_is_repeated_add, lemma_sum_is_listed, repeated_add,
    sum_of_multiples,
};
use crate::modular::{
    inverse_mod, is_inverse_mod, is_prime, lemma_mod_shift, lemma_prime_has_inverses,
};
use crate::point::PointModel;

verus! {

/// `p` is one of the points of the curve.
pub open spec fn listed(p: PointModel, a: int, b: int, m: int) -> bool {
    curve_points(a, b, m).contains(p)
}

/// The sum of two points, with the identity standing in where there is none.
pub open spec fn plus(p: PointModel, q: PointModel, a: int, m: int) -> PointModel {
    match curve_add(p, q, a, m) {
        Some(r) => r,
        None => PointModel::Infinity,
    }
}

/// Summing is associative on the points of the curve.
pub open spec fn sum_associative(a: int, b: int, m: int) -> bool {
    forall|p: PointModel, q: PointModel, r: PointModel|
        listed(p, a, b, m) && listed(q, a, b, m) && listed(r, a, b, m) ==> #[trigger] plus(
            plus(p, q, a, m),
            r,
            a,
            m,
        ) == plus(p, plus(q, r, a, m), a, m)
}

/// The points of the curve form a group: the sum of any two of them exists, and summing
/// is associative on them. Both are known of a curve without singular point, that is with
/// `4*a^3 + 27*b^2` no multiple of `m`, over an odd prime `m`. The lemmas of this module
/// take this as their hypothesis; `lemma_prime_curve_forms_group` proves the first part
/// for odd primes, and nothing here proves the second.
pub open spec fn forms_group(a: int, b: int, m: int) -> bool {
    &&& m > 0
    &&& forall|p: PointModel, q: PointModel|
        listed(p, a, b, m) && listed(q, a, b, m) ==> (#[trigger] curve_add(p, q, a, m)) is Some
    &&& sum_associative(a, b, m)
}

/// Over an odd prime the sum of any two points of the curve exists; so where summing is
/// associative as well, the points form a group.
pub proof fn lemma_prime_curve_forms_group(a: int, b: int, m: int)
    requires
        is_prime(m),
        m > 2,
        sum_associative(a, b, m),
    ensures
        forms_group(a, b, m),
{
    let all = curve_points(a, b, m);
    lemma_curve_points_exact(a, b, m);
    assert forall|p: PointModel, q: PointModel|
        listed(p, a, b, m) && listed(q, a, b, m) implies (#[trigger] curve_add(p, q, a, m))
        is Some by {
        let i = choose|i: int| 0 <= i < all.len() && all[i] == p;
        let j = choose|j: int| 0 <= j < all.len() && all[j] == q;
        assert(all[i] == p && all[j] == q);
        if let (PointModel::Affine { x: x1, y: y1 }, PointModel::Affine { x: x2, y: y2 }) = (p, q) {
            if !(x1 == x2 && (y1 != y2 || y1 == 0)) {
                // the denominator of the slope lies strictly between -m and 2 * m, and is
                // neither 0 nor m
                let den = if x1 == x2 {
                    2 * y1
                } else {
                    x2 - x1
                };
                if den % m == 0 {
                    lemma_fundamental_div_mod(den, m);
                    let w = den / m;
                    assert(w == 1) by (nonlinear_arith)
                        requires
                            den == m * w,
                            -m < den < 2 * m,
                            den != 0,
                            m > 0,
                    ;
                    assert(den == m) by (nonlinear_arith)
                        requires
                            den == m * w,
                            w == 1,
                    ;
                    // so m is even
                    assert(m == 2 * y1);
                    assert(1 < 2 < m);
                    lemma_fundamental_div_mod_converse(m, 2, y1, 0);
                    assert(m % 2 != 0);
                }
                lemma_prime_has_inverses(den, m);
            }
        }
    }
}

/// In a group the sum of two points of the curve is a point of the curve.
proof fn lemma_plus_listed(p: PointModel, q: PointModel, a: int, b: int, m: int)
    requires
        forms_group(a, b, m),
        listed(p, a, b, m),
        listed(q, a, b, m),
    ensures
        listed(plus(p, q, a, m), a, b, m),
        curve_add(p, q, a, m) == Some(plus(p, q, a, m)),
        plus(p, q, a, m) == plus(q, p, a, m),
{
    assert(curve_add(p, q, a, m) is Some);
    lemma_sum_is_listed(p, q, a, b, m);
    lemma_add_commutative(p, q, a, m);
}

/// The identity is a point of every curve.
proof fn lemma_identity_listed(a: int, b: int, m: int)
    ensures
        listed(PointModel::Infinity, a, b, m),
{
    lemma_curve_points_exact(a, b, m);
    let all = curve_points(a, b, m);
    assert(all[all.len() - 1] == PointModel::Infinity);
}

/// In a group the negation of a point of the curve is a point of the curve, and the two
/// sum to the identity.
proof fn lemma_negation_listed(t: PointModel, a: int, b: int, m: int)
    requires
        forms_group(a, b, m),
        listed(t, a, b, m),
    ensures
        listed(curve_neg(t, m), a, b, m),
        plus(t, curve_neg(t, m), a, m) == PointModel::Infinity,
{
    lemma_curve_points_exact(a, b, m);
    let all = curve_points(a, b, m);
    let i = choose|i: int| 0 <= i < all.len() && all[i] == t;
    assert(all[i] == t);
    if let PointModel::Affine { x, y } = t {
        if y != 0 {
            if 2 * y == m {
                // such a point has no double, which a group does not allow
                assert(curve_add(t, t, a, m) is Some);
                let den = 2 * y;
                assert(inverse_mod(den, m) is Some);
                let inv = choose|inv: int| is_inverse_mod(inv, den, m);
                assert(is_inverse_mod(inv, m, m));
                lemma_mod_shift(m * inv, 0, inv, m);
                lemma_fundamental_div_mod_converse(0, m, 0, 0);
                lemma_fundamental_div_mod_converse(1, m, 0, 1);
                assert(false);
            }
            let mirror = m - y;
            assert(mirror * mirror == y * y + (m - 2 * y) * m) by (nonlinear_arith)
                requires
                    mirror == m - y,
            ;
            lemma_mod_shift(residual(x, mirror, a, b), residual(x, y, a, b), m - 2 * y, m);
            assert(on_curve(x, mirror, a, b, m));
        }
    }
}

/// In a group a common summand can be cancelled.
proof fn lemma_cancel(t: PointModel, x: PointModel, y: PointModel, a: int, b: int, m: int)
    requires
        forms_group(a, b, m),
        listed(t, a, b, m),
        listed(x, a, b, m),
        listed(y, a, b, m),
        plus(t, x, a, m) == plus(t, y, a, m),
    ensures
        x == y,
{
    let back = curve_neg(t, m);
    lemma_negation_listed(t, a, b, m);
    lemma_plus_listed(t, back, a, b, m);
    // back + (t + x) is x, and back + (t + y) is y
    assert(plus(plus(back, t, a, m), x, a, m) == plus(back, plus(t, x, a, m), a, m));
    assert(plus(plus(back, t, a, m), y, a, m) == plus(back, plus(t, y, a, m), a, m));
}

/// In a group the last two of three summands can change places.
proof fn lemma_swap_last(x: PointModel, y: PointModel, z: PointModel, a: int, b: int, m: int)
    requires
        forms_group(a, b, m),
        listed(x, a, b, m),
        listed(y, a, b, m),
        listed(z, a, b, m),
    ensures
        plus(plus(x, y, a, m), z, a, m) == plus(plus(x, z, a, m), y, a, m),
{
    assert(plus(plus(x, y, a, m), z, a, m) == plus(x, plus(y, z, a, m), a, m));
    assert(plus(plus(x, z, a, m), y, a, m) == plus(x, plus(z, y, a, m), a, m));
    lemma_add_commutative(y, z, a, m);
}

/// In a group the inner two of four summands can change places.
proof fn lemma_swap_inner(
    w: PointModel,
    x: PointModel,
    y: PointModel,
    z: PointModel,
    a: int,
    b: int,
    m: int,
)
    requires
        forms_group(a, b, m),
        listed(w, a, b, m),
        listed(x, a, b, m),
        listed(y, a, b, m),
        listed(z, a, b, m),
    ensures
        plus(plus(w, x, a, m), plus(y, z, a, m), a, m) == plus(
            plus(w, y, a, m),
            plus(x, z, a, m),
            a,
            m,
        ),
{
    lemma_plus_listed(w, x, a, b, m);
    lemma_plus_listed(w, y, a, b, m);
    lemma_plus_listed(y, z, a, b, m);
    lemma_plus_listed(x, z, a, b, m);
    // (w + x) + (y + z) = ((w + x) + y) + z = ((w + y) + x) + z = (w + y) + (x + z)
    assert(plus(plus(plus(w, x, a, m), y, a, m), z, a, m) == plus(
        plus(w, x, a, m),
        plus(y, z, a, m),
        a,
        m,
    ));
    lemma_swap_last(w, x, y, a, b, m);
    assert(plus(plus(plus(w, y, a, m), x, a, m), z, a, m) == plus(
        plus(w, y, a, m),
        plus(x, z, a, m),
        a,
        m,
    ));
}

/// All members of a sequence are points of the curve.
pub open spec fn all_listed(s: Seq<PointModel>, a: int, b: int, m: int) -> bool {
    forall|i: int| 0 <= i < s.len() ==> listed(#[trigger] s[i], a, b, m)
}

/// The sum of all members of a sequence, taken up from the first to the last.
pub open spec fn sum_all(s: Seq<PointModel>, a: int, m: int) -> PointModel
    decreases s.len(),
{
    if s.len() == 0 {
        PointModel::Infinity
    } else {
        plus(sum_all(s.drop_last(), a, m), s.last(), a, m)
    }
}

/// In a group the sum of points of the curve is a point of the curve.
proof fn lemma_sum_all_listed(s: Seq<PointModel>, a: int, b: int, m: int)
    requires
        forms_group(a, b, m),
        all_listed(s, a, b, m),
    ensures
        listed(sum_all(s, a, m), a, b, m),
    decreases s.len(),
{
    if s.len() == 0 {
        lemma_identity_listed(a, b, m);
    } else {
        lemma_sum_all_listed(s.drop_last(), a, b, m);
        lemma_plus_listed(sum_all(s.drop_last(), a, m), s.last(), a, b, m);
    }
}

/// In a group any member of a sequence may be summed last.
proof fn lemma_sum_all_pull_out(s: Seq<PointModel>, i: int, a: int, b: int, m: int)
    requires
        forms_group(a, b, m),
        all_listed(s, a, b, m),
        0 <= i < s.len(),
    ensures
        sum_all(s, a, m) == plus(sum_all(s.remove(i), a, m), s[i], a, m),
        all_listed(s.remove(i), a, b, m),
    decreases s.len(),
{
    let rest = s.remove(i);
    assert forall|j: int| 0 <= j < rest.len() implies listed(#[trigger] rest[j], a, b, m) by {
        if j < i {
            assert(rest[j] == s[j]);
        } else {
            assert(rest[j] == s[j + 1]);
        }
    }
    if i == s.len() - 1 {
        assert(rest =~= s.drop_last());
    } else {
        let front = s.drop_last();
        lemma_sum_all_pull_out(front, i, a, b, m);
        assert(front[i] == s[i]);
        assert(rest.drop_last() =~= front.remove(i));
        assert(rest.last() == s.last());
        lemma_sum_all_listed(front.remove(i), a, b, m);
        lemma_swap_last(sum_all(front.remove(i), a, m), s[i], s.last(), a, b, m);
    }
}

/// In a group the sum of all members does not depend on their order: two sequences
/// without repetition that have the same members have the same sum.
proof fn lemma_sum_all_rearranged(
    s: Seq<PointModel>,
    t: Seq<PointModel>,
    a: int,
    b: int,
    m: int,
)
    requires
        forms_group(a, b, m),
        all_listed(s, a, b, m),
        all_listed(t, a, b, m),
        s.no_duplicates(),
        t.no_duplicates(),
        forall|x: PointModel| s.contains(x) <==> t.contains(x),
    ensures
        sum_all(s, a, m) == sum_all(t, a, m),
    decreases s.len(),
{
    if s.len() == 0 {
        if t.len() > 0 {
            assert(t.contains(t[0]));
            assert(s.contains(t[0]));
        }
    } else {
        let x = s.last();
        let front = s.drop_last();
        assert(s.contains(x));
        assert(t.contains(x));
        let i = choose|i: int| 0 <= i < t.len() && t[i] == x;
        let rest = t.remove(i);
        lemma_sum_all_pull_out(t, i, a, b, m);
        assert(front.no_duplicates());
        assert(rest.no_duplicates()) by {
            assert forall|j: int, k: int|
                0 <= j < rest.len() && 0 <= k < rest.len() && j != k implies rest[j] != rest[k] by {
                let j0 = if j < i {
                    j
                } else {
                    j + 1
                };
                let k0 = if k < i {
                    k
                } else {
                    k + 1
                };
                assert(rest[j] == t[j0] && rest[k] == t[k0]);
            }
        }
        assert forall|y: PointModel| front.contains(y) <==> rest.contains(y) by {
            if front.contains(y) {
                let j = choose|j: int| 0 <= j < front.len() && front[j] == y;
                assert(s[j] == y);
                assert(y != x);
                assert(s.contains(y));
                assert(t.contains(y));
                let k = choose|k: int| 0 <= k < t.len() && t[k] == y;
                let k1 = if k < i {
                    k
                } else {
                    k - 1
                };
                assert(rest[k1] == y);
            }
            if rest.contains(y) {
                let k = choose|k: int| 0 <= k < rest.len() && rest[k] == y;
                let k0 = if k < i {
                    k
                } else {
                    k + 1
                };
                assert(t[k0] == y);
                assert(t.contains(y));
                assert(s.contains(y));
                let j = choose|j: int| 0 <= j < s.len() && s[j] == y;
                assert(y != x);
                assert(front[j] == y);
            }
        }
        assert(all_listed(front, a, b, m)) by {
            assert forall|j: int| 0 <= j < front.len() implies listed(
                #[trigger] front[j],
                a,
                b,
                m,
            ) by {
                assert(front[j] == s[j]);
            }
        }
        lemma_sum_all_rearranged(front, rest, a, b, m);
    }
}

/// The `n`-fold sum of `t` with itself, with the identity standing in where a sum on the
/// way does not exist.
pub open spec fn multiple(t: PointModel, n: nat, a: int, m: int) -> PointModel
    decreases n,
{
    if n == 0 {
        PointModel::Infinity
    } else {
        plus(multiple(t, (n - 1) as nat, a, m), t, a, m)
    }
}

/// In a group the multiples of a point of the curve are points of the curve.
proof fn lemma_multiple_listed(t: PointModel, n: nat, a: int, b: int, m: int)
    requires
        forms_group(a, b, m),
        listed(t, a, b, m),
    ensures
        listed(multiple(t, n, a, m), a, b, m),
    decreases n,
{
    if n == 0 {
        lemma_identity_listed(a, b, m);
    } else {
        lemma_multiple_listed(t, (n - 1) as nat, a, b, m);
        lemma_plus_listed(multiple(t, (n - 1) as nat, a, m), t, a, b, m);
    }
}

/// The sequence with `t` added to each member.
pub open spec fn shifted(s: Seq<PointModel>, t: PointModel, a: int, m: int) -> Seq<PointModel> {
    Seq::new(s.len(), |i: int| plus(t, s[i], a, m))
}

/// In a group, adding `t` to each of `n` members adds the `n`-fold multiple of `t` to
/// their sum.
proof fn lemma_sum_all_shifted(s: Seq<PointModel>, t: PointModel, a: int, b: int, m: int)
    requires
        forms_group(a, b, m),
        all_listed(s, a, b, m),
        listed(t, a, b, m),
    ensures
        all_listed(shifted(s, t, a, m), a, b, m),
        sum_all(shifted(s, t, a, m), a, m) == plus(
            multiple(t, s.len(), a, m),
            sum_all(s, a, m),
            a,
            m,
        ),
    decreases s.len(),
{
    let moved = shifted(s, t, a, m);
    assert forall|i: int| 0 <= i < moved.len() implies listed(#[trigger] moved[i], a, b, m) by {
        lemma_plus_listed(t, s[i], a, b, m);
    }
    if s.len() == 0 {
    } else {
        let front = s.drop_last();
        let n = (s.len() - 1) as nat;
        lemma_sum_all_shifted(front, t, a, b, m);
        assert(moved.drop_last() =~= shifted(front, t, a, m));
        assert(moved.last() == plus(t, s.last(), a, m));
        lemma_multiple_listed(t, n, a, b, m);
        lemma_sum_all_listed(front, a, b, m);
        lemma_swap_inner(multiple(t, n, a, m), sum_all(front, a, m), t, s.last(), a, b, m);
    }
}

/// No point occurs twice among the points of a curve.
pub proof fn lemma_points_distinct(a: int, b: int, m: int)
    ensures
        curve_points(a, b, m).no_duplicates(),
{
    let all = curve_points(a, b, m);
    lemma_curve_points_exact(a, b, m);
    assert forall|i: int, j: int| 0 <= i < all.len() && 0 <= j < all.len() && i != j implies all[i]
        != all[j] by {
        let last = all.len() - 1;
        if i < j {
            if j < last {
                assert(comes_before(all[i], all[j]));
            } else {
                assert(in_range(all[i], m));
            }
        } else {
            if i < last {
                assert(comes_before(all[j], all[i]));
            } else {
                assert(in_range(all[j], m));
            }
        }
    }
}

/// In a group, adding a point of the curve to each point of the curve gives the points
/// of the curve again, each once, in another order.
proof fn lemma_shift_permutes(t: PointModel, a: int, b: int, m: int)
    requires
        forms_group(a, b, m),
        listed(t, a, b, m),
    ensures
        shifted(curve_points(a, b, m), t, a, m).no_duplicates(),
        forall|x: PointModel|
            shifted(curve_points(a, b, m), t, a, m).contains(x) <==> curve_points(a, b, m).contains(
                x,
            ),
{
    let all = curve_points(a, b, m);
    let moved = shifted(all, t, a, m);
    lemma_points_distinct(a, b, m);
    assert forall|i: int, j: int|
        0 <= i < moved.len() && 0 <= j < moved.len() && i != j implies moved[i] != moved[j] by {
        assert(listed(all[i], a, b, m) && listed(all[j], a, b, m));
        if moved[i] == moved[j] {
            lemma_cancel(t, all[i], all[j], a, b, m);
        }
    }
    assert forall|x: PointModel| moved.contains(x) <==> all.contains(x) by {
        if moved.contains(x) {
            let i = choose|i: int| 0 <= i < moved.len() && moved[i] == x;
            assert(listed(all[i], a, b, m));
            lemma_plus_listed(t, all[i], a, b, m);
        }
        if all.contains(x) {
            // x is t added to x - t
            let back = curve_neg(t, m);
            lemma_negation_listed(t, a, b, m);
            lemma_plus_listed(back, x, a, b, m);
            let source = plus(back, x, a, m);
            assert(plus(plus(t, back, a, m), x, a, m) == plus(t, plus(back, x, a, m), a, m));
            let i = choose|i: int| 0 <= i < all.len() && all[i] == source;
            assert(moved[i] == x);
        }
    }
}

/// In a group the multiple of every point by the number of all points is the identity.
pub proof fn lemma_multiple_by_count(t: PointModel, a: int, b: int, m: int)
    requires
        forms_group(a, b, m),
        listed(t, a, b, m),
    ensures
        multiple(t, curve_points(a, b, m).len(), a, m) == PointModel::Infinity,
{
    let all = curve_points(a, b, m);
    let moved = shifted(all, t, a, m);
    let total = sum_all(all, a, m);
    let whole = multiple(t, all.len(), a, m);
    assert(all_listed(all, a, b, m));
    lemma_points_distinct(a, b, m);
    lemma_shift_permutes(t, a, b, m);
    lemma_sum_all_shifted(all, t, a, b, m);
    lemma_sum_all_rearranged(moved, all, a, b, m);
    // whole + total = total = identity + total
    lemma_sum_all_listed(all, a, b, m);
    lemma_multiple_listed(t, all.len(), a, b, m);
    lemma_identity_listed(a, b, m);
    lemma_plus_listed(whole, total, a, b, m);
    lemma_plus_listed(PointModel::Infinity, total, a, b, m);
    lemma_cancel(total, whole, PointModel::Infinity, a, b, m);
}

/// In a group the multiple by a sum of two factors is the sum of the two multiples.
proof fn lemma_multiple_of_sum(p: PointModel, j: nat, k: nat, a: int, b: int, m: int)
    requires
        forms_group(a, b, m),
        listed(p, a, b, m),
    ensures
        multiple(p, j + k, a, m) == plus(multiple(p, j, a, m), multiple(p, k, a, m), a, m),
    decreases k,
{
    lemma_multiple_listed(p, j, a, b, m);
    if k == 0 {
    } else {
        let before = (k - 1) as nat;
        lemma_multiple_of_sum(p, j, before, a, b, m);
        lemma_multiple_listed(p, before, a, b, m);
        assert(multiple(p, j + k, a, m) == plus(multiple(p, (j + before) as nat, a, m), p, a, m));
        assert(plus(plus(multiple(p, j, a, m), multiple(p, before, a, m), a, m), p, a, m) == plus(
            multiple(p, j, a, m),
            plus(multiple(p, before, a, m), p, a, m),
            a,
            m,
        ));
    }
}

/// In a group every multiple of a point of the curve exists, built up one summand at a
/// time.
proof fn lemma_repeated_add_is_multiple(p: PointModel, n: nat, a: int, b: int, m: int)
    requires
        forms_group(a, b, m),
        listed(p, a, b, m),
    ensures
        repeated_add(n, p, a, m) == Some(multiple(p, n, a, m)),
    decreases n,
{
    if n > 0 {
        lemma_repeated_add_is_multiple(p, (n - 1) as nat, a, b, m);
        lemma_multiple_listed(p, (n - 1) as nat, a, b, m);
        lemma_plus_listed(multiple(p, (n - 1) as nat, a, m), p, a, b, m);
    }
}

/// In a group doubling and adding computes the multiples of the points of the curve.
pub proof fn lemma_mul_is_multiple(n: nat, p: PointModel, a: int, b: int, m: int)
    requires
        forms_group(a, b, m),
        listed(p, a, b, m),
    ensures
        curve_mul(n, p, a, m) == Some(multiple(p, n, a, m)),
{
    assert forall|j: nat, k: nat| j + k <= n implies repeated_add(j + k, p, a, m) is Some
        && #[trigger] sum_of_multiples(j, k, p, a, m) == repeated_add(j + k, p, a, m) by {
        lemma_repeated_add_is_multiple(p, j, a, b, m);
        lemma_repeated_add_is_multiple(p, k, a, b, m);
        lemma_repeated_add_is_multiple(p, j + k, a, b, m);
        lemma_multiple_of_sum(p, j, k, a, b, m);
        lemma_multiple_listed(p, j, a, b, m);
        lemma_multiple_listed(p, k, a, b, m);
        lemma_plus_listed(multiple(p, j, a, m), multiple(p, k, a, m), a, b, m);
    }
    lemma_mul_is_repeated_add(n, p, a, m);
    lemma_repeated_add_is_multiple(p, n, a, b, m);
}

/// In a group, if the `k`-fold multiple of a point is the identity, so is every multiple
/// of it by a multiple of `k`.
proof fn lemma_multiple_by_multiple(p: PointModel, k: nat, q: nat, a: int, b: int, m: int)
    requires
        forms_group(a, b, m),
        listed(p, a, b, m),
        multiple(p, k, a, m) == PointModel::Infinity,
    ensures
        multiple(p, q * k, a, m) == PointModel::Infinity,
    decreases q,
{
    if q == 0 {
        assert(q * k == 0) by (nonlinear_arith)
            requires
                q == 0,
        ;
    } else {
        let before = (q - 1) as nat;
        lemma_multiple_by_multiple(p, k, before, a, b, m);
        assert(q * k == before * k + k) by (nonlinear_arith)
            requires
                before == q - 1,
        ;
        lemma_multiple_of_sum(p, before * k, k, a, b, m);
    }
}

/// In a group the order of every point of the curve divides the number of all points.
pub proof fn lemma_order_divides_count(k: int, p: PointModel, a: int, b: int, m: int)
    requires
        forms_group(a, b, m),
        listed(p, a, b, m),
        has_order(k, p, a, m),
    ensures
        (curve_points(a, b, m).len() as int) % k == 0,
{
    let count = curve_points(a, b, m).len();
    let q = count as int / k;
    let r = count as int % k;
    lemma_fundamental_div_mod(count as int, k);
    lemma_mod_bound(count as int, k);
    assert(q >= 0) by (nonlinear_arith)
        requires
            count == k * q + r,
            0 <= r < k,
            count >= 0,
    ;
    assert(count == q * k + r) by (nonlinear_arith)
        requires
            count == k * q + r,
    ;
    lemma_mul_is_multiple(k as nat, p, a, b, m);
    lemma_multiple_by_multiple(p, k as nat, q as nat, a, b, m);
    lemma_multiple_of_sum(p, (q * k) as nat, r as nat, a, b, m);
    lemma_multiple_by_count(p, a, b, m);
    // the r-fold multiple is the identity, and r is less than the order
    lemma_mul_is_multiple(r as nat, p, a, b, m);
    if r >= 1 {
        assert(proper_multiple(r, p, a, m));
    }
}

/// In a group every point of the curve has an order, which is at most the number of all
/// points.
pub proof fn lemma_order_exists(p: PointModel, a: int, b: int, m: int) -> (k: int)
    requires
        forms_group(a, b, m),
        listed(p, a, b, m),
    ensures
        has_order(k, p, a, m),
        1 <= k <= curve_points(a, b, m).len(),
{
    lemma_find_order(p, 1, a, b, m)
}

/// The search for the order of a point of a group, from the factor `from` on.
proof fn lemma_find_order(p: PointModel, from: int, a: int, b: int, m: int) -> (k: int)
    requires
        forms_group(a, b, m),
        listed(p, a, b, m),
        1 <= from <= curve_points(a, b, m).len(),
        forall|j: int| 1 <= j < from ==> #[trigger] proper_multiple(j, p, a, m),
    ensures
        has_order(k, p, a, m),
        from <= k <= curve_points(a, b, m).len(),
    decreases curve_points(a, b, m).len() - from,
{
    lemma_mul_is_multiple(from as nat, p, a, b, m);
    if multiple(p, from as nat, a, m) == PointModel::Infinity {
        from
    } else {
        lemma_multiple_by_count(p, a, b, m);
        assert(proper_multiple(from, p, a, m));
        lemma_find_order(p, from + 1, a, b, m)
    }
}

/// In a group the search for the order of a point of the curve never fails.
pub proof fn lemma_group_search_succeeds(a: int, b: int, m: int)
    requires
        forms_group(a, b, m),
    ensures
        !some_order_search_fails(a, b, m),
{
    let all = curve_points(a, b, m);
    assert forall|i: int| 0 <= i < all.len() implies !#[trigger] order_search_fails(
        all.len() as int,
        all[i],
        a,
        m,
    ) by {
        if order_search_fails(all.len() as int, all[i], a, m) {
            let j = choose|j: int|
                {
                    &&& 1 <= j <= all.len()
                    &&& #[trigger] curve_mul(j as nat, all[i], a, m) is None
                    &&& forall|k: int| 1 <= k < j ==> #[trigger] proper_multiple(k, all[i], a, m)
                };
            lemma_mul_is_multiple(j as nat, all[i], a, b, m);
        }
    }
}

} // verus!
