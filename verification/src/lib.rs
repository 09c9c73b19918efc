//! Arithmetic on the points of a short Weierstrass curve `y^2 = x^3 + a*x + b`
//! over the integers modulo `m`, with the search for generators of its group.
//!
//! - `point`: the points and the errors.
//! - `modular`: remainders, greatest common divisors and inverses modulo `m`.
//! - `group`: the sum of two points and the multiples of a point.
//! - `enumerate`: membership in a curve and the list of all its points.
//! - `generators`: the order of a point and the generators of the group.
//! - `laws`: what holds of the sum and the multiples on every curve.
//! - `lagrange`: what holds where the points form a group.
//!
//! All arithmetic is widened and reduced step by step, so that no input overflows. The
//! functions that reduce modulo `m` take a positive `m`. The curve is meant to be without
//! singular point over a prime modulus; the functions do not test that, and on other
//! curves a sum may not exist, which they report as an error.

pub mod enumerate;
pub mod generators;
pub mod group;
pub mod lagrange;
pub mod laws;
pub mod modular;
pub mod point;

pub use enumerate::{find_all_points, is_point_on_curve};
pub use generators::{find_generators, order_of, MAX_MODULUS};
pub use group::{elliptic_add, scalar_mult};
pub use modular::{mod_inv, mul_mod, reduce};
pub use point::{CurveError, Point};
