//! Points of a curve and the errors of the arithmetic on them.

use vstd::prelude::*;

verus! {

/// What can go wrong in the arithmetic of a curve.
#[derive(Clone, Copy, Debug, PartialEq, Eq, Hash, Structural)]
pub enum CurveError {
    /// A slope needed the inverse of a value that has none modulo `m`.
    NonInvertibleElement,
    /// A point was to be multiplied by a negative scalar.
    UnsupportedScalar,
    /// The modulus is so large that the number of its pairs of coordinates does not fit
    /// a scalar.
    ArithmeticOverflow,
}

/// A point as the contracts see it: coordinates are mathematical integers.
pub enum PointModel {
    Affine { x: int, y: int },
    Infinity,
}

/// A point of a curve: an affine pair of coordinates, or the identity of the group.
#[derive(Clone, Copy, Debug, PartialEq, Eq, Hash, Structural)]
pub enum Point {
    Affine { x: i64, y: i64 },
    Infinity,
}

impl View for Point {
    type V = PointModel;

    open spec fn view(&self) -> PointModel {
        match *self {
            Point::Affine { x, y } => PointModel::Affine { x: x as int, y: y as int },
            Point::Infinity => PointModel::Infinity,
        }
    }
}

/// The points of a list as the contracts see them, in the order of the list.
pub open spec fn models(points: Seq<Point>) -> Seq<PointModel> {
    points.map_values(|p: Point| p@)
}

impl Point {
    /// The identity of the group.
    pub fn at_infinity() -> (p: Point)
        ensures
            p == Point::Infinity,
    {
        Point::Infinity
    }

    /// The abscissa of an affine point; the identity has none.
    pub fn x(&self) -> (r: Option<i64>)
        ensures
            r == match *self {
                Point::Affine { x, y } => Some(x),
                Point::Infinity => None,
            },
    {
        match self {
            Point::Affine { x, .. } => Some(*x),
            Point::Infinity => None,
        }
    }

    /// The ordinate of an affine point; the identity has none.
    pub fn y(&self) -> (r: Option<i64>)
        ensures
            r == match *self {
                Point::Affine { x, y } => Some(y),
                Point::Infinity => None,
            },
    {
        match self {
            Point::Affine { y, .. } => Some(*y),
            Point::Infinity => None,
        }
    }

    /// Whether this point is the identity.
    pub fn is_at_infinity(&self) -> (r: bool)
        ensures
            r == (*self == Point::Infinity),
    {
        match self {
            Point::Infinity => true,
            Point::Affine { .. } => false,
        }
    }
}

} // verus!
