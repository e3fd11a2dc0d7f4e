//! Points on a short Weierstrass curve `y^2 = x^3 + a*x + b` with plain
//! integer coordinates, and the additive group law on them.
//!
//! The coordinate ring here is the integers, not a finite field, so the
//! slope computations of the group law divide integers. The executable
//! group law demands that those divisions are exact (`addition_exact`): a
//! chord or tangent with a non-integer slope would leave the integer
//! points, and truncating the division would silently produce a wrong
//! point. Coordinates and curve parameters are bounded by [`COORD_LIMIT`]
//! so the cubic terms and slope products of the group law fit in 128-bit
//! arithmetic; the bound is a machine limit, not part of the mathematics.

use crate::errors::CurveError;
use vstd::arithmetic::div_mod::{
    lemma_fundamental_div_mod, lemma_fundamental_div_mod_converse, lemma_div_nonincreasing,
};
use vstd::arithmetic::mul::{
    lemma_mul_is_commutative, lemma_mul_is_distributive_sub, lemma_mul_nonzero,
    lemma_mul_unary_negation,
};
use vstd::math::abs;
use vstd::prelude::*;

verus! {

/// Largest magnitude a coordinate or curve parameter may have: keeps
/// every intermediate value of the group law inside `i128`.
pub const COORD_LIMIT: i128 = 1_000_000;

/// Whether a coordinate or curve parameter is within [`COORD_LIMIT`].
pub open spec fn within_limit(v: int) -> bool {
    -(COORD_LIMIT as int) <= v <= COORD_LIMIT as int
}

/// The curve equation: `(x, y)` lies on the curve given by `a` and `b`.
pub open spec fn on_curve(x: int, y: int, a: int, b: int) -> bool {
    y * y == x * x * x + a * x + b
}

/// `v` divides `u` exactly, leaving no remainder.
pub open spec fn divides_exactly(u: int, v: int) -> bool {
    u % (abs(v) as int) == 0
}

/// The signed quotient of an exact division, phrased with a positive
/// divisor. When `divides_exactly(u, v)` holds and `v != 0`, this is the
/// unique integer `q` with `q * v == u`.
pub open spec fn exact_quotient(u: int, v: int) -> int
    recommends
        v != 0,
        divides_exactly(u, v),
{
    if v >= 0 {
        u / v
    } else {
        -(u / (-v))
    }
}

/// Euclidean division recovers the factor of an exact product, whatever
/// the signs: if `u == q * v` then `exact_quotient(u, v) == q`.
pub proof fn lemma_exact_quotient_unique(u: int, v: int, q: int)
    requires
        v != 0,
        u == q * v,
    ensures
        divides_exactly(u, v),
        exact_quotient(u, v) == q,
{
    if v > 0 {
        lemma_fundamental_div_mod_converse(u, v, q, 0);
    } else {
        lemma_mul_unary_negation(q, v);
        assert(u == (-q) * (-v)) by {
            lemma_mul_unary_negation(-q, v);
        };
        lemma_fundamental_div_mod_converse(u, -v, -q, 0);
    }
}

/// An exact quotient multiplied back by the divisor gives the dividend.
pub proof fn lemma_exact_quotient_mul(u: int, v: int)
    requires
        v != 0,
        divides_exactly(u, v),
    ensures
        exact_quotient(u, v) * v == u,
{
    if v > 0 {
        lemma_fundamental_div_mod(u, v);
        lemma_mul_is_commutative(v, u / v);
    } else {
        let w = u / (-v);
        lemma_fundamental_div_mod(u, -v);
        assert(u == (-v) * w);
        lemma_mul_is_commutative(-v, w);
        lemma_mul_unary_negation(v, w);
        assert(v * w == -u);
        lemma_mul_unary_negation(w, v);
        lemma_mul_is_commutative(w, v);
        assert((-w) * v == u);
    }
}

/// Bounds on two factors bound their product.
proof fn lemma_mul_bounds(x: int, xb: int, y: int, yb: int)
    by (nonlinear_arith)
    requires
        -xb <= x <= xb,
        -yb <= y <= yb,
        0 <= xb,
        0 <= yb,
    ensures
        -(xb * yb) <= x * y <= xb * yb,
{
}

/// Two points of one curve with the same abscissa have equal or opposite
/// ordinates, because both ordinates square to the same right-hand side.
proof fn lemma_equal_x_ordinates(y1: int, y2: int, rhs: int)
    requires
        y1 * y1 == rhs,
        y2 * y2 == rhs,
    ensures
        y1 == y2 || y1 + y2 == 0,
{
    if y1 != y2 && y1 + y2 != 0 {
        assert((y1 - y2) * (y1 + y2) == y1 * y1 - y2 * y2) by (nonlinear_arith);
        lemma_mul_nonzero(y1 - y2, y1 + y2);
        assert(false);
    }
}

/// For the cubic `P(x) = -x^3 + s2*x^2 + c1*x + c0` with two known roots
/// `x1 != x2`: since the roots of such a cubic sum to `s2`, the value
/// `x3 == s2 - x1 - x2` is the third root.
proof fn lemma_cubic_two_roots(s2: int, c1: int, c0: int, x1: int, x2: int, x3: int)
    requires
        -(x1 * x1 * x1) + s2 * x1 * x1 + c1 * x1 + c0 == 0,
        -(x2 * x2 * x2) + s2 * x2 * x2 + c1 * x2 + c0 == 0,
        x1 != x2,
        x3 == s2 - x1 - x2,
    ensures
        -(x3 * x3 * x3) + s2 * x3 * x3 + c1 * x3 + c0 == 0,
{
    // Subtracting the two root equations and factoring out x1 - x2 pins c1.
    assert((x1 - x2) * (c1 - (x1 * x1 + x1 * x2 + x2 * x2) + s2 * (x1 + x2)) == 0)
        by (nonlinear_arith)
        requires
            -(x1 * x1 * x1) + s2 * x1 * x1 + c1 * x1 + c0 == 0,
            -(x2 * x2 * x2) + s2 * x2 * x2 + c1 * x2 + c0 == 0,
    {
    }
    lemma_mul_nonzero(x1 - x2, c1 - (x1 * x1 + x1 * x2 + x2 * x2) + s2 * (x1 + x2));
    // Substituting s2 == x1 + x2 + x3 turns c1 and c0 into symmetric
    // functions of the three roots.
    assert(c1 == -(x1 * x2) - x3 * (x1 + x2)) by (nonlinear_arith)
        requires
            c1 == x1 * x1 + x1 * x2 + x2 * x2 - s2 * (x1 + x2),
            s2 == x1 + x2 + x3,
    {
    }
    assert(c0 == x1 * x2 * x3) by (nonlinear_arith)
        requires
            -(x1 * x1 * x1) + s2 * x1 * x1 + c1 * x1 + c0 == 0,
            c1 == -(x1 * x2) - x3 * (x1 + x2),
            s2 == x1 + x2 + x3,
    {
    }
    // The value at x3 is now a ring identity in x1, x2, x3.
    assert(-(x3 * x3 * x3) + s2 * x3 * x3 + c1 * x3 + c0 == 0) by (nonlinear_arith)
        requires
            c1 == -(x1 * x2) - x3 * (x1 + x2),
            c0 == x1 * x2 * x3,
            s2 == x1 + x2 + x3,
    {
    }
}

/// For the cubic `P(x) = -x^3 + s2*x^2 + c1*x + c0` with a double root at
/// `x1` (the root equation together with the vanishing derivative):
/// `x3 == s2 - 2*x1` is the remaining root.
proof fn lemma_cubic_double_root(s2: int, c1: int, c0: int, x1: int, x3: int)
    requires
        -(x1 * x1 * x1) + s2 * x1 * x1 + c1 * x1 + c0 == 0,
        -(3 * x1 * x1) + 2 * s2 * x1 + c1 == 0,
        x3 == s2 - 2 * x1,
    ensures
        -(x3 * x3 * x3) + s2 * x3 * x3 + c1 * x3 + c0 == 0,
{
    assert(c1 == -(x1 * x1) - 2 * x1 * x3) by (nonlinear_arith)
        requires
            -(3 * x1 * x1) + 2 * s2 * x1 + c1 == 0,
            s2 == 2 * x1 + x3,
    {
    }
    assert(c0 == x1 * x1 * x3) by (nonlinear_arith)
        requires
            -(x1 * x1 * x1) + s2 * x1 * x1 + c1 * x1 + c0 == 0,
            c1 == -(x1 * x1) - 2 * x1 * x3,
            s2 == 2 * x1 + x3,
    {
    }
    assert(-(x3 * x3 * x3) + s2 * x3 * x3 + c1 * x3 + c0 == 0) by (nonlinear_arith)
        requires
            c1 == -(x1 * x1) - 2 * x1 * x3,
            c0 == x1 * x1 * x3,
            s2 == 2 * x1 + x3,
    {
    }
}

/// A curve point and the group-law line through it give a root of the
/// associated cubic `P(x) = (line at x)^2 - (x^3 + a*x + b)`, whose
/// coefficients are `s2 = s^2`, `c1 = 2*s*(y1 - s*x1) - a` and
/// `c0 = (y1 - s*x1)^2 - b`.
proof fn lemma_point_is_cubic_root(x1: int, y1: int, xr: int, yr: int, a: int, b: int, s: int)
    requires
        on_curve(xr, yr, a, b),
        s * (xr - x1) == yr - y1,
    ensures
        -(xr * xr * xr) + (s * s) * xr * xr + (2 * s * (y1 - s * x1) - a) * xr + ((y1 - s * x1) * (
        y1 - s * x1) - b) == 0,
{
    assert(-(xr * xr * xr) + (s * s) * xr * xr + (2 * s * (y1 - s * x1) - a) * xr + ((y1 - s * x1)
        * (y1 - s * x1) - b) == 0) by (nonlinear_arith)
        requires
            yr * yr == xr * xr * xr + a * xr + b,
            s * (xr - x1) == yr - y1,
    {
    }
}

/// The chord construction stays on the curve: `(x3, y3)` built from the
/// line through two distinct curve points is the third intersection of the
/// line with the curve.
proof fn lemma_chord_closure(x1: int, y1: int, x2: int, y2: int, a: int, b: int, s: int)
    requires
        on_curve(x1, y1, a, b),
        on_curve(x2, y2, a, b),
        s * (x2 - x1) == y2 - y1,
        x1 != x2,
    ensures
        on_curve(s * s - x1 - x2, s * (x1 - (s * s - x1 - x2)) - y1, a, b),
{
    let c1 = 2 * s * (y1 - s * x1) - a;
    let c0 = (y1 - s * x1) * (y1 - s * x1) - b;
    let x3 = s * s - x1 - x2;
    assert(s * (x1 - x1) == y1 - y1) by (nonlinear_arith);
    lemma_point_is_cubic_root(x1, y1, x1, y1, a, b, s);
    lemma_point_is_cubic_root(x1, y1, x2, y2, a, b, s);
    lemma_cubic_two_roots(s * s, c1, c0, x1, x2, x3);
    assert((s * (x1 - x3) - y1) * (s * (x1 - x3) - y1) == x3 * x3 * x3 + a * x3 + b)
        by (nonlinear_arith)
        requires
            -(x3 * x3 * x3) + (s * s) * x3 * x3 + c1 * x3 + c0 == 0,
            c1 == 2 * s * (y1 - s * x1) - a,
            c0 == (y1 - s * x1) * (y1 - s * x1) - b,
    {
    }
}

/// The tangent construction stays on the curve: `(x3, y3)` built from the
/// tangent at a curve point with nonzero ordinate is its second
/// intersection with the curve.
proof fn lemma_tangent_closure(x1: int, y1: int, a: int, b: int, s: int)
    requires
        on_curve(x1, y1, a, b),
        s * (2 * y1) == 3 * x1 * x1 + a,
    ensures
        on_curve(s * s - x1 - x1, s * (x1 - (s * s - x1 - x1)) - y1, a, b),
{
    let c1 = 2 * s * (y1 - s * x1) - a;
    let c0 = (y1 - s * x1) * (y1 - s * x1) - b;
    let x3 = s * s - x1 - x1;
    assert(s * (x1 - x1) == y1 - y1) by (nonlinear_arith);
    lemma_point_is_cubic_root(x1, y1, x1, y1, a, b, s);
    // The tangent slope makes the derivative of the cubic vanish at x1.
    assert(-(3 * x1 * x1) + 2 * (s * s) * x1 + c1 == 0) by (nonlinear_arith)
        requires
            s * (2 * y1) == 3 * x1 * x1 + a,
            c1 == 2 * s * (y1 - s * x1) - a,
    {
    }
    lemma_cubic_double_root(s * s, c1, c0, x1, x3);
    assert((s * (x1 - x3) - y1) * (s * (x1 - x3) - y1) == x3 * x3 * x3 + a * x3 + b)
        by (nonlinear_arith)
        requires
            -(x3 * x3 * x3) + (s * s) * x3 * x3 + c1 * x3 + c0 == 0,
            c1 == 2 * s * (y1 - s * x1) - a,
            c0 == (y1 - s * x1) * (y1 - s * x1) - b,
    {
    }
}

/// Exact signed division, computed on magnitudes so that only unsigned
/// machine division is needed.
fn div_exact(u: i128, v: i128) -> (q: i128)
    requires
        v != 0,
        u > i128::MIN,
        divides_exactly(u as int, v as int),
    ensures
        q as int == exact_quotient(u as int, v as int),
        (q as int) * (v as int) == u as int,
{
    let un: u128 = if u >= 0 {
        u as u128
    } else {
        (-(u + 1)) as u128 + 1
    };
    let vn: u128 = if v > 0 {
        v as u128
    } else {
        (-(v + 1)) as u128 + 1
    };
    let qn: u128 = un / vn;
    proof {
        let ui = u as int;
        let vi = v as int;
        assert(un as int == abs(ui) as int);
        assert(vn as int == abs(vi) as int);
        lemma_div_nonincreasing(un as int, vn as int);
        if ui >= 0 {
            lemma_fundamental_div_mod(un as int, vn as int);
        } else {
            lemma_fundamental_div_mod(ui, vn as int);
            let w = ui / (vn as int);
            assert(un as int == (vn as int) * (-w)) by {
                lemma_mul_unary_negation(vn as int, w);
            };
            lemma_fundamental_div_mod_converse(un as int, vn as int, -w, 0);
        }
        assert(un as int == (vn as int) * (qn as int));
    }
    let q: i128 = if (u < 0) == (v < 0) {
        qn as i128
    } else {
        -(qn as i128)
    };
    proof {
        let ui = u as int;
        let vi = v as int;
        let qni = qn as int;
        lemma_mul_unary_negation(vi, qni);
        lemma_mul_unary_negation(qni, vi);
        assert((q as int) * vi == ui) by {
            if ui >= 0 && vi > 0 {
                assert(ui == vi * qni);
            } else if ui >= 0 && vi < 0 {
                assert(ui == (-vi) * qni);
                assert((-qni) * vi == -(qni * vi));
            } else if ui < 0 && vi > 0 {
                assert((-ui) == vi * qni);
                assert((-qni) * vi == -(qni * vi));
            } else {
                assert((-ui) == (-vi) * qni);
            }
        };
        lemma_exact_quotient_unique(ui, vi, q as int);
    }
    q
}

/// A point of the curve `y^2 = x^3 + a*x + b`: either the point at
/// infinity, the identity of the group, or a finite point `(x, y)`. Every
/// point carries its curve parameters; only points with identical
/// parameters can be compared or added.
#[derive(Clone, Copy, Debug, PartialEq, Eq, Structural)]
pub enum Point {
    /// The point at infinity of the curve given by `a` and `b`.
    Infinity { a: i128, b: i128 },
    /// The finite point `(x, y)` of the curve given by `a` and `b`.
    Finite { x: i128, y: i128, a: i128, b: i128 },
}

impl Point {
    /// Whether this is the point at infinity.
    pub open spec fn is_infinity(self) -> bool {
        self is Infinity
    }

    /// The curve coefficient `a`.
    pub open spec fn a_of(self) -> int {
        match self {
            Point::Infinity { a, .. } => a as int,
            Point::Finite { a, .. } => a as int,
        }
    }

    /// The curve coefficient `b`.
    pub open spec fn b_of(self) -> int {
        match self {
            Point::Infinity { b, .. } => b as int,
            Point::Finite { b, .. } => b as int,
        }
    }

    /// The abscissa of a finite point.
    pub open spec fn x_of(self) -> int
        recommends
            !self.is_infinity(),
    {
        match self {
            Point::Infinity { .. } => 0,
            Point::Finite { x, .. } => x as int,
        }
    }

    /// The ordinate of a finite point.
    pub open spec fn y_of(self) -> int
        recommends
            !self.is_infinity(),
    {
        match self {
            Point::Infinity { .. } => 0,
            Point::Finite { y, .. } => y as int,
        }
    }

    /// Whether two points carry the same curve parameters.
    pub open spec fn same_curve(self, other: Self) -> bool {
        self.a_of() == other.a_of() && self.b_of() == other.b_of()
    }

    /// The identity of this point's curve: its point at infinity.
    pub open spec fn identity(self) -> Point {
        match self {
            Point::Infinity { a, b } => Point::Infinity { a, b },
            Point::Finite { a, b, .. } => Point::Infinity { a, b },
        }
    }

    /// A finite point satisfies the curve equation; the point at infinity
    /// is always valid.
    pub open spec fn wf(self) -> bool {
        match self {
            Point::Infinity { .. } => true,
            Point::Finite { x, y, a, b } => on_curve(x as int, y as int, a as int, b as int),
        }
    }

    /// All fields within [`COORD_LIMIT`].
    pub open spec fn bounded(self) -> bool {
        match self {
            Point::Infinity { a, b } => within_limit(a as int) && within_limit(b as int),
            Point::Finite { x, y, a, b } => within_limit(x as int) && within_limit(y as int)
                && within_limit(a as int) && within_limit(b as int),
        }
    }

    /// The slope of the group-law line: the tangent at `self` when the two
    /// abscissas agree, the chord through the two points otherwise.
    pub open spec fn slope_of(self, other: Self) -> int
        recommends
            !self.is_infinity(),
            !other.is_infinity(),
    {
        if self.x_of() == other.x_of() {
            exact_quotient(3 * self.x_of() * self.x_of() + self.a_of(), 2 * self.y_of())
        } else {
            exact_quotient(other.y_of() - self.y_of(), other.x_of() - self.x_of())
        }
    }

    /// Whether every division of the group law for `self + other` is
    /// exact. Inexact slopes would leave the integer points of the curve,
    /// so the executable addition requires this.
    pub open spec fn addition_exact(self, other: Self) -> bool {
        if self.is_infinity() || other.is_infinity() {
            true
        } else if self.x_of() == other.x_of() && self.y_of() + other.y_of() == 0 {
            true
        } else if self.x_of() == other.x_of() {
            divides_exactly(3 * self.x_of() * self.x_of() + self.a_of(), 2 * self.y_of())
        } else {
            divides_exactly(other.y_of() - self.y_of(), other.x_of() - self.x_of())
        }
    }

    /// The group law, case by case, in the order given by its precedence:
    /// an infinite operand returns the other operand; additive inverses
    /// (same abscissa, opposite ordinates, which covers a vertical tangent)
    /// cancel to infinity; otherwise the tangent or chord construction.
    pub open spec fn spec_add(self, other: Self) -> Point {
        match (self, other) {
            (Point::Infinity { .. }, _) => other,
            (_, Point::Infinity { .. }) => self,
            (Point::Finite { x: x1, y: y1, a, b }, Point::Finite { x: x2, y: y2, .. }) => {
                if x1 == x2 && (y1 as int) + (y2 as int) == 0 {
                    Point::Infinity { a, b }
                } else {
                    let s = self.slope_of(other);
                    let x3 = s * s - x1 - x2;
                    let y3 = s * ((x1 as int) - x3) - y1;
                    Point::Finite { x: x3 as i128, y: y3 as i128, a, b }
                }
            },
        }
    }

    /// Builds the finite point `(x, y)`, validating the curve equation.
    pub fn new_point(x: i128, y: i128, a: i128, b: i128) -> (r: Result<Point, CurveError>)
        requires
            within_limit(x as int),
            within_limit(y as int),
            within_limit(a as int),
            within_limit(b as int),
        ensures
            on_curve(x as int, y as int, a as int, b as int) ==> r == Ok::<Point, CurveError>(
                (Point::Finite { x, y, a, b }),
            ) && r.unwrap().wf() && r.unwrap().bounded(),
            !on_curve(x as int, y as int, a as int, b as int) ==> r == Err::<Point, CurveError>(
                CurveError::NotOnCurve,
            ),
    {
        let limit = COORD_LIMIT;
        proof {
            lemma_mul_bounds(y as int, limit as int, y as int, limit as int);
            lemma_mul_bounds(x as int, limit as int, x as int, limit as int);
            lemma_mul_bounds(
                (x as int) * (x as int),
                (limit as int) * (limit as int),
                x as int,
                limit as int,
            );
            lemma_mul_bounds(a as int, limit as int, x as int, limit as int);
        }
        let lhs = y * y;
        let rhs = x * x * x + a * x + b;
        if lhs == rhs {
            Ok(Point::Finite { x, y, a, b })
        } else {
            Err(CurveError::NotOnCurve)
        }
    }

    /// Builds the point at infinity of the curve given by `a` and `b`.
    pub fn new_infinity(a: i128, b: i128) -> (r: Point)
        ensures
            r == (Point::Infinity { a, b }),
    {
        Point::Infinity { a, b }
    }

    /// Builds a point from optional coordinates: both present gives a
    /// validated finite point, both absent gives the point at infinity, and
    /// a mixed pair is rejected, since a point has either two coordinates
    /// or none.
    pub fn new(x: Option<i128>, y: Option<i128>, a: i128, b: i128) -> (r: Result<
        Point,
        CurveError,
    >)
        requires
            (x matches Some(xv) ==> within_limit(xv as int)),
            (y matches Some(yv) ==> within_limit(yv as int)),
            within_limit(a as int),
            within_limit(b as int),
        ensures
            x is None && y is None ==> r == Ok::<Point, CurveError>((Point::Infinity { a, b })),
            (x matches Some(xv) ==> (y matches Some(yv) ==> r == (if on_curve(
                xv as int,
                yv as int,
                a as int,
                b as int,
            ) {
                Ok::<Point, CurveError>((Point::Finite { x: xv, y: yv, a, b }))
            } else {
                Err::<Point, CurveError>(CurveError::NotOnCurve)
            }))),
            (x is Some) != (y is Some) ==> r == Err::<Point, CurveError>(CurveError::NotOnCurve),
    {
        match (x, y) {
            (Some(xv), Some(yv)) => Self::new_point(xv, yv, a, b),
            (None, None) => Ok(Point::Infinity { a, b }),
            _ => Err(CurveError::NotOnCurve),
        }
    }

    /// The curve coefficient `a` of this point.
    pub fn curve_a(&self) -> (r: i128)
        ensures
            r as int == self.a_of(),
    {
        match self {
            Point::Infinity { a, .. } => *a,
            Point::Finite { a, .. } => *a,
        }
    }

    /// The curve coefficient `b` of this point.
    pub fn curve_b(&self) -> (r: i128)
        ensures
            r as int == self.b_of(),
    {
        match self {
            Point::Infinity { b, .. } => *b,
            Point::Finite { b, .. } => *b,
        }
    }

    /// Group-law addition. Operands must carry identical curve parameters
    /// (`CurveError::CurveMismatch` otherwise); the result is a fresh point
    /// of the same curve, the operands are untouched.
    pub fn add(self, other: Self) -> (r: Result<Point, CurveError>)
        requires
            self.wf(),
            other.wf(),
            self.bounded(),
            other.bounded(),
            self.addition_exact(other),
        ensures
            !self.same_curve(other) ==> r == Err::<Point, CurveError>(CurveError::CurveMismatch),
            self.same_curve(other) ==> r == Ok::<Point, CurveError>(self.spec_add(other)),
            self.same_curve(other) ==> r.unwrap().wf(),
    {
        if self.curve_a() != other.curve_a() || self.curve_b() != other.curve_b() {
            return Err(CurveError::CurveMismatch);
        }
        match (self, other) {
            (Point::Infinity { .. }, _) => Ok(other),
            (_, Point::Infinity { .. }) => Ok(self),
            (Point::Finite { x: x1, y: y1, a, b }, Point::Finite { x: x2, y: y2, .. }) => {
                if x1 == x2 && y1 + y2 == 0 {
                    return Ok(Point::Infinity { a, b });
                }
                let limit = COORD_LIMIT;
                // Worst numerator magnitude of either slope: the tangent's
                // `3*x^2 + a`.
                let ghost numerator_bound: int = 3 * (limit as int) * (limit as int)
                    + limit as int;
                proof {
                    lemma_mul_bounds(x1 as int, limit as int, x1 as int, limit as int);
                    lemma_mul_bounds(
                        3 * (x1 as int),
                        3 * (limit as int),
                        x1 as int,
                        limit as int,
                    );
                }
                let s: i128;
                if x1 == x2 {
                    proof {
                        lemma_equal_x_ordinates(
                            y1 as int,
                            y2 as int,
                            (x1 as int) * (x1 as int) * (x1 as int) + (a as int) * (x1 as int)
                                + (b as int),
                        );
                        assert(y1 == y2 && y1 != 0);
                    }
                    s = div_exact(3 * x1 * x1 + a, 2 * y1);
                } else {
                    s = div_exact(y2 - y1, x2 - x1);
                }
                proof {
                    assert(-numerator_bound <= s as int <= numerator_bound) by {
                        if x1 == x2 {
                            assert(3 * (x1 as int) * (x1 as int) + (a as int) == (s as int) * (2 * (
                            y1 as int)));
                            lemma_abs_factor_bound(
                                3 * (x1 as int) * (x1 as int) + (a as int),
                                numerator_bound,
                                s as int,
                                2 * (y1 as int),
                            );
                        } else {
                            lemma_abs_factor_bound(
                                (y2 as int) - (y1 as int),
                                numerator_bound,
                                s as int,
                                (x2 as int) - (x1 as int),
                            );
                        }
                    };
                    // Pin the bound to its numeric value, so the range
                    // checks below compare literals.
                    assert(numerator_bound == 3000001000000int);
                    lemma_mul_bounds(s as int, numerator_bound, s as int, numerator_bound);
                    assert((s as int) * (s as int) <= numerator_bound * numerator_bound);
                    lemma_mul_bounds(
                        s as int,
                        numerator_bound,
                        (x1 as int) - ((s as int) * (s as int) - (x1 as int) - (x2 as int)),
                        numerator_bound * numerator_bound + 3 * (limit as int),
                    );
                }
                let x3 = s * s - x1 - x2;
                let y3 = s * (x1 - x3) - y1;
                proof {
                    if x1 == x2 {
                        lemma_tangent_closure(x1 as int, y1 as int, a as int, b as int, s as int);
                    } else {
                        lemma_chord_closure(
                            x1 as int,
                            y1 as int,
                            x2 as int,
                            y2 as int,
                            a as int,
                            b as int,
                            s as int,
                        );
                    }
                }
                Ok(Point::Finite { x: x3, y: y3, a, b })
            },
        }
    }
}

/// A factor of a bounded product is itself bounded when the other factor
/// has magnitude at least one.
proof fn lemma_abs_factor_bound(u: int, ub: int, q: int, v: int)
    by (nonlinear_arith)
    requires
        -ub <= u <= ub,
        v != 0,
        u == q * v,
    ensures
        -ub <= q <= ub,
{
}

/// The point at infinity is the additive identity: adding it on either
/// side returns the other operand unchanged.
pub proof fn lemma_add_identity(p: Point)
    ensures
        p.spec_add(p.identity()) == p,
        p.identity().spec_add(p) == p,
{
}

/// A finite point and its reflection across the x axis are additive
/// inverses: their sum is the point at infinity.
pub proof fn lemma_add_inverse(p: Point, q: Point)
    requires
        !p.is_infinity(),
        !q.is_infinity(),
        p.same_curve(q),
        q.x_of() == p.x_of(),
        q.y_of() + p.y_of() == 0,
    ensures
        p.spec_add(q) == p.identity(),
{
}

/// Point addition is commutative. The chord case needs the slope division
/// to be exact: with a truncated slope the two orders could disagree, so
/// exactness is part of the statement.
pub proof fn lemma_add_commutative(p: Point, q: Point)
    requires
        p.wf(),
        q.wf(),
        p.same_curve(q),
        p.addition_exact(q),
    ensures
        p.spec_add(q) == q.spec_add(p),
{
    match (p, q) {
        (Point::Finite { x: x1, y: y1, a, b }, Point::Finite { x: x2, y: y2, .. }) => {
            let x1i = x1 as int;
            let y1i = y1 as int;
            let x2i = x2 as int;
            let y2i = y2 as int;
            if x1 == x2 {
                lemma_equal_x_ordinates(
                    y1i,
                    y2i,
                    x1i * x1i * x1i + (a as int) * x1i + (b as int),
                );
                if y1i + y2i != 0 {
                    // Doubling: the two operands are the same point, so the
                    // tangent construction reads the same values either way.
                    assert(y1 == y2);
                    assert(q.slope_of(p) == p.slope_of(q));
                }
            } else {
                // Chord: negating both the rise and the run leaves the
                // exact slope unchanged, and both points lie on the line,
                // so either anchor gives the same third point.
                let u = y2i - y1i;
                let v = x2i - x1i;
                let s = p.slope_of(q);
                lemma_exact_quotient_mul(u, v);
                assert(s * v == u);
                assert(s * (-v) == -u) by {
                    lemma_mul_unary_negation(s, v);
                };
                lemma_exact_quotient_unique(-u, -v, s);
                assert(q.slope_of(p) == s);
                let x3 = s * s - x1i - x2i;
                assert(s * (x1i - x3) - s * (x2i - x3) == s * (x1i - x2i)) by {
                    lemma_mul_is_distributive_sub(s, x1i - x3, x2i - x3);
                };
                assert(s * (x1i - x2i) == -u) by {
                    lemma_mul_unary_negation(s, v);
                };
                assert(s * (x1i - x3) - y1i == s * (x2i - x3) - y2i);
            }
        },
        _ => {},
    }
}

} // verus!
