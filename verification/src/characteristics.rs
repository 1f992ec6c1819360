//! Classification of two-dimensional cubic Bézier curves (arches, loops, cusps, inflections).
//!
//! The classification maps the first three control points to (0, 0), (0, 1) and (1, 1) by an affine
//! transform; the image of the fourth control point (the canonical point) then decides the kind of
//! curve. On the integer grid the canonical point is an exact fraction, and every comparison the
//! classification makes on it is made exactly, tolerances included.

use vstd::prelude::*;

use crate::geo::{
    Coord2, coord_in_limit, is_near_small, cross_from, distance_squared, lemma_near_small_is_equal, lemma_product_bound,
};
use crate::curve::Curve;

verus! {

/// Possible types of a two-dimensional cubic bezier curve
#[derive(Clone, Copy, Debug, PartialEq, Eq, Structural)]
pub enum CurveCategory {
    /// The control points are all at the same position
    Point,
    /// The control points are in a line
    Linear,
    /// A simple curve that does not change direction or self-intersect
    Arch,
    /// A curve that changes direction once
    SingleInflectionPoint,
    /// A curve that changes direction twice
    DoubleInflectionPoint,
    /// A curve that can be represented as a quadratic curve rather than a cubic one
    Parabolic,
    /// A curve with a cusp (an abrupt change in direction)
    Cusp,
    /// A curve containing a loop
    Loop,
}

/// The point `(x_num / denom, y_num / denom)`: the image of the free control point once the other
/// three have been moved to (0, 0), (0, 1) and (1, 1).
#[derive(Clone, Copy, Debug, PartialEq, Eq, Structural)]
pub struct CanonicalPoint {
    pub x_num: i128,
    pub y_num: i128,
    pub denom: i128,
}

/// Bound on the magnitude of the parts of a canonical point computed from coordinates within
/// `COORD_LIMIT` (2^61).
pub open spec fn canonical_part_limit() -> int {
    2305843009213693952
}

/// The reciprocal of `f64::EPSILON` (2^52).
pub open spec fn epsilon_reciprocal() -> int {
    4503599627370496
}

pub open spec fn abs_int(a: int) -> int {
    if a < 0 { -a } else { a }
}

/// `|num / den| <= f64::EPSILON`, for `den > 0`.
pub open spec fn within_epsilon(num: int, den: int) -> bool {
    epsilon_reciprocal() * abs_int(num) <= den
}

/// The determinant of the affine transform that sends `w1`, `w2`, `w3` to (0, 0), (0, 1), (1, 1).
/// It is zero exactly when the three points are collinear (or two of them coincide).
pub open spec fn canonical_divisor(w1: Coord2, w2: Coord2, w3: Coord2) -> int {
    (w3.1 - w2.1) * (w1.0 - w2.0) - (w3.0 - w2.0) * (w1.1 - w2.1)
}

/// The x component of the image of `p` under the canonical transform, times `canonical_divisor`.
pub open spec fn canonical_x_scaled(w1: Coord2, w2: Coord2, w3: Coord2, p: Coord2) -> int {
    (w2.1 - w1.1) * (p.0 - w1.0) + (w1.0 - w2.0) * (p.1 - w1.1)
}

/// The y component of the image of `p` under the canonical transform, times `canonical_divisor`.
pub open spec fn canonical_y_scaled(w1: Coord2, w2: Coord2, w3: Coord2, p: Coord2) -> int {
    (w2.1 - w3.1) * (p.0 - w1.0) + (w3.0 - w2.0) * (p.1 - w1.1)
}

/// The canonical point of a curve as `(x, y, d)` meaning `(x / d, y / d)` with `d > 0`, or `None`
/// when the first three control points admit no canonical transform.
pub open spec fn canonical_point(w1: Coord2, w2: Coord2, w3: Coord2, w4: Coord2) -> Option<(int, int, int)> {
    let dv = canonical_divisor(w1, w2, w3);
    let xs = canonical_x_scaled(w1, w2, w3, w4);
    let ys = canonical_y_scaled(w1, w2, w3, w4);
    if dv == 0 {
        None
    } else if dv > 0 {
        Some((xs, ys, dv))
    } else {
        Some((-xs, -ys, -dv))
    }
}

/// `x^2 - 2x + 4y - 3` for the point `(x / d, y / d)`, times `d^2`: its sign separates loops from
/// inflections, and its zero set is where the curve has a cusp.
pub open spec fn delta_scaled(x: int, y: int, d: int) -> int {
    x * x - 2 * x * d + 4 * y * d - 3 * d * d
}

/// The category of a curve whose canonical point is `(x / d, y / d)` (`d > 0`). Each condition is
/// the comparison on the canonical point multiplied through by `d` or `d^2`.
pub open spec fn category_from_canonical(x: int, y: int, d: int) -> CurveCategory {
    let delta = delta_scaled(x, y, d);
    if within_epsilon(delta, d * d) {
        if x <= d {
            CurveCategory::Cusp
        } else {
            CurveCategory::Arch
        }
    } else if delta <= 0 {
        if x > d {
            if y > d {
                CurveCategory::SingleInflectionPoint
            } else {
                CurveCategory::Arch
            }
        } else if x * x - 3 * x * d + 3 * y * d >= 0 {
            if x * x + y * y + x * y - 3 * x * d >= 0 {
                CurveCategory::Loop
            } else {
                CurveCategory::Arch
            }
        } else {
            CurveCategory::Arch
        }
    } else {
        if y >= d {
            CurveCategory::SingleInflectionPoint
        } else if x <= 0 {
            CurveCategory::DoubleInflectionPoint
        } else if within_epsilon(x - 3 * d, d) && within_epsilon(y, d) {
            CurveCategory::Parabolic
        } else {
            CurveCategory::Arch
        }
    }
}

/// `p` lies within `SMALL_DISTANCE` (0.001) of the line through `a` and `b`:
/// `(cross / length)^2 < 0.001^2`.
pub open spec fn near_line_small(a: Coord2, b: Coord2, p: Coord2) -> bool {
    1_000_000 * (cross_from(a, b, p) * cross_from(a, b, p)) < distance_squared(a, b)
}

/// The category of the cubic curve with control points `w1`, `w2`, `w3`, `w4`.
pub open spec fn cubic_category(w1: Coord2, w2: Coord2, w3: Coord2, w4: Coord2) -> CurveCategory {
    match canonical_point(w1, w2, w3, w4) {
        Some((x, y, d)) => category_from_canonical(x, y, d),
        None => {
            if is_near_small(w2, w3) {
                if is_near_small(w2, w1) {
                    if is_near_small(w3, w4) {
                        CurveCategory::Point
                    } else {
                        CurveCategory::Linear
                    }
                } else if is_near_small(w3, w4) {
                    CurveCategory::Linear
                } else if near_line_small(w1, w3, w4) {
                    CurveCategory::Linear
                } else {
                    CurveCategory::DoubleInflectionPoint
                }
            } else {
                match canonical_point(w4, w3, w2, w1) {
                    Some((x, y, d)) => category_from_canonical(x, y, d),
                    None => CurveCategory::Linear,
                }
            }
        },
    }
}

/// All four control points lie within `COORD_LIMIT` of the origin.
pub open spec fn control_points_in_limit(w1: Coord2, w2: Coord2, w3: Coord2, w4: Coord2) -> bool {
    coord_in_limit(w1) && coord_in_limit(w2) && coord_in_limit(w3) && coord_in_limit(w4)
}

/// The parts of a canonical point are small enough for the classification to be computed in `i128`.
pub open spec fn canonical_point_in_limit(p: CanonicalPoint) -> bool {
    &&& 0 < p.denom <= canonical_part_limit()
    &&& -canonical_part_limit() <= p.x_num <= canonical_part_limit()
    &&& -canonical_part_limit() <= p.y_num <= canonical_part_limit()
}

/// For `a, b >= 0` and `k > 0`: `k * a <= b` exactly when `a <= b / k`.
pub proof fn lemma_mul_le_iff_le_div(a: int, b: int, k: int)
    requires
        a >= 0,
        b >= 0,
        k > 0,
    ensures
        (k * a <= b) == (a <= b / k),
{
    let q = b / k;
    let r = b % k;
    vstd::arithmetic::div_mod::lemma_fundamental_div_mod(b, k);
    assert(0 <= r < k) by {
        vstd::arithmetic::div_mod::lemma_mod_bound(b, k);
    }
    if a <= q {
        assert(k * a <= k * q) by (nonlinear_arith)
            requires
                a <= q,
                k > 0,
        ;
    } else {
        assert(k * a >= k * q + k) by (nonlinear_arith)
            requires
                a >= q + 1,
                k > 0,
        ;
    }
}

/// The canonical transform sends the first three control points to (0, 0), (0, 1) and (1, 1):
/// the scaled images are `(0, 0)`, `(0, d)` and `(d, d)` where `d` is the divisor.
pub proof fn lemma_canonical_transform_fixes_control_points(w1: Coord2, w2: Coord2, w3: Coord2)
    ensures
        canonical_x_scaled(w1, w2, w3, w1) == 0,
        canonical_y_scaled(w1, w2, w3, w1) == 0,
        canonical_x_scaled(w1, w2, w3, w2) == 0,
        canonical_y_scaled(w1, w2, w3, w2) == canonical_divisor(w1, w2, w3),
        canonical_x_scaled(w1, w2, w3, w3) == canonical_divisor(w1, w2, w3),
        canonical_y_scaled(w1, w2, w3, w3) == canonical_divisor(w1, w2, w3),
{
    let (x0, y0, x1, y1, x2, y2) = (w1.0 as int, w1.1 as int, w2.0 as int, w2.1 as int, w3.0 as int, w3.1 as int);
    assert((y1 - y0) * (x0 - x0) + (x0 - x1) * (y0 - y0) == 0) by (nonlinear_arith);
    assert((y1 - y2) * (x0 - x0) + (x2 - x1) * (y0 - y0) == 0) by (nonlinear_arith);
    assert((y1 - y0) * (x1 - x0) + (x0 - x1) * (y1 - y0) == 0) by (nonlinear_arith);
    assert((y1 - y2) * (x1 - x0) + (x2 - x1) * (y1 - y0) == (y2 - y1) * (x0 - x1) - (x2 - x1) * (y0 - y1)) by (nonlinear_arith);
    assert((y1 - y0) * (x2 - x0) + (x0 - x1) * (y2 - y0) == (y2 - y1) * (x0 - x1) - (x2 - x1) * (y0 - y1)) by (nonlinear_arith);
    assert((y1 - y2) * (x2 - x0) + (x2 - x1) * (y2 - y0) == (y2 - y1) * (x0 - x1) - (x2 - x1) * (y0 - y1)) by (nonlinear_arith);
}

/// The affine transform `(x, y) -> ((a x + b y + c) / denom, (d x + e y + f) / denom)` (with `denom > 0`)
/// that moves the first three control points of a curve to (0, 0), (0, 1) and (1, 1).
#[derive(Clone, Copy, Debug, PartialEq, Eq, Structural)]
pub struct CanonicalTransform {
    pub a: i64,
    pub b: i64,
    pub c: i64,
    pub d: i64,
    pub e: i64,
    pub f: i64,
    pub denom: i64,
}

/// The x component of the image of `p`, times `t.denom`.
pub open spec fn transform_x_scaled(t: CanonicalTransform, p: Coord2) -> int {
    t.a * p.0 + t.b * p.1 + t.c
}

/// The y component of the image of `p`, times `t.denom`.
pub open spec fn transform_y_scaled(t: CanonicalTransform, p: Coord2) -> int {
    t.d * p.0 + t.e * p.1 + t.f
}

/// `t` is the canonical transform for `w1`, `w2`, `w3`: its denominator is the magnitude of the divisor
/// and it sends every point to the canonical image given by `canonical_x_scaled` and `canonical_y_scaled`.
pub open spec fn is_canonical_transform(t: CanonicalTransform, w1: Coord2, w2: Coord2, w3: Coord2) -> bool {
    let dv = canonical_divisor(w1, w2, w3);
    &&& dv != 0
    &&& t.denom == (if dv > 0 { dv } else { -dv })
    &&& forall|p: Coord2| #![trigger transform_x_scaled(t, p)]
        transform_x_scaled(t, p) == (if dv > 0 { canonical_x_scaled(w1, w2, w3, p) } else { -canonical_x_scaled(w1, w2, w3, p) })
    &&& forall|p: Coord2| #![trigger transform_y_scaled(t, p)]
        transform_y_scaled(t, p) == (if dv > 0 { canonical_y_scaled(w1, w2, w3, p) } else { -canonical_y_scaled(w1, w2, w3, p) })
}

/// Moving all four control points by the same offset does not change the category of a curve: the
/// classification depends only on the shape of the control polygon.
pub proof fn lemma_category_translation_invariant(
    w1: Coord2,
    w2: Coord2,
    w3: Coord2,
    w4: Coord2,
    v1: Coord2,
    v2: Coord2,
    v3: Coord2,
    v4: Coord2,
    dx: int,
    dy: int,
)
    requires
        v1.0 == w1.0 + dx && v1.1 == w1.1 + dy,
        v2.0 == w2.0 + dx && v2.1 == w2.1 + dy,
        v3.0 == w3.0 + dx && v3.1 == w3.1 + dy,
        v4.0 == w4.0 + dx && v4.1 == w4.1 + dy,
    ensures
        cubic_category(v1, v2, v3, v4) == cubic_category(w1, w2, w3, w4),
{
    lemma_canonical_parts_translate(w1, w2, w3, w4, v1, v2, v3, v4, dx, dy);
    lemma_canonical_parts_translate(w4, w3, w2, w1, v4, v3, v2, v1, dx, dy);
    assert(distance_squared(v1, v3) == distance_squared(w1, w3));
    assert(cross_from(v1, v3, v4) == cross_from(w1, w3, w4));
    assert(distance_squared(v2, v3) == distance_squared(w2, w3));
    assert(distance_squared(v2, v1) == distance_squared(w2, w1));
    assert(distance_squared(v3, v4) == distance_squared(w3, w4));
}

proof fn lemma_canonical_parts_translate(
    w1: Coord2,
    w2: Coord2,
    w3: Coord2,
    w4: Coord2,
    v1: Coord2,
    v2: Coord2,
    v3: Coord2,
    v4: Coord2,
    dx: int,
    dy: int,
)
    requires
        v1.0 == w1.0 + dx && v1.1 == w1.1 + dy,
        v2.0 == w2.0 + dx && v2.1 == w2.1 + dy,
        v3.0 == w3.0 + dx && v3.1 == w3.1 + dy,
        v4.0 == w4.0 + dx && v4.1 == w4.1 + dy,
    ensures
        canonical_divisor(v1, v2, v3) == canonical_divisor(w1, w2, w3),
        canonical_x_scaled(v1, v2, v3, v4) == canonical_x_scaled(w1, w2, w3, w4),
        canonical_y_scaled(v1, v2, v3, v4) == canonical_y_scaled(w1, w2, w3, w4),
        canonical_point(v1, v2, v3, v4) == canonical_point(w1, w2, w3, w4),
{
}

/// `v` is the image of `w` under the affine map with rational coefficients
/// `(x, y) -> ((a x + b y + tx) / den, (c x + d y + ty) / den)` (with `den > 0`).
pub open spec fn is_affine_image(w: Coord2, v: Coord2, a: int, b: int, c: int, d: int, tx: int, ty: int, den: int) -> bool {
    den * v.0 == a * w.0 + b * w.1 + tx && den * v.1 == c * w.0 + d * w.1 + ty
}

/// The canonical point with its numerators and denominator all multiplied by `k`.
pub open spec fn scaled_canonical_point(p: Option<(int, int, int)>, k: int) -> Option<(int, int, int)> {
    match p {
        Some((x, y, d)) => Some((k * x, k * y, k * d)),
        None => None,
    }
}

/// The difference of the images of two points under an affine map is the linear part applied to the difference
/// of the points (all times the common denominator).
proof fn lemma_affine_diff(w: Coord2, v: Coord2, w2: Coord2, v2: Coord2, a: int, b: int, c: int, d: int, tx: int, ty: int, den: int)
    requires
        is_affine_image(w, v, a, b, c, d, tx, ty, den),
        is_affine_image(w2, v2, a, b, c, d, tx, ty, den),
    ensures
        den * (v.0 - v2.0) == a * (w.0 - w2.0) + b * (w.1 - w2.1),
        den * (v.1 - v2.1) == c * (w.0 - w2.0) + d * (w.1 - w2.1),
{
    let (x, y, x2, y2) = (w.0 as int, w.1 as int, w2.0 as int, w2.1 as int);
    let (p, q, p2, q2) = (v.0 as int, v.1 as int, v2.0 as int, v2.1 as int);
    assert(den * (p - p2) == den * p - den * p2) by (nonlinear_arith);
    assert(den * (q - q2) == den * q - den * q2) by (nonlinear_arith);
    assert(a * (x - x2) + b * (y - y2) == (a * x + b * y + tx) - (a * x2 + b * y2 + tx)) by (nonlinear_arith);
    assert(c * (x - x2) + d * (y - y2) == (c * x + d * y + ty) - (c * x2 + d * y2 + ty)) by (nonlinear_arith);
}

/// Scaling both vectors by `k` scales their cross product by `k * k`.
proof fn lemma_cross_scaled(k: int, u0: int, u1: int, w0: int, w1: int)
    ensures
        cross2(k * u0, k * u1, k * w0, k * w1) == (k * k) * cross2(u0, u1, w0, w1),
{
    lemma_mul_scale2(k, u1, w0);
    lemma_mul_scale2(k, u0, w1);
    vstd::arithmetic::mul::lemma_mul_is_distributive_sub(k * k, u1 * w0, u0 * w1);
}

/// The cross product `u1 w0 - u0 w1` of the vectors `(u0, u1)` and `(w0, w1)`.
pub open spec fn cross2(u0: int, u1: int, w0: int, w1: int) -> int {
    u1 * w0 - u0 * w1
}

/// Multiplying out a product of two sums.
proof fn lemma_mul_sums(p: int, q: int, r: int, t: int)
    ensures
        (p + q) * (r + t) == p * r + p * t + q * r + q * t,
{
    assert((p + q) * (r + t) == p * r + p * t + q * r + q * t) by (nonlinear_arith);
}

/// Regrouping a product of two products.
proof fn lemma_mul_regroup(p: int, q: int, r: int, t: int)
    ensures
        (p * q) * (r * t) == (p * r) * (q * t),
{
    assert((p * q) * (r * t) == (p * r) * (q * t)) by (nonlinear_arith);
}

/// A linear map multiplies the cross product of two vectors by its determinant.
proof fn lemma_cross_linear(a: int, b: int, c: int, d: int, u0: int, u1: int, w0: int, w1: int)
    ensures
        cross2(a * u0 + b * u1, c * u0 + d * u1, a * w0 + b * w1, c * w0 + d * w1) == (a * d - b * c) * cross2(u0, u1, w0, w1),
{
    lemma_mul_sums(c * u0, d * u1, a * w0, b * w1);
    lemma_mul_sums(a * u0, b * u1, c * w0, d * w1);
    lemma_mul_regroup(c, u0, a, w0);
    lemma_mul_regroup(c, u0, b, w1);
    lemma_mul_regroup(d, u1, a, w0);
    lemma_mul_regroup(d, u1, b, w1);
    lemma_mul_regroup(a, u0, c, w0);
    lemma_mul_regroup(a, u0, d, w1);
    lemma_mul_regroup(b, u1, c, w0);
    lemma_mul_regroup(b, u1, d, w1);
    assert(c * a == a * c && d * a == a * d && d * b == b * d && b * c == c * b && u1 * w0 == w0 * u1) by (nonlinear_arith);
    vstd::arithmetic::mul::lemma_mul_is_distributive_sub(a * d - b * c, u1 * w0, u0 * w1);
    vstd::arithmetic::mul::lemma_mul_is_distributive_sub_other_way(u1 * w0, a * d, b * c);
    vstd::arithmetic::mul::lemma_mul_is_distributive_sub_other_way(u0 * w1, a * d, b * c);
    vstd::arithmetic::mul::lemma_mul_is_commutative(a * d, u1 * w0);
    vstd::arithmetic::mul::lemma_mul_is_commutative(b * c, u1 * w0);
    vstd::arithmetic::mul::lemma_mul_is_commutative(a * d, u0 * w1);
    vstd::arithmetic::mul::lemma_mul_is_commutative(b * c, u0 * w1);
    lemma_mul_regroup(a, d, u1, w0);
    lemma_mul_regroup(b, c, u1, w0);
    lemma_mul_regroup(a, d, u0, w1);
    lemma_mul_regroup(b, c, u0, w1);
    assert(d * w1 == w1 * d && a * w0 == w0 * a && b * w1 == w1 * b && c * w0 == w0 * c) by (nonlinear_arith);
    assert(u1 * d == d * u1 && u0 * a == a * u0 && u1 * b == b * u1 && u0 * c == c * u0) by (nonlinear_arith);
}

/// The divisor and the scaled components of the canonical point are cross products of differences of the
/// control points.
proof fn lemma_scaled_parts_as_cross(w1: Coord2, w2: Coord2, w3: Coord2, w4: Coord2)
    ensures
        canonical_divisor(w1, w2, w3) == cross2(w3.0 - w2.0, w3.1 - w2.1, w1.0 - w2.0, w1.1 - w2.1),
        canonical_x_scaled(w1, w2, w3, w4) == cross2(w2.0 - w1.0, w2.1 - w1.1, w4.0 - w1.0, w4.1 - w1.1),
        canonical_y_scaled(w1, w2, w3, w4) == cross2(w2.0 - w3.0, w2.1 - w3.1, w4.0 - w1.0, w4.1 - w1.1),
{
    let (p, q) = ((w2.0 - w1.0) as int, (w4.1 - w1.1) as int);
    assert((w1.0 - w2.0) * q == -(p * q)) by (nonlinear_arith)
        requires
            p == w2.0 - w1.0,
    ;
    let (r, t) = ((w2.0 - w3.0) as int, (w4.1 - w1.1) as int);
    assert((w3.0 - w2.0) * t == -(r * t)) by (nonlinear_arith)
        requires
            r == w2.0 - w3.0,
    ;
}

/// The canonical point does not depend on where the control points are placed, only on the shape they make
/// up to an affine map: applying an invertible affine map with rational coefficients (`den` being their common
/// denominator) to all four control points multiplies the divisor and both scaled components by the map's
/// determinant, `(a d - b c) / den^2`, so the canonical point (the fraction `(x / d, y / d)`) is unchanged: its
/// parts times `den^2` are those for the original points times the magnitude of `a d - b c`. When the canonical
/// point exists, the category of the curve is unchanged too.
pub proof fn lemma_canonical_point_affine_invariant(
    w1: Coord2,
    w2: Coord2,
    w3: Coord2,
    w4: Coord2,
    v1: Coord2,
    v2: Coord2,
    v3: Coord2,
    v4: Coord2,
    a: int,
    b: int,
    c: int,
    d: int,
    tx: int,
    ty: int,
    den: int,
)
    requires
        den > 0,
        is_affine_image(w1, v1, a, b, c, d, tx, ty, den),
        is_affine_image(w2, v2, a, b, c, d, tx, ty, den),
        is_affine_image(w3, v3, a, b, c, d, tx, ty, den),
        is_affine_image(w4, v4, a, b, c, d, tx, ty, den),
        a * d - b * c != 0,
    ensures
        den * den * canonical_divisor(v1, v2, v3) == (a * d - b * c) * canonical_divisor(w1, w2, w3),
        den * den * canonical_x_scaled(v1, v2, v3, v4) == (a * d - b * c) * canonical_x_scaled(w1, w2, w3, w4),
        den * den * canonical_y_scaled(v1, v2, v3, v4) == (a * d - b * c) * canonical_y_scaled(w1, w2, w3, w4),
        scaled_canonical_point(canonical_point(v1, v2, v3, v4), den * den) == scaled_canonical_point(
            canonical_point(w1, w2, w3, w4),
            abs_int(a * d - b * c),
        ),
        canonical_point(w1, w2, w3, w4) is Some ==> cubic_category(v1, v2, v3, v4) == cubic_category(w1, w2, w3, w4),
{
    let k = a * d - b * c;
    let sq = den * den;
    assert(sq > 0) by (nonlinear_arith)
        requires
            den > 0,
            sq == den * den,
    ;
    lemma_affine_diff(w3, v3, w2, v2, a, b, c, d, tx, ty, den);
    lemma_affine_diff(w1, v1, w2, v2, a, b, c, d, tx, ty, den);
    lemma_affine_diff(w2, v2, w1, v1, a, b, c, d, tx, ty, den);
    lemma_affine_diff(w4, v4, w1, v1, a, b, c, d, tx, ty, den);
    lemma_affine_diff(w2, v2, w3, v3, a, b, c, d, tx, ty, den);
    lemma_cross_linear(a, b, c, d, w3.0 - w2.0, w3.1 - w2.1, w1.0 - w2.0, w1.1 - w2.1);
    lemma_cross_linear(a, b, c, d, w2.0 - w1.0, w2.1 - w1.1, w4.0 - w1.0, w4.1 - w1.1);
    lemma_cross_linear(a, b, c, d, w2.0 - w3.0, w2.1 - w3.1, w4.0 - w1.0, w4.1 - w1.1);
    lemma_cross_scaled(den, v3.0 - v2.0, v3.1 - v2.1, v1.0 - v2.0, v1.1 - v2.1);
    lemma_cross_scaled(den, v2.0 - v1.0, v2.1 - v1.1, v4.0 - v1.0, v4.1 - v1.1);
    lemma_cross_scaled(den, v2.0 - v3.0, v2.1 - v3.1, v4.0 - v1.0, v4.1 - v1.1);
    lemma_scaled_parts_as_cross(w1, w2, w3, w4);
    lemma_scaled_parts_as_cross(v1, v2, v3, v4);
    let dv = canonical_divisor(w1, w2, w3);
    let xs = canonical_x_scaled(w1, w2, w3, w4);
    let ys = canonical_y_scaled(w1, w2, w3, w4);
    let dvv = canonical_divisor(v1, v2, v3);
    let xsv = canonical_x_scaled(v1, v2, v3, v4);
    let ysv = canonical_y_scaled(v1, v2, v3, v4);
    assert(sq * dvv == k * dv);
    assert(sq * xsv == k * xs);
    assert(sq * ysv == k * ys);
    let m = abs_int(k);
    assert(m > 0);
    if dv != 0 {
        assert(dvv != 0) by (nonlinear_arith)
            requires
                k != 0,
                dv != 0,
                sq * dvv == k * dv,
        ;
        let (x, y, dd) = if dv > 0 { (xs, ys, dv) } else { (-xs, -ys, -dv) };
        let (xv, yv, ddv) = if dvv > 0 { (xsv, ysv, dvv) } else { (-xsv, -ysv, -dvv) };
        assert(canonical_point(w1, w2, w3, w4) == Some((x, y, dd)));
        assert(canonical_point(v1, v2, v3, v4) == Some((xv, yv, ddv)));
        assert((sq * xv, sq * yv, sq * ddv) == (m * x, m * y, m * dd)) by (nonlinear_arith)
            requires
                sq > 0,
                sq * dvv == k * dv,
                sq * xsv == k * xs,
                sq * ysv == k * ys,
                m == abs_int(k),
                dv != 0,
                (x, y, dd) == (if dv > 0 { (xs, ys, dv) } else { (-xs, -ys, -dv) }),
                (xv, yv, ddv) == (if dvv > 0 { (xsv, ysv, dvv) } else { (-xsv, -ysv, -dvv) }),
        ;
        assert(dd > 0 && ddv > 0);
        lemma_category_scale_invariant(x, y, dd, m);
        lemma_category_scale_invariant(xv, yv, ddv, sq);
    } else {
        assert(dvv == 0) by (nonlinear_arith)
            requires
                dv == 0,
                sq > 0,
                sq * dvv == k * dv,
        ;
    }
}

/// Scaling both factors of a product by `k` scales the product by `k * k`.
proof fn lemma_mul_scale2(k: int, p: int, q: int)
    ensures
        (k * p) * (k * q) == (k * k) * (p * q),
{
    assert((k * p) * (k * q) == (k * k) * (p * q)) by (nonlinear_arith);
}

/// The canonical point of a curve traced in reverse, in terms of the canonical point of the curve: with `d`, `x`
/// and `y` the divisor and the scaled components for `w1`, `w2`, `w3`, `w4`, those for `w4`, `w3`, `w2`, `w1` are
/// `y - d`, `y - x` and `y` (the reversed canonical point is `((Y - X) / (Y - 1), Y / (Y - 1))`).
pub proof fn lemma_reversed_canonical_parts(w1: Coord2, w2: Coord2, w3: Coord2, w4: Coord2)
    ensures
        canonical_divisor(w4, w3, w2) == canonical_y_scaled(w1, w2, w3, w4) - canonical_divisor(w1, w2, w3),
        canonical_x_scaled(w4, w3, w2, w1) == canonical_y_scaled(w1, w2, w3, w4) - canonical_x_scaled(w1, w2, w3, w4),
        canonical_y_scaled(w4, w3, w2, w1) == canonical_y_scaled(w1, w2, w3, w4),
{
    let (a0, a1, b0, b1, c0, c1, e0, e1) = (
        w1.0 as int,
        w1.1 as int,
        w2.0 as int,
        w2.1 as int,
        w3.0 as int,
        w3.1 as int,
        w4.0 as int,
        w4.1 as int,
    );
    assert((b1 - c1) * (e0 - c0) - (b0 - c0) * (e1 - c1) == ((b1 - c1) * (e0 - a0) + (c0 - b0) * (e1 - a1)) - ((c1 - b1) * (
    a0 - b0) - (c0 - b0) * (a1 - b1))) by (nonlinear_arith);
    assert((c1 - e1) * (a0 - e0) + (e0 - c0) * (a1 - e1) == ((b1 - c1) * (e0 - a0) + (c0 - b0) * (e1 - a1)) - ((b1 - a1) * (
    e0 - a0) + (a0 - b0) * (e1 - a1))) by (nonlinear_arith);
    assert((c1 - b1) * (a0 - e0) + (b0 - c0) * (a1 - e1) == (b1 - c1) * (e0 - a0) + (c0 - b0) * (e1 - a1)) by (nonlinear_arith);
}

/// `x^2 - 3x + 3y` for the canonical point `(x / d, y / d)`, times `d^2`: non-negative on the side of the
/// boundary of the loop region where the loop closes at the start of the curve.
pub open spec fn loop_start_scaled(x: int, y: int, d: int) -> int {
    x * x - 3 * x * d + 3 * y * d
}

/// `x^2 + y^2 + xy - 3x` for the canonical point `(x / d, y / d)`, times `d^2`: non-negative on the side of the
/// boundary of the loop region where the loop closes at the end of the curve.
pub open spec fn loop_end_scaled(x: int, y: int, d: int) -> int {
    x * x + y * y + x * y - 3 * x * d
}

/// The canonical point is a loop, away from the cusp tolerance: the curve has a loop exactly here.
pub open spec fn canonical_is_loop(x: int, y: int, d: int) -> bool {
    &&& delta_scaled(x, y, d) <= 0
    &&& x <= d
    &&& loop_start_scaled(x, y, d) >= 0
    &&& loop_end_scaled(x, y, d) >= 0
}

/// Reversing a canonical point `(x, y, d)` to `(y - x, y, y - d)` keeps the cusp expression and swaps the two
/// loop boundary expressions.
proof fn lemma_reversed_loop_expressions(x: int, y: int, d: int)
    ensures
        delta_scaled(y - x, y, y - d) == delta_scaled(x, y, d),
        loop_start_scaled(y - x, y, y - d) == loop_end_scaled(x, y, d),
        loop_end_scaled(y - x, y, y - d) == loop_start_scaled(x, y, d),
        delta_scaled(x - y, -y, d - y) == delta_scaled(x, y, d),
        loop_start_scaled(x - y, -y, d - y) == loop_end_scaled(x, y, d),
        loop_end_scaled(x - y, -y, d - y) == loop_start_scaled(x, y, d),
{
    assert(delta_scaled(y - x, y, y - d) == delta_scaled(x, y, d)) by (nonlinear_arith);
    assert(loop_start_scaled(y - x, y, y - d) == loop_end_scaled(x, y, d)) by (nonlinear_arith);
    assert(loop_end_scaled(y - x, y, y - d) == loop_start_scaled(x, y, d)) by (nonlinear_arith);
    assert(delta_scaled(x - y, -y, d - y) == delta_scaled(x, y, d)) by (nonlinear_arith);
    assert(loop_start_scaled(x - y, -y, d - y) == loop_end_scaled(x, y, d)) by (nonlinear_arith);
    assert(loop_end_scaled(x - y, -y, d - y) == loop_start_scaled(x, y, d)) by (nonlinear_arith);
}

/// Away from the cusp tolerance, a canonical point is classified as a loop exactly when it lies in the loop region.
pub proof fn lemma_loop_category(x: int, y: int, d: int)
    requires
        d > 0,
        !within_epsilon(delta_scaled(x, y, d), d * d),
    ensures
        (category_from_canonical(x, y, d) == CurveCategory::Loop) == canonical_is_loop(x, y, d),
{
    let delta = delta_scaled(x, y, d);
    if delta <= 0 && x > d {
        assert(y <= d) by (nonlinear_arith)
            requires
                delta == x * x - 2 * x * d + 4 * y * d - 3 * d * d,
                delta <= 0,
                d > 0,
        ;
    }
}

/// The canonical point lies within the cusp tolerance (`|cusp expression| <= f64::EPSILON`).
pub open spec fn near_cusp(p: Option<(int, int, int)>) -> bool {
    match p {
        Some((x, y, d)) => within_epsilon(delta_scaled(x, y, d), d * d),
        None => false,
    }
}

/// The regions of the canonical plane with inflections: away from the cusp tolerance, on the inflection side of
/// the cusp curve (`delta > 0`), a canonical point with `y >= 1` is a single inflection whatever its `x`, one with
/// `y < 1` and `x <= 0` is a double inflection, and a double inflection is found nowhere else. A single inflection
/// is found only where `y > 1` (with `x > 1` on the loop side of the cusp curve) or, on the inflection side, where
/// `y >= 1`: away from the cusp tolerance, single inflections are exactly the points on the inflection side with
/// `y >= 1`.
pub proof fn lemma_inflection_categories(x: int, y: int, d: int)
    requires
        d > 0,
        !within_epsilon(delta_scaled(x, y, d), d * d),
    ensures
        delta_scaled(x, y, d) > 0 && y >= d ==> category_from_canonical(x, y, d) == CurveCategory::SingleInflectionPoint,
        delta_scaled(x, y, d) > 0 && y < d && x <= 0 ==> category_from_canonical(x, y, d)
            == CurveCategory::DoubleInflectionPoint,
        category_from_canonical(x, y, d) == CurveCategory::DoubleInflectionPoint ==> delta_scaled(x, y, d) > 0 && y < d && x
            <= 0,
        (category_from_canonical(x, y, d) == CurveCategory::SingleInflectionPoint) == (delta_scaled(x, y, d) > 0 && y >= d),
{
    let delta = delta_scaled(x, y, d);
    if delta <= 0 && x > d {
        assert(y <= d) by (nonlinear_arith)
            requires
                delta == x * x - 2 * x * d + 4 * y * d - 3 * d * d,
                delta <= 0,
                d > 0,
        ;
    }
}

/// Cusps are found only within the tolerance of the cusp curve (`delta = 0`), and there exactly where `x <= 1`.
pub proof fn lemma_cusp_category(x: int, y: int, d: int)
    requires
        d > 0,
    ensures
        (category_from_canonical(x, y, d) == CurveCategory::Cusp) == (within_epsilon(delta_scaled(x, y, d), d * d) && x <= d),
{
}

/// A parabolic curve is found only on the inflection side of the cusp curve, with `0 < x`, `y < 1`, and the
/// canonical point within the tolerance of `(3, 0)`, where the cubic is a quadratic.
pub proof fn lemma_parabolic_category(x: int, y: int, d: int)
    requires
        d > 0,
    ensures
        category_from_canonical(x, y, d) == CurveCategory::Parabolic ==> delta_scaled(x, y, d) > 0 && 0 < x && y < d
            && within_epsilon(x - 3 * d, d) && within_epsilon(y, d),
        !within_epsilon(delta_scaled(x, y, d), d * d) && delta_scaled(x, y, d) > 0 && 0 < x && y < d && within_epsilon(
            x - 3 * d,
            d,
        ) && within_epsilon(y, d) ==> category_from_canonical(x, y, d) == CurveCategory::Parabolic,
{
}

/// Four control points on one line make a line (or a point, when they all coincide): such a curve has no canonical
/// form, whichever way it is traced, and is classified by its degenerate cases.
pub proof fn lemma_collinear_category(w1: Coord2, w2: Coord2, w3: Coord2, w4: Coord2, p: Coord2, q: Coord2)
    requires
        p != q,
        cross_from(p, q, w1) == 0,
        cross_from(p, q, w2) == 0,
        cross_from(p, q, w3) == 0,
        cross_from(p, q, w4) == 0,
    ensures
        cubic_category(w1, w2, w3, w4) == (if w1 == w2 && w2 == w3 && w3 == w4 {
            CurveCategory::Point
        } else {
            CurveCategory::Linear
        }),
{
    lemma_collinear_cross(p, q, w2, w1, w3);
    lemma_collinear_cross(p, q, w3, w4, w2);
    lemma_collinear_cross(p, q, w1, w3, w4);
    assert(canonical_divisor(w1, w2, w3) == 0);
    assert(canonical_divisor(w4, w3, w2) == 0);
    lemma_near_small_is_equal(w2, w3);
    lemma_near_small_is_equal(w2, w1);
    lemma_near_small_is_equal(w3, w4);
    if w2 == w3 && w2 != w1 && w3 != w4 {
        assert(distance_squared(w1, w3) > 0) by (nonlinear_arith)
            requires
                w1 != w3,
                distance_squared(w1, w3) == (w1.0 - w3.0) * (w1.0 - w3.0) + (w1.1 - w3.1) * (w1.1 - w3.1),
        ;
        assert(near_line_small(w1, w3, w4));
    }
}

/// A curve whose two middle control points coincide, with its end points elsewhere and the first control point
/// away from the line through the others, has no canonical form and is classified as a double inflection.
pub proof fn lemma_coincident_middle_category(w1: Coord2, w2: Coord2, w3: Coord2, w4: Coord2)
    requires
        w2 == w3,
        w1 != w2,
        w3 != w4,
        !near_line_small(w1, w3, w4),
    ensures
        cubic_category(w1, w2, w3, w4) == CurveCategory::DoubleInflectionPoint,
{
    assert(canonical_divisor(w1, w2, w3) == 0) by (nonlinear_arith)
        requires
            w2 == w3,
            canonical_divisor(w1, w2, w3) == (w3.1 - w2.1) * (w1.0 - w2.0) - (w3.0 - w2.0) * (w1.1 - w2.1),
    ;
    lemma_near_small_is_equal(w2, w3);
    lemma_near_small_is_equal(w2, w1);
    lemma_near_small_is_equal(w3, w4);
}

/// Three points on the line through `p` and `q` (distinct): the cross product of `b - a` and `c - a` is zero.
proof fn lemma_collinear_cross(p: Coord2, q: Coord2, a: Coord2, b: Coord2, c: Coord2)
    requires
        p != q,
        cross_from(p, q, a) == 0,
        cross_from(p, q, b) == 0,
        cross_from(p, q, c) == 0,
    ensures
        cross_from(a, b, c) == 0,
        (c.1 - a.1) * (b.0 - a.0) - (c.0 - a.0) * (b.1 - a.1) == 0,
{
    let (d0, d1) = ((q.0 - p.0) as int, (q.1 - p.1) as int);
    let (u0, u1) = ((b.0 - a.0) as int, (b.1 - a.1) as int);
    let (v0, v1) = ((c.0 - a.0) as int, (c.1 - a.1) as int);
    // Each point's offset from `p` is parallel to the line's direction, and so are differences of them
    assert(d0 * u1 == d1 * u0) by (nonlinear_arith)
        requires
            d0 * (a.1 - p.1) - d1 * (a.0 - p.0) == 0,
            d0 * (b.1 - p.1) - d1 * (b.0 - p.0) == 0,
            u0 == b.0 - a.0,
            u1 == b.1 - a.1,
    ;
    assert(d0 * v1 == d1 * v0) by (nonlinear_arith)
        requires
            d0 * (a.1 - p.1) - d1 * (a.0 - p.0) == 0,
            d0 * (c.1 - p.1) - d1 * (c.0 - p.0) == 0,
            v0 == c.0 - a.0,
            v1 == c.1 - a.1,
    ;
    assert(d0 * (u0 * v1 - u1 * v0) == 0) by (nonlinear_arith)
        requires
            d0 * u1 == d1 * u0,
            d0 * v1 == d1 * v0,
    ;
    assert(d1 * (u0 * v1 - u1 * v0) == 0) by (nonlinear_arith)
        requires
            d0 * u1 == d1 * u0,
            d0 * v1 == d1 * v0,
    ;
    assert(d0 != 0 || d1 != 0);
    assert(u0 * v1 - u1 * v0 == 0) by (nonlinear_arith)
        requires
            d0 * (u0 * v1 - u1 * v0) == 0,
            d1 * (u0 * v1 - u1 * v0) == 0,
            d0 != 0 || d1 != 0,
    ;
    assert(v1 * u0 - v0 * u1 == 0) by (nonlinear_arith)
        requires
            u0 * v1 - u1 * v0 == 0,
    ;
}

/// A curve that has a loop still has one when traced in reverse: when both the curve and its reverse have a
/// canonical form and neither canonical point lies within the cusp tolerance, the curve is classified as a loop
/// exactly when its reverse is. (Other categories can depend on the direction the curve is traced in.)
pub proof fn lemma_loop_reverse_invariant(w1: Coord2, w2: Coord2, w3: Coord2, w4: Coord2)
    requires
        canonical_point(w1, w2, w3, w4) is Some,
        canonical_point(w4, w3, w2, w1) is Some,
        !near_cusp(canonical_point(w1, w2, w3, w4)),
        !near_cusp(canonical_point(w4, w3, w2, w1)),
    ensures
        (cubic_category(w1, w2, w3, w4) == CurveCategory::Loop) == (cubic_category(w4, w3, w2, w1) == CurveCategory::Loop),
{
    lemma_reversed_canonical_parts(w1, w2, w3, w4);
    let (x, y, d) = canonical_point(w1, w2, w3, w4)->0;
    let (x2, y2, d2) = canonical_point(w4, w3, w2, w1)->0;
    assert(canonical_point(w1, w2, w3, w4) == Some((x, y, d)));
    assert(canonical_point(w4, w3, w2, w1) == Some((x2, y2, d2)));
    lemma_loop_category(x, y, d);
    lemma_loop_category(x2, y2, d2);
    let dv = canonical_divisor(w1, w2, w3);
    // The reversed point is `(y - x, y, y - d)` up to the sign of its divisor
    if dv > 0 {
        assert((x, y, d) == (canonical_x_scaled(w1, w2, w3, w4), canonical_y_scaled(w1, w2, w3, w4), dv));
    } else {
        assert((x, y, d) == (-canonical_x_scaled(w1, w2, w3, w4), -canonical_y_scaled(w1, w2, w3, w4), -dv));
    }
    assert((x2, y2, d2) == (y - x, y, y - d) || (x2, y2, d2) == (x - y, -y, d - y));
    lemma_reversed_loop_expressions(x, y, d);
    let delta = delta_scaled(x, y, d);
    if delta <= 0 {
        // On the loop side of the cusp curve the point lies below `y = d`
        assert(y < d) by (nonlinear_arith)
            requires
                delta == x * x - 2 * x * d + 4 * y * d - 3 * d * d,
                delta <= 0,
                d > 0,
                y != d,
        ;
        assert((x2, y2, d2) == (x - y, -y, d - y));
    }
}

/// For `k * a <= k * b` with `k > 0`: the comparison holds exactly when `a <= b`.
proof fn lemma_scale_le(k: int, a: int, b: int)
    requires
        k > 0,
    ensures
        (k * a <= k * b) == (a <= b),
        (k * a < k * b) == (a < b),
        (k * a == k * b) == (a == b),
{
    if a <= b {
        assert(k * a <= k * b) by (nonlinear_arith)
            requires
                k > 0,
                a <= b,
        ;
    } else {
        assert(k * a > k * b) by (nonlinear_arith)
            requires
                k > 0,
                a > b,
        ;
    }
    if a < b {
        assert(k * a < k * b) by (nonlinear_arith)
            requires
                k > 0,
                a < b,
        ;
    }
}

/// The category of a canonical point depends only on the fraction it stands for: multiplying its parts by a
/// positive factor leaves the category unchanged.
proof fn lemma_category_scale_invariant(x: int, y: int, d: int, k: int)
    requires
        d > 0,
        k > 0,
    ensures
        category_from_canonical(k * x, k * y, k * d) == category_from_canonical(x, y, d),
{
    let kk = k * k;
    assert(kk > 0) by (nonlinear_arith)
        requires
            k > 0,
            kk == k * k,
    ;
    let delta = delta_scaled(x, y, d);
    let (xx, xd, yd, dd, yy, xy) = (x * x, x * d, y * d, d * d, y * y, x * y);
    lemma_mul_scale2(k, x, x);
    lemma_mul_scale2(k, x, d);
    lemma_mul_scale2(k, y, d);
    lemma_mul_scale2(k, d, d);
    lemma_mul_scale2(k, y, y);
    lemma_mul_scale2(k, x, y);
    assert(2 * (k * x) * (k * d) == 2 * ((k * x) * (k * d))) by (nonlinear_arith);
    assert(4 * (k * y) * (k * d) == 4 * ((k * y) * (k * d))) by (nonlinear_arith);
    assert(3 * (k * d) * (k * d) == 3 * ((k * d) * (k * d))) by (nonlinear_arith);
    assert(3 * (k * x) * (k * d) == 3 * ((k * x) * (k * d))) by (nonlinear_arith);
    assert(3 * (k * y) * (k * d) == 3 * ((k * y) * (k * d))) by (nonlinear_arith);
    assert(2 * x * d == 2 * xd && 4 * y * d == 4 * yd && 3 * d * d == 3 * dd && 3 * x * d == 3 * xd && 3 * y * d == 3 * yd)
        by (nonlinear_arith)
        requires
            xd == x * d,
            yd == y * d,
            dd == d * d,
    ;
    assert(kk * (xx - 2 * xd + 4 * yd - 3 * dd) == kk * xx - 2 * (kk * xd) + 4 * (kk * yd) - 3 * (kk * dd)) by (nonlinear_arith);
    assert(delta_scaled(k * x, k * y, k * d) == kk * delta);
    assert((k * d) * (k * d) == kk * (d * d));
    assert(abs_int(kk * delta) == kk * abs_int(delta)) by (nonlinear_arith)
        requires
            kk > 0,
    ;
    assert(epsilon_reciprocal() * (kk * abs_int(delta)) == kk * (epsilon_reciprocal() * abs_int(delta))) by (nonlinear_arith);
    lemma_scale_le(kk, epsilon_reciprocal() * abs_int(delta), d * d);
    lemma_scale_le(k, x, d);
    lemma_scale_le(k, d, y);
    lemma_scale_le(k, d, x);
    lemma_scale_le(k, x, 0);
    lemma_scale_le(kk, delta, 0);
    lemma_scale_le(k, 0, x);
    lemma_scale_le(k, y, d);
    let e1 = x * x - 3 * x * d + 3 * y * d;
    assert(kk * (xx - 3 * xd + 3 * yd) == kk * xx - 3 * (kk * xd) + 3 * (kk * yd)) by (nonlinear_arith);
    assert((k * x) * (k * x) - 3 * (k * x) * (k * d) + 3 * (k * y) * (k * d) == kk * e1);
    lemma_scale_le(kk, 0, e1);
    let e2 = x * x + y * y + x * y - 3 * x * d;
    assert(kk * (xx + yy + xy - 3 * xd) == kk * xx + kk * yy + kk * xy - 3 * (kk * xd)) by (nonlinear_arith);
    assert((k * x) * (k * x) + (k * y) * (k * y) + (k * x) * (k * y) - 3 * (k * x) * (k * d) == kk * e2);
    lemma_scale_le(kk, 0, e2);
    assert(k * x - 3 * (k * d) == k * (x - 3 * d)) by (nonlinear_arith);
    assert(abs_int(k * (x - 3 * d)) == k * abs_int(x - 3 * d)) by (nonlinear_arith)
        requires
            k > 0,
    ;
    assert(abs_int(k * y) == k * abs_int(y)) by (nonlinear_arith)
        requires
            k > 0,
    ;
    assert(epsilon_reciprocal() * (k * abs_int(x - 3 * d)) == k * (epsilon_reciprocal() * abs_int(x - 3 * d))) by (nonlinear_arith);
    assert(epsilon_reciprocal() * (k * abs_int(y)) == k * (epsilon_reciprocal() * abs_int(y))) by (nonlinear_arith);
    lemma_scale_le(k, epsilon_reciprocal() * abs_int(x - 3 * d), d);
    lemma_scale_le(k, epsilon_reciprocal() * abs_int(y), d);
    assert(kk * 0 == 0);
    assert(k * 0 == 0);
}

/// Computes the affine transform that moves `w1` to (0, 0), `w2` to (0, 1) and `w3` to (1, 1), if there is
/// one. Bezier curves keep their properties under affine transforms, so this yields an equivalent curve whose
/// only free point is the image of the fourth control point. `None` in the degenerate cases where two of the
/// points overlap or the three are collinear.
pub fn canonical_curve_transform(w1: &Coord2, w2: &Coord2, w3: &Coord2) -> (r: Option<CanonicalTransform>)
    requires
        coord_in_limit(*w1),
        coord_in_limit(*w2),
        coord_in_limit(*w3),
    ensures
        r is None <==> canonical_divisor(*w1, *w2, *w3) == 0,
        r matches Some(t) ==> is_canonical_transform(t, *w1, *w2, *w3),
        r matches Some(t) ==> 0 < t.denom <= 0x2000_0000_0000_0000,
        r matches Some(t) ==> -0x4000_0000 <= t.a <= 0x4000_0000 && -0x4000_0000 <= t.b <= 0x4000_0000
            && -0x4000_0000 <= t.d <= 0x4000_0000 && -0x4000_0000 <= t.e <= 0x4000_0000
            && -0x1000_0000_0000_0000 <= t.c <= 0x1000_0000_0000_0000
            && -0x1000_0000_0000_0000 <= t.f <= 0x1000_0000_0000_0000,
{
    let (x0, y0) = (w1.0 as i64, w1.1 as i64);
    let (x1, y1) = (w2.0 as i64, w2.1 as i64);
    let (x2, y2) = (w3.0 as i64, w3.1 as i64);
    let ghost lim: int = 0x4000_0000;

    proof {
        lemma_product_bound((y2 - y1) as int, (x0 - x1) as int, lim, lim);
        lemma_product_bound((x2 - x1) as int, (y0 - y1) as int, lim, lim);
    }

    let divisor = (y2 - y1) * (x0 - x1) - (x2 - x1) * (y0 - y1);
    if divisor == 0 {
        // Degenerate case (points overlap or line up)
        return None;
    }

    let positive = divisor > 0;
    let a = if positive { y1 - y0 } else { y0 - y1 };
    let b = if positive { x0 - x1 } else { x1 - x0 };
    let d = if positive { y1 - y2 } else { y2 - y1 };
    let e = if positive { x2 - x1 } else { x1 - x2 };
    let denom = if positive { divisor } else { -divisor };

    proof {
        lemma_product_bound(a as int, x0 as int, lim, 0x2000_0000);
        lemma_product_bound(b as int, y0 as int, lim, 0x2000_0000);
        lemma_product_bound(d as int, x0 as int, lim, 0x2000_0000);
        lemma_product_bound(e as int, y0 as int, lim, 0x2000_0000);
    }

    let c = -(a * x0 + b * y0);
    let f = -(d * x0 + e * y0);
    let t = CanonicalTransform { a, b, c, d, e, f, denom };

    proof {
        assert forall|p: Coord2| #![trigger transform_x_scaled(t, p)]
            transform_x_scaled(t, p) == (if positive { canonical_x_scaled(*w1, *w2, *w3, p) } else { -canonical_x_scaled(*w1, *w2, *w3, p) }) by {
            let (px, py) = (p.0 as int, p.1 as int);
            if positive {
                assert(a * px + b * py + c == (y1 - y0) * (px - x0) + (x0 - x1) * (py - y0)) by (nonlinear_arith)
                    requires a == y1 - y0, b == x0 - x1, c == -(a * x0 + b * y0);
            } else {
                assert(a * px + b * py + c == -((y1 - y0) * (px - x0) + (x0 - x1) * (py - y0))) by (nonlinear_arith)
                    requires a == y0 - y1, b == x1 - x0, c == -(a * x0 + b * y0);
            }
        }
        assert forall|p: Coord2| #![trigger transform_y_scaled(t, p)]
            transform_y_scaled(t, p) == (if positive { canonical_y_scaled(*w1, *w2, *w3, p) } else { -canonical_y_scaled(*w1, *w2, *w3, p) }) by {
            let (px, py) = (p.0 as int, p.1 as int);
            if positive {
                assert(d * px + e * py + f == (y1 - y2) * (px - x0) + (x2 - x1) * (py - y0)) by (nonlinear_arith)
                    requires d == y1 - y2, e == x2 - x1, f == -(d * x0 + e * y0);
            } else {
                assert(d * px + e * py + f == -((y1 - y2) * (px - x0) + (x2 - x1) * (py - y0))) by (nonlinear_arith)
                    requires d == y2 - y1, e == x1 - x2, f == -(d * x0 + e * y0);
            }
        }
        assert(canonical_divisor(*w1, *w2, *w3) == divisor);
        assert(is_canonical_transform(t, *w1, *w2, *w3));
    }

    Some(t)
}

/// Computes the canonical point of the curve `w1`, `w2`, `w3`, `w4`: the image of `w4` under the affine
/// transform that moves `w1` to (0, 0), `w2` to (0, 1) and `w3` to (1, 1). `None` in the degenerate case
/// where `w1`, `w2` and `w3` are collinear or two of them coincide.
pub fn to_canonical_curve(w1: &Coord2, w2: &Coord2, w3: &Coord2, w4: &Coord2) -> (r: Option<CanonicalPoint>)
    requires
        control_points_in_limit(*w1, *w2, *w3, *w4),
    ensures
        match r {
            None => canonical_point(*w1, *w2, *w3, *w4) is None,
            Some(p) => canonical_point(*w1, *w2, *w3, *w4) == Some((p.x_num as int, p.y_num as int, p.denom as int))
                && canonical_point_in_limit(p),
        },
{
    // Retrieve the affine transform for the curve
    if let Some(t) = canonical_curve_transform(w1, w2, w3) {
        // Calculate the free point w4 based on the transform
        let x4 = w4.0 as i64;
        let y4 = w4.1 as i64;
        proof {
            lemma_product_bound(t.a as int, x4 as int, 0x4000_0000, 0x2000_0000);
            lemma_product_bound(t.b as int, y4 as int, 0x4000_0000, 0x2000_0000);
            lemma_product_bound(t.d as int, x4 as int, 0x4000_0000, 0x2000_0000);
            lemma_product_bound(t.e as int, y4 as int, 0x4000_0000, 0x2000_0000);
        }
        let x = t.a * x4 + t.b * y4 + t.c;
        let y = t.d * x4 + t.e * y4 + t.f;
        proof {
            assert(transform_x_scaled(t, *w4) == x);
            assert(transform_y_scaled(t, *w4) == y);
            let ghost dv = canonical_divisor(*w1, *w2, *w3);
            let ghost xs = canonical_x_scaled(*w1, *w2, *w3, *w4);
            let ghost ys = canonical_y_scaled(*w1, *w2, *w3, *w4);
            let ghost lim: int = 0x4000_0000;
            lemma_product_bound((w2.1 - w1.1) as int, (w4.0 - w1.0) as int, lim, lim);
            lemma_product_bound((w1.0 - w2.0) as int, (w4.1 - w1.1) as int, lim, lim);
            lemma_product_bound((w2.1 - w3.1) as int, (w4.0 - w1.0) as int, lim, lim);
            lemma_product_bound((w3.0 - w2.0) as int, (w4.1 - w1.1) as int, lim, lim);
            assert(is_canonical_transform(t, *w1, *w2, *w3));
            if dv > 0 {
                assert(x == xs && y == ys && t.denom == dv);
            } else {
                assert(x == -xs && y == -ys && t.denom == -dv);
            }
        }
        Some(CanonicalPoint { x_num: x as i128, y_num: y as i128, denom: t.denom as i128 })
    } else {
        assert(canonical_divisor(*w1, *w2, *w3) == 0);
        None
    }
}

/// Returns the category of a curve given its canonical point
pub fn characterize_from_canonical_point(b4: CanonicalPoint) -> (r: CurveCategory)
    requires
        canonical_point_in_limit(b4),
    ensures
        r == category_from_canonical(b4.x_num as int, b4.y_num as int, b4.denom as int),
{
    let x = b4.x_num;
    let y = b4.y_num;
    let d = b4.denom;
    let ghost lim = canonical_part_limit();
    let eps_recip: i128 = 4503599627370496;

    proof {
        lemma_product_bound(x as int, x as int, lim, lim);
        lemma_product_bound(x as int, d as int, lim, lim);
        lemma_product_bound(y as int, d as int, lim, lim);
        lemma_product_bound(d as int, d as int, lim, lim);
        lemma_product_bound(y as int, y as int, lim, lim);
        lemma_product_bound(x as int, y as int, lim, lim);
    }

    let xx = x * x;
    let xd = x * d;
    let yd = y * d;
    let dd = d * d;
    let yy = y * y;
    let xy = x * y;

    proof {
        assert(2 * x * d == 2 * (x * d)) by (nonlinear_arith);
        assert(4 * y * d == 4 * (y * d)) by (nonlinear_arith);
        assert(3 * d * d == 3 * (d * d)) by (nonlinear_arith);
        assert(3 * x * d == 3 * (x * d)) by (nonlinear_arith);
        assert(3 * y * d == 3 * (y * d)) by (nonlinear_arith);
        assert(dd >= 0) by (nonlinear_arith)
            requires
                dd == d * d,
        ;
    }

    let delta = xx - 2 * xd + 4 * yd - 3 * dd;
    let abs_delta = if delta < 0 { -delta } else { delta };

    proof {
        lemma_mul_le_iff_le_div(abs_delta as int, dd as int, epsilon_reciprocal());
    }

    if abs_delta <= dd / eps_recip {
        // Curve has a cusp (but it may not be in the range 0 <= t <= 1)
        if x <= d {
            CurveCategory::Cusp
        } else {
            CurveCategory::Arch
        }
    } else if delta <= 0 {
        // Curve has a loop (but it may not be in the range 0 <= t <= 1)
        if x > d {
            if y > d {
                CurveCategory::SingleInflectionPoint
            } else {
                CurveCategory::Arch
            }
        } else if xx - 3 * xd + 3 * yd >= 0 {
            if xx + yy + xy - 3 * xd >= 0 {
                CurveCategory::Loop
            } else {
                // Loop is outside of 0 <= t <= 1 (the double point has t < 0)
                CurveCategory::Arch
            }
        } else {
            // Loop is outside of 0 <= t <= 1 (the double point has t > 1)
            CurveCategory::Arch
        }
    } else {
        if y >= d {
            CurveCategory::SingleInflectionPoint
        } else if x <= 0 {
            CurveCategory::DoubleInflectionPoint
        } else {
            let off_x = x - 3 * d;
            let abs_off_x = if off_x < 0 { -off_x } else { off_x };
            let abs_y = if y < 0 { -y } else { y };
            proof {
                lemma_mul_le_iff_le_div(abs_off_x as int, d as int, epsilon_reciprocal());
                lemma_mul_le_iff_le_div(abs_y as int, d as int, epsilon_reciprocal());
            }
            if abs_off_x <= d / eps_recip && abs_y <= d / eps_recip {
                CurveCategory::Parabolic
            } else {
                CurveCategory::Arch
            }
        }
    }
}

/// True if `p` lies within `SMALL_DISTANCE` of the line through `a` and `b`
fn point_near_line(a: &Coord2, b: &Coord2, p: &Coord2) -> (r: bool)
    requires
        coord_in_limit(*a),
        coord_in_limit(*b),
        coord_in_limit(*p),
    ensures
        r == near_line_small(*a, *b, *p),
{
    let dx = b.0 as i64 - a.0 as i64;
    let dy = b.1 as i64 - a.1 as i64;
    let px = p.0 as i64 - a.0 as i64;
    let py = p.1 as i64 - a.1 as i64;
    let ghost lim: int = 0x4000_0000;
    proof {
        lemma_product_bound(dx as int, py as int, lim, lim);
        lemma_product_bound(dy as int, px as int, lim, lim);
        lemma_product_bound(dx as int, dx as int, lim, lim);
        lemma_product_bound(dy as int, dy as int, lim, lim);
    }
    let cross = dx * py - dy * px;
    let len_sq = (dx * dx + dy * dy) as i128;
    proof {
        lemma_product_bound(cross as int, cross as int, 0x8000_0000_0000_0000, 0x8000_0000_0000_0000);
    }
    let cross_sq = (cross as i128) * (cross as i128);
    proof {
        assert(cross_sq >= 0) by (nonlinear_arith)
            requires
                cross_sq == cross * cross,
        ;
        assert(len_sq >= 0) by (nonlinear_arith)
            requires
                len_sq == dx * dx + dy * dy,
        ;
        assert(cross_from(*a, *b, *p) == cross);
        assert(distance_squared(*a, *b) == len_sq) by (nonlinear_arith)
            requires
                dx == b.0 - a.0,
                dy == b.1 - a.1,
                len_sq == dx * dx + dy * dy,
        ;
    }
    if len_sq == 0 {
        false
    } else {
        proof {
            lemma_mul_le_iff_le_div(cross_sq as int, (len_sq - 1) as int, 1_000_000);
        }
        cross_sq <= (len_sq - 1) / 1_000_000
    }
}

/// Determines the characteristics of a particular bezier curve: whether or not it is an arch, or changes directions
/// (has inflection points), or self-intersects (has a loop)
pub fn characterize_cubic_bezier(w1: &Coord2, w2: &Coord2, w3: &Coord2, w4: &Coord2) -> (r: CurveCategory)
    requires
        control_points_in_limit(*w1, *w2, *w3, *w4),
    ensures
        r == cubic_category(*w1, *w2, *w3, *w4),
{
    // b4 is the end point of an equivalent curve with the other control points fixed at (0, 0), (0, 1) and (1, 1)
    let b4 = to_canonical_curve(w1, w2, w3, w4);

    if let Some(b4) = b4 {
        characterize_from_canonical_point(b4)
    } else {
        // Degenerate case: there's no canonical form for this curve
        if w2.is_near_to_small(w3) {
            if w2.is_near_to_small(w1) {
                if w3.is_near_to_small(w4) {
                    // All 4 control points at the same position
                    CurveCategory::Point
                } else {
                    // 3 control points at the same position (makes a line)
                    CurveCategory::Linear
                }
            } else if w3.is_near_to_small(w4) {
                // 3 control points at the same position (makes a line)
                CurveCategory::Linear
            } else if point_near_line(w1, w3, w4) {
                // w1, w3 and w4 are collinear (and w2 is the same as w3)
                CurveCategory::Linear
            } else {
                // Inflections at t=0 and t=1 (both control points in the same place)
                CurveCategory::DoubleInflectionPoint
            }
        } else {
            // w1, w2, w3 are collinear (w2 and w3 do not overlap): classify the reversed curve
            let b1 = to_canonical_curve(w4, w3, w2, w1);

            if let Some(b1) = b1 {
                characterize_from_canonical_point(b1)
            } else {
                // All four points are collinear
                CurveCategory::Linear
            }
        }
    }
}

/// Discovers the 'character' of a particular bezier curve, returning a value indicating what kinds of features
/// it has (for example, whether it has a loop or a cusp)
pub fn characterize_curve(curve: &Curve) -> (r: CurveCategory)
    requires
        control_points_in_limit(curve.start_point, curve.control_points.0, curve.control_points.1, curve.end_point),
    ensures
        r == cubic_category(curve.start_point, curve.control_points.0, curve.control_points.1, curve.end_point),
{
    let start_point = curve.start_point();
    let (cp1, cp2) = curve.control_points();
    let end_point = curve.end_point();

    characterize_cubic_bezier(&start_point, &cp1, &cp2, &end_point)
}

} // verus!
