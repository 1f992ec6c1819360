//! Cubic Bézier curves and axis-aligned bounding boxes.

use vstd::prelude::*;

use crate::geo::{Coord2, min_int, max_int};

verus! {

/// Represents a Bezier curve
#[derive(Clone, Copy, Debug, PartialEq, Eq)]
pub struct Curve {
    pub start_point: Coord2,
    pub end_point: Coord2,
    pub control_points: (Coord2, Coord2),
}

/// An axis-aligned bounding box given by its minimum and maximum corners
#[derive(Clone, Copy, Debug, PartialEq, Eq, Structural)]
pub struct Bounds {
    pub min: Coord2,
    pub max: Coord2,
}

/// The point lies inside the box (edges included).
pub open spec fn bounds_contains(b: Bounds, p: Coord2) -> bool {
    b.min.0 <= p.0 <= b.max.0 && b.min.1 <= p.1 <= b.max.1
}

/// The smallest box containing both boxes.
pub open spec fn union_spec(a: Bounds, b: Bounds) -> Bounds {
    Bounds {
        min: Coord2(min_int(a.min.0 as int, b.min.0 as int) as i32, min_int(a.min.1 as int, b.min.1 as int) as i32),
        max: Coord2(max_int(a.max.0 as int, b.max.0 as int) as i32, max_int(a.max.1 as int, b.max.1 as int) as i32),
    }
}

/// The smallest box containing the four control points of a curve.
pub open spec fn fast_bounds_spec(c: Curve) -> Bounds {
    let (s, e, c1, c2) = (c.start_point, c.end_point, c.control_points.0, c.control_points.1);
    Bounds {
        min: Coord2(
            min_int(min_int(min_int(s.0 as int, e.0 as int), c1.0 as int), c2.0 as int) as i32,
            min_int(min_int(min_int(s.1 as int, e.1 as int), c1.1 as int), c2.1 as int) as i32,
        ),
        max: Coord2(
            max_int(max_int(max_int(s.0 as int, e.0 as int), c1.0 as int), c2.0 as int) as i32,
            max_int(max_int(max_int(s.1 as int, e.1 as int), c1.1 as int), c2.1 as int) as i32,
        ),
    }
}

/// The same curve traversed in the other direction: start and end swapped, control points in the other order.
pub open spec fn reversed_curve(c: Curve) -> Curve {
    Curve {
        start_point: c.end_point,
        end_point: c.start_point,
        control_points: (c.control_points.1, c.control_points.0),
    }
}

/// The cubic Bernstein combination of `p0`, `p1`, `p2`, `p3` with weights `s^3`, `3 s^2 t`, `3 s t^2`, `t^3`: a
/// coordinate of the point at parameter `t / (s + t)` of the curve with those control values, times `(s + t)^3`.
pub open spec fn bernstein(p0: int, p1: int, p2: int, p3: int, s: int, t: int) -> int {
    s * s * s * p0 + 3 * s * s * t * p1 + 3 * s * t * t * p2 + t * t * t * p3
}

/// The x coordinate of the point at parameter `t / (s + t)` of a curve, times `(s + t)^3`.
pub open spec fn curve_x_at(c: Curve, s: int, t: int) -> int {
    bernstein(c.start_point.0 as int, c.control_points.0.0 as int, c.control_points.1.0 as int, c.end_point.0 as int, s, t)
}

/// The y coordinate of the point at parameter `t / (s + t)` of a curve, times `(s + t)^3`.
pub open spec fn curve_y_at(c: Curve, s: int, t: int) -> int {
    bernstein(c.start_point.1 as int, c.control_points.0.1 as int, c.control_points.1.1 as int, c.end_point.1 as int, s, t)
}

/// Swapping the weights of a Bernstein combination is the same as taking its control values in reverse order.
proof fn lemma_bernstein_reverse(p0: int, p1: int, p2: int, p3: int, s: int, t: int)
    ensures
        bernstein(p3, p2, p1, p0, s, t) == bernstein(p0, p1, p2, p3, t, s),
{
    assert(bernstein(p3, p2, p1, p0, s, t) == bernstein(p0, p1, p2, p3, t, s)) by (nonlinear_arith);
}

/// A reversed curve is the same curve traced the other way: for every parameter, the point of the reversed curve
/// at `t` is the point of the curve at `1 - t` (with the parameter given as `t / (s + t)`, the weights swap).
pub proof fn lemma_reverse_traces_backwards(c: Curve, s: int, t: int)
    ensures
        curve_x_at(reversed_curve(c), s, t) == curve_x_at(c, t, s),
        curve_y_at(reversed_curve(c), s, t) == curve_y_at(c, t, s),
{
    lemma_bernstein_reverse(c.start_point.0 as int, c.control_points.0.0 as int, c.control_points.1.0 as int, c.end_point.0 as int, s, t);
    lemma_bernstein_reverse(c.start_point.1 as int, c.control_points.0.1 as int, c.control_points.1.1 as int, c.end_point.1 as int, s, t);
}

/// Reversing a curve twice gives back the curve, and a curve and its reverse have the same fast bounding box.
pub proof fn lemma_reverse_curve(c: Curve)
    ensures
        reversed_curve(reversed_curve(c)) == c,
        fast_bounds_spec(reversed_curve(c)) == fast_bounds_spec(c),
{
}

impl Bounds {
    /// Creates a bounding box from its minimum and maximum corners
    pub fn from_min_max(min: Coord2, max: Coord2) -> (r: Bounds)
        ensures
            r == (Bounds { min, max }),
    {
        Bounds { min, max }
    }

    /// The minimum corner
    pub fn min(&self) -> (r: Coord2)
        ensures
            r == self.min,
    {
        self.min
    }

    /// The maximum corner
    pub fn max(&self) -> (r: Coord2)
        ensures
            r == self.max,
    {
        self.max
    }

    /// The smallest box containing this box and another
    pub fn union_bounds(self, target: Bounds) -> (r: Bounds)
        ensures
            r == union_spec(self, target),
    {
        Bounds {
            min: Coord2::from_smallest_components(self.min, target.min),
            max: Coord2::from_biggest_components(self.max, target.max),
        }
    }
}

impl Curve {
    /// Creates a new bezier curve from its start point, its two control points and its end point
    pub fn from_points(start: Coord2, control_points: (Coord2, Coord2), end: Coord2) -> (r: Curve)
        ensures
            r == (Curve { start_point: start, end_point: end, control_points }),
    {
        Curve { start_point: start, control_points, end_point: end }
    }

    /// The start point of this curve
    pub fn start_point(&self) -> (r: Coord2)
        ensures
            r == self.start_point,
    {
        self.start_point
    }

    /// The end point of this curve
    pub fn end_point(&self) -> (r: Coord2)
        ensures
            r == self.end_point,
    {
        self.end_point
    }

    /// The control points in this curve
    pub fn control_points(&self) -> (r: (Coord2, Coord2))
        ensures
            r == self.control_points,
    {
        self.control_points
    }

    /// The start point, control points and end point of this curve
    pub fn all_points(&self) -> (r: (Coord2, (Coord2, Coord2), Coord2))
        ensures
            r == (self.start_point, self.control_points, self.end_point),
    {
        (self.start_point, self.control_points, self.end_point)
    }

    /// Reverses the direction of this curve
    pub fn reverse(self) -> (r: Curve)
        ensures
            r == reversed_curve(self),
    {
        let (cp1, cp2) = self.control_points;
        Curve::from_points(self.end_point, (cp2, cp1), self.start_point)
    }

    /// Faster but less accurate bounding box for a curve: the box around the control polygon,
    /// which contains the curve but may be larger than necessary
    pub fn fast_bounding_box(&self) -> (r: Bounds)
        ensures
            r == fast_bounds_spec(*self),
    {
        let start = self.start_point;
        let end = self.end_point;
        let control_points = self.control_points;

        let min = Coord2::from_smallest_components(start, end);
        let min = Coord2::from_smallest_components(min, control_points.0);
        let min = Coord2::from_smallest_components(min, control_points.1);

        let max = Coord2::from_biggest_components(start, end);
        let max = Coord2::from_biggest_components(max, control_points.0);
        let max = Coord2::from_biggest_components(max, control_points.1);

        Bounds::from_min_max(min, max)
    }
}

} // verus!
