//! Bézier paths: a start point followed by a list of `(control point 1, control point 2, end point)`
//! sections, and their bounds.

use vstd::prelude::*;

use crate::geo::Coord2;
use crate::curve::{Bounds, Curve, bernstein, bounds_contains, curve_x_at, curve_y_at, fast_bounds_spec, union_spec};

verus! {

/// A path made of a start point and a series of cubic sections, each given as its two control points
/// and its end point
#[derive(Clone, Debug)]
pub struct SimpleBezierPath {
    pub start_point: Coord2,
    pub points: Vec<(Coord2, Coord2, Coord2)>,
}

/// The curve for section `i` of a path: it starts where the previous section ended.
pub open spec fn path_curve(start: Coord2, points: Seq<(Coord2, Coord2, Coord2)>, i: int) -> Curve {
    Curve {
        start_point: if i == 0 { start } else { points[i - 1].2 },
        end_point: points[i].2,
        control_points: (points[i].0, points[i].1),
    }
}

/// Curve `i` of a path is the curve of section `i`: it runs from where the previous section ended (the start
/// point for the first) through the section's first and then its second control point to the section's end
/// point. At every parameter `t / (s + t)` its point is the Bernstein combination of those four points, in that
/// order.
pub proof fn lemma_path_curve_follows_section(start: Coord2, points: Seq<(Coord2, Coord2, Coord2)>, i: int, s: int, t: int)
    requires
        0 <= i < points.len(),
    ensures
        path_curves(start, points).len() == points.len(),
        ({
            let from = if i == 0 { start } else { points[i - 1].2 };
            let (cp1, cp2, end) = points[i];
            &&& curve_x_at(path_curves(start, points)[i], s, t) == bernstein(
                from.0 as int,
                cp1.0 as int,
                cp2.0 as int,
                end.0 as int,
                s,
                t,
            )
            &&& curve_y_at(path_curves(start, points)[i], s, t) == bernstein(
                from.1 as int,
                cp1.1 as int,
                cp2.1 as int,
                end.1 as int,
                s,
                t,
            )
        }),
{
}

/// The curves that make up a path, in order.
pub open spec fn path_curves(start: Coord2, points: Seq<(Coord2, Coord2, Coord2)>) -> Seq<Curve> {
    Seq::new(points.len(), |i: int| path_curve(start, points, i))
}

/// The union of the fast bounds of the first `n` curves (`n >= 1`), combined from the left.
pub open spec fn fold_fast_bounds(curves: Seq<Curve>, n: nat) -> Bounds
    decreases n,
{
    if n <= 1 {
        fast_bounds_spec(curves[0])
    } else {
        union_spec(fold_fast_bounds(curves, (n - 1) as nat), fast_bounds_spec(curves[n - 1]))
    }
}

/// The fast bounding box of a path: the union of the fast bounds of its curves, or the empty box at the
/// origin for a path with no curves.
pub open spec fn path_fast_bounds_spec(start: Coord2, points: Seq<(Coord2, Coord2, Coord2)>) -> Bounds {
    if points.len() == 0 {
        Bounds { min: Coord2(0, 0), max: Coord2(0, 0) }
    } else {
        fold_fast_bounds(path_curves(start, points), points.len())
    }
}

/// Every control point of a curve lies inside its fast bounds.
pub open spec fn curve_inside(b: Bounds, c: Curve) -> bool {
    &&& bounds_contains(b, c.start_point)
    &&& bounds_contains(b, c.end_point)
    &&& bounds_contains(b, c.control_points.0)
    &&& bounds_contains(b, c.control_points.1)
}

impl SimpleBezierPath {
    /// Creates a path from a start point and its sections
    pub fn from_points(start_point: Coord2, points: Vec<(Coord2, Coord2, Coord2)>) -> (r: SimpleBezierPath)
        ensures
            r.start_point == start_point,
            r.points@ == points@,
    {
        SimpleBezierPath { start_point, points }
    }

    /// The point where this path starts
    pub fn start_point(&self) -> (r: Coord2)
        ensures
            r == self.start_point,
    {
        self.start_point
    }

    /// Converts this path into the curves it is made of
    pub fn to_curves(&self) -> (r: Vec<Curve>)
        ensures
            r@ == path_curves(self.start_point, self.points@),
    {
        path_to_curves(self)
    }
}

/// Converts a path into the curves it is made of
pub fn path_to_curves(path: &SimpleBezierPath) -> (r: Vec<Curve>)
    ensures
        r@ == path_curves(path.start_point, path.points@),
{
    let mut curves: Vec<Curve> = Vec::new();
    let mut last_point = path.start_point;
    let n = path.points.len();
    for i in 0..n
        invariant
            n == path.points.len(),
            curves@.len() == i,
            forall|j: int| 0 <= j < i ==> curves@[j] == path_curve(path.start_point, path.points@, j),
            last_point == (if i == 0 { path.start_point } else { path.points@[i - 1].2 }),
    {
        let (cp1, cp2, end_point) = path.points[i];
        curves.push(Curve::from_points(last_point, (cp1, cp2), end_point));
        last_point = end_point;
    }
    curves
}

/// The fast bounds of a curve contain every one of its control points.
pub proof fn lemma_fast_bounds_contain_curve(c: Curve)
    ensures
        curve_inside(fast_bounds_spec(c), c),
{
}

/// A union of boxes contains everything either box contains.
pub proof fn lemma_union_contains(a: Bounds, b: Bounds, p: Coord2)
    requires
        bounds_contains(a, p) || bounds_contains(b, p),
    ensures
        bounds_contains(union_spec(a, b), p),
{
}

/// The fast bounding box of a path with at least one curve contains every control point of every one of
/// its curves: the box is a bound for the whole path.
pub proof fn lemma_path_fast_bounds_contain_path(start: Coord2, points: Seq<(Coord2, Coord2, Coord2)>, i: int)
    requires
        0 <= i < points.len(),
    ensures
        curve_inside(path_fast_bounds_spec(start, points), path_curve(start, points, i)),
{
    lemma_fold_contains(path_curves(start, points), points.len(), i);
}

proof fn lemma_fold_contains(curves: Seq<Curve>, n: nat, i: int)
    requires
        0 <= i < n <= curves.len(),
    ensures
        curve_inside(fold_fast_bounds(curves, n), curves[i]),
    decreases n,
{
    let c = curves[i];
    if n <= 1 {
        lemma_fast_bounds_contain_curve(c);
    } else if i == n - 1 {
        lemma_fast_bounds_contain_curve(c);
        let a = fold_fast_bounds(curves, (n - 1) as nat);
        let b = fast_bounds_spec(curves[n - 1]);
        lemma_union_contains(a, b, c.start_point);
        lemma_union_contains(a, b, c.end_point);
        lemma_union_contains(a, b, c.control_points.0);
        lemma_union_contains(a, b, c.control_points.1);
    } else {
        lemma_fold_contains(curves, (n - 1) as nat, i);
        let a = fold_fast_bounds(curves, (n - 1) as nat);
        let b = fast_bounds_spec(curves[n - 1]);
        lemma_union_contains(a, b, c.start_point);
        lemma_union_contains(a, b, c.end_point);
        lemma_union_contains(a, b, c.control_points.0);
        lemma_union_contains(a, b, c.control_points.1);
    }
}

/// Control point `j` of a curve: its start point, its two control points, then its end point.
pub open spec fn curve_point(c: Curve, j: int) -> Coord2 {
    if j == 0 {
        c.start_point
    } else if j == 1 {
        c.control_points.0
    } else if j == 2 {
        c.control_points.1
    } else {
        c.end_point
    }
}

/// Each side of the box `b` touches a control point of one of the first `n` curves.
pub open spec fn bounds_attained(b: Bounds, curves: Seq<Curve>, n: int) -> bool {
    &&& exists|i: int, j: int| 0 <= i < n && 0 <= j < 4 && #[trigger] curve_point(curves[i], j).0 == b.min.0
    &&& exists|i: int, j: int| 0 <= i < n && 0 <= j < 4 && #[trigger] curve_point(curves[i], j).1 == b.min.1
    &&& exists|i: int, j: int| 0 <= i < n && 0 <= j < 4 && #[trigger] curve_point(curves[i], j).0 == b.max.0
    &&& exists|i: int, j: int| 0 <= i < n && 0 <= j < 4 && #[trigger] curve_point(curves[i], j).1 == b.max.1
}

proof fn lemma_curve_bounds_attained(curves: Seq<Curve>, i: int)
    requires
        0 <= i < curves.len(),
    ensures
        bounds_attained(fast_bounds_spec(curves[i]), curves, i + 1),
{
    let c = curves[i];
    let b = fast_bounds_spec(c);
    let (p0, p1, p2, p3) = (curve_point(c, 0), curve_point(c, 1), curve_point(c, 2), curve_point(c, 3));
    assert(b.min.0 == p0.0 || b.min.0 == p1.0 || b.min.0 == p2.0 || b.min.0 == p3.0);
    assert(b.min.1 == p0.1 || b.min.1 == p1.1 || b.min.1 == p2.1 || b.min.1 == p3.1);
    assert(b.max.0 == p0.0 || b.max.0 == p1.0 || b.max.0 == p2.0 || b.max.0 == p3.0);
    assert(b.max.1 == p0.1 || b.max.1 == p1.1 || b.max.1 == p2.1 || b.max.1 == p3.1);
}

proof fn lemma_fold_attained(curves: Seq<Curve>, n: nat)
    requires
        1 <= n <= curves.len(),
    ensures
        bounds_attained(fold_fast_bounds(curves, n), curves, n as int),
    decreases n,
{
    if n <= 1 {
        lemma_curve_bounds_attained(curves, 0);
    } else {
        lemma_fold_attained(curves, (n - 1) as nat);
        lemma_curve_bounds_attained(curves, n - 1);
        let a = fold_fast_bounds(curves, (n - 1) as nat);
        let b = fast_bounds_spec(curves[n - 1]);
        let u = union_spec(a, b);
        assert(u.min.0 == a.min.0 || u.min.0 == b.min.0);
        assert(u.min.1 == a.min.1 || u.min.1 == b.min.1);
        assert(u.max.0 == a.max.0 || u.max.0 == b.max.0);
        assert(u.max.1 == a.max.1 || u.max.1 == b.max.1);
    }
}

/// The fast bounding box of a path with at least one curve is the smallest box around its control points: it
/// contains them all (`lemma_path_fast_bounds_contain_path`), and each of its sides touches one of them.
pub proof fn lemma_path_fast_bounds_attained(start: Coord2, points: Seq<(Coord2, Coord2, Coord2)>)
    requires
        points.len() >= 1,
    ensures
        bounds_attained(path_fast_bounds_spec(start, points), path_curves(start, points), points.len() as int),
{
    lemma_fold_attained(path_curves(start, points), points.len());
}

/// Finds the bounds of a path using the looser 'fast' algorithm: the union of the boxes around the control
/// polygon of every curve (a box at the origin for a path with no curves)
pub fn path_fast_bounding_box(path: &SimpleBezierPath) -> (r: Bounds)
    ensures
        r == path_fast_bounds_spec(path.start_point, path.points@),
{
    let curves = path_to_curves(path);
    let n = curves.len();
    if n == 0 {
        return Bounds::from_min_max(Coord2::origin(), Coord2::origin());
    }
    let mut bounds = curves[0].fast_bounding_box();
    let mut i: usize = 1;
    while i < n
        invariant
            1 <= i <= n,
            n == curves@.len(),
            curves@ == path_curves(path.start_point, path.points@),
            bounds == fold_fast_bounds(curves@, i as nat),
        decreases n - i,
    {
        let next = curves[i].fast_bounding_box();
        bounds = bounds.union_bounds(next);
        i = i + 1;
    }
    bounds
}

} // verus!
