//! Stroke styles and the assembly of a stroked outline into a path.

use vstd::prelude::*;

use crate::geo::Coord2;
use crate::path::SimpleBezierPath;

verus! {

/// How two segments of a line should be joined together
#[derive(Clone, Copy, Debug, PartialEq, Eq, Hash, PartialOrd, Ord, Structural)]
pub enum LineJoin {
    Miter,
    Round,
    Bevel,
}

/// How the end of a line should be drawn
#[derive(Clone, Copy, Debug, PartialEq, Eq, Hash, PartialOrd, Ord, Structural)]
pub enum LineCap {
    Butt,
    Round,
    Square,
}

/// Creates a path from a set of points generated as part of a stroke: the path starts at the first
/// element of `start_point` and runs through `points`. There is no path when no curve was ever started
/// or when no section was generated.
pub fn create_path(start_point: &Option<(Coord2, Coord2)>, points: Vec<(Coord2, Coord2, Coord2)>) -> (r: Option<SimpleBezierPath>)
    ensures
        r is Some <==> (start_point is Some && points@.len() > 0),
        r matches Some(path) ==> (start_point matches Some(sp) && path.start_point == sp.0 && path.points@ == points@),
{
    // Result is the path if we generated at least 2 points
    if let Some(start_point) = start_point {
        if points.len() > 0 {
            Some(SimpleBezierPath::from_points(start_point.0, points))
        } else {
            // Only generated one point
            None
        }
    } else {
        // Never generated a curve
        None
    }
}

/// A point given in thirds of a grid step: `Coord2Thirds(x, y)` is the point `(x / 3, y / 3)`. The outline of a
/// stroke is built in these units, in which the points a third and two thirds of the way between two grid
/// points are exact.
#[derive(Clone, Copy, Debug, PartialEq, Eq, Structural)]
pub struct Coord2Thirds(pub i64, pub i64);

/// A grid point, in thirds of a grid step.
pub open spec fn in_thirds(c: Coord2) -> Coord2Thirds {
    Coord2Thirds((3 * c.0) as i64, (3 * c.1) as i64)
}

/// The point exactly `k / 3` of the way from `from` to `to`: `from + (to - from) * k / 3`, in thirds of a grid step.
pub open spec fn thirds_along(from: Coord2, to: Coord2, k: int) -> Coord2Thirds {
    Coord2Thirds((3 * from.0 + k * (to.0 - from.0)) as i64, (3 * from.1 + k * (to.1 - from.1)) as i64)
}

/// The section a butt end cap adds: a straight line from `from` to `to`, with its control points exactly a third
/// and two thirds of the way along.
pub open spec fn butt_cap_section(from: Coord2, to: Coord2) -> (Coord2Thirds, Coord2Thirds, Coord2Thirds) {
    (thirds_along(from, to, 1), thirds_along(from, to, 2), in_thirds(to))
}

/// Adds a butt end cap between `from_coord` and `to_coord` to the end of the points list of a stroke outline
/// (the last point added is assumed to be at `from_coord`): a straight line, unless the two points are within a
/// very small distance of each other (on the grid, equal), in which case nothing is added. Returns whether a
/// section was added.
pub fn butt_end_cap(points: &mut Vec<(Coord2Thirds, Coord2Thirds, Coord2Thirds)>, from_coord: Coord2, to_coord: Coord2) -> (r: bool)
    ensures
        r == (from_coord != to_coord),
        r ==> final(points)@ == old(points)@.push(butt_cap_section(from_coord, to_coord)),
        !r ==> final(points)@ == old(points)@,
{
    // If the start & end points are very close together, then we don't add any points
    if from_coord == to_coord {
        return false;
    }

    // Draw a line between the start point and the end point
    let (fx, fy) = (from_coord.0 as i64, from_coord.1 as i64);
    let (dx, dy) = (to_coord.0 as i64 - fx, to_coord.1 as i64 - fy);
    let cp1 = Coord2Thirds(3 * fx + dx, 3 * fy + dy);
    let cp2 = Coord2Thirds(3 * fx + 2 * dx, 3 * fy + 2 * dy);
    let end = Coord2Thirds(3 * to_coord.0 as i64, 3 * to_coord.1 as i64);

    points.push((cp1, cp2, end));

    true
}

} // verus!
