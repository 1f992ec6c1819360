//! Coordinates on an integer grid and the small amount of exact arithmetic on them
//! that the rest of the library needs.

use vstd::prelude::*;

verus! {

/// Largest magnitude of a coordinate component for which the exact curve classification
/// is computed without overflow (2^29): the canonical point's parts are products of two coordinate
/// differences (up to 2^61) and the classification squares them, which `i128`, the widest integer
/// type, holds only for parts of this size.
pub const COORD_LIMIT: i32 = 536870912;

/// A two-dimensional coordinate on the integer grid.
#[derive(Clone, Copy, Debug, PartialEq, Eq, Structural)]
pub struct Coord2(pub i32, pub i32);

/// Both components lie within `COORD_LIMIT` of the origin.
pub open spec fn coord_in_limit(c: Coord2) -> bool {
    -COORD_LIMIT <= c.0 <= COORD_LIMIT && -COORD_LIMIT <= c.1 <= COORD_LIMIT
}

/// Square of the euclidean distance between two points.
pub open spec fn distance_squared(a: Coord2, b: Coord2) -> int {
    (a.0 - b.0) * (a.0 - b.0) + (a.1 - b.1) * (a.1 - b.1)
}

/// Dot product of the vectors `a - origin` and `b - origin`.
pub open spec fn dot_from(origin: Coord2, a: Coord2, b: Coord2) -> int {
    (a.0 - origin.0) * (b.0 - origin.0) + (a.1 - origin.1) * (b.1 - origin.1)
}

/// Cross product of the vectors `a - origin` and `b - origin`.
pub open spec fn cross_from(origin: Coord2, a: Coord2, b: Coord2) -> int {
    (a.0 - origin.0) * (b.1 - origin.1) - (a.1 - origin.1) * (b.0 - origin.0)
}

/// Two points are within `SMALL_DISTANCE` (0.001) of each other: `distance^2 < 0.001^2`.
pub open spec fn is_near_small(a: Coord2, b: Coord2) -> bool {
    1_000_000 * distance_squared(a, b) < 1
}

pub open spec fn min_int(a: int, b: int) -> int {
    if a <= b { a } else { b }
}

pub open spec fn max_int(a: int, b: int) -> int {
    if a >= b { a } else { b }
}

/// On the integer grid, two points are within `SMALL_DISTANCE` of each other exactly when they are equal.
pub proof fn lemma_near_small_is_equal(a: Coord2, b: Coord2)
    ensures
        is_near_small(a, b) <==> a == b,
{
    let dx = a.0 - b.0;
    let dy = a.1 - b.1;
    assert(dx * dx >= 0) by (nonlinear_arith);
    assert(dy * dy >= 0) by (nonlinear_arith);
    if dx != 0 {
        assert(dx * dx >= 1) by (nonlinear_arith)
            requires
                dx != 0,
        ;
    }
    if dy != 0 {
        assert(dy * dy >= 1) by (nonlinear_arith)
            requires
                dy != 0,
        ;
    }
}

impl Coord2 {
    /// The x component.
    pub fn x(&self) -> (r: i32)
        ensures
            r == self.0,
    {
        self.0
    }

    /// The y component.
    pub fn y(&self) -> (r: i32)
        ensures
            r == self.1,
    {
        self.1
    }

    /// The point at (0, 0).
    pub fn origin() -> (r: Coord2)
        ensures
            r == Coord2(0, 0),
    {
        Coord2(0, 0)
    }

    /// True if this point is within `SMALL_DISTANCE` of `other`.
    pub fn is_near_to_small(&self, other: &Coord2) -> (r: bool)
        ensures
            r == is_near_small(*self, *other),
    {
        proof {
            lemma_near_small_is_equal(*self, *other);
        }
        self.0 == other.0 && self.1 == other.1
    }

    /// The point made of the smaller of each pair of components.
    pub fn from_smallest_components(p1: Coord2, p2: Coord2) -> (r: Coord2)
        ensures
            r.0 == min_int(p1.0 as int, p2.0 as int),
            r.1 == min_int(p1.1 as int, p2.1 as int),
    {
        Coord2(if p1.0 <= p2.0 { p1.0 } else { p2.0 }, if p1.1 <= p2.1 { p1.1 } else { p2.1 })
    }

    /// The point made of the larger of each pair of components.
    pub fn from_biggest_components(p1: Coord2, p2: Coord2) -> (r: Coord2)
        ensures
            r.0 == max_int(p1.0 as int, p2.0 as int),
            r.1 == max_int(p1.1 as int, p2.1 as int),
    {
        Coord2(if p1.0 >= p2.0 { p1.0 } else { p2.0 }, if p1.1 >= p2.1 { p1.1 } else { p2.1 })
    }

    /// Square of the distance between two points.
    pub fn distance_squared_to(&self, other: &Coord2) -> (r: i128)
        ensures
            r == distance_squared(*self, *other),
    {
        let dx = self.0 as i64 - other.0 as i64;
        let dy = self.1 as i64 - other.1 as i64;
        proof {
            lemma_product_bound(dx as int, dx as int, 0x1_0000_0000, 0x1_0000_0000);
            lemma_product_bound(dy as int, dy as int, 0x1_0000_0000, 0x1_0000_0000);
        }
        (dx as i128) * (dx as i128) + (dy as i128) * (dy as i128)
    }

    /// Dot product of `a - self` and `b - self`.
    pub fn dot_from(&self, a: &Coord2, b: &Coord2) -> (r: i128)
        ensures
            r == dot_from(*self, *a, *b),
    {
        let ax = a.0 as i64 - self.0 as i64;
        let ay = a.1 as i64 - self.1 as i64;
        let bx = b.0 as i64 - self.0 as i64;
        let by = b.1 as i64 - self.1 as i64;
        proof {
            lemma_product_bound(ax as int, bx as int, 0x1_0000_0000, 0x1_0000_0000);
            lemma_product_bound(ay as int, by as int, 0x1_0000_0000, 0x1_0000_0000);
        }
        (ax as i128) * (bx as i128) + (ay as i128) * (by as i128)
    }
}

/// `|a * b| <= bound_a * bound_b` when `|a| <= bound_a` and `|b| <= bound_b`.
pub proof fn lemma_product_bound(a: int, b: int, bound_a: int, bound_b: int)
    requires
        -bound_a <= a <= bound_a,
        -bound_b <= b <= bound_b,
    ensures
        -(bound_a * bound_b) <= a * b <= bound_a * bound_b,
{
    assert(-(bound_a * bound_b) <= a * b <= bound_a * bound_b) by (nonlinear_arith)
        requires
            -bound_a <= a <= bound_a,
            -bound_b <= b <= bound_b,
    ;
}

/// The component `num / den` of the way from `from` to `to`, rounded down to the grid.
pub open spec fn fraction_along(from: int, to: int, num: int, den: int) -> int {
    from + (num * (to - from)) / den
}

/// Computes `fraction_along`: `num / den` of the way from `from` to `to`, rounded down to the grid (the result
/// lies between `from` and `to`).
pub fn fraction_along_exec(from: i32, to: i32, num: i64, den: i64) -> (r: i32)
    requires
        0 <= num <= den,
        1 <= den <= 100,
    ensures
        r == fraction_along(from as int, to as int, num as int, den as int),
{
    let diff = to as i64 - from as i64;
    proof {
        lemma_product_bound(num as int, diff as int, 100, 0x1_0000_0000);
    }
    let scaled = num * diff;
    let part = if scaled >= 0 {
        scaled / den
    } else {
        -((-scaled + den - 1) / den)
    };
    proof {
        let d = den as int;
        let x = num * (to - from);
        let f = x / d;
        let s = scaled as int;
        vstd::arithmetic::div_mod::lemma_fundamental_div_mod(x, d);
        vstd::arithmetic::div_mod::lemma_mod_bound(x, d);
        if scaled < 0 {
            let y = -s + d - 1;
            vstd::arithmetic::div_mod::lemma_fundamental_div_mod(y, d);
            vstd::arithmetic::div_mod::lemma_mod_bound(y, d);
            assert(part == f) by (nonlinear_arith)
                requires
                    d >= 1,
                    s < 0,
                    s == x,
                    part == -(y / d),
                    y == -s + d - 1,
                    y == d * (y / d) + y % d,
                    0 <= y % d < d,
                    x == d * f + x % d,
                    0 <= x % d < d,
            ;
        } else {
            assert(part == f);
        }
        if diff >= 0 {
            assert(0 <= s <= d * diff) by (nonlinear_arith)
                requires
                    0 <= num <= d,
                    diff >= 0,
                    s == num * diff,
            ;
            assert(0 <= f <= diff) by (nonlinear_arith)
                requires
                    d >= 1,
                    0 <= x <= d * diff,
                    x == d * f + x % d,
                    0 <= x % d < d,
            ;
        } else {
            assert(d * diff <= s <= 0) by (nonlinear_arith)
                requires
                    0 <= num <= d,
                    diff < 0,
                    s == num * diff,
            ;
            assert(diff <= f <= 0) by (nonlinear_arith)
                requires
                    d >= 1,
                    d * diff <= x <= 0,
                    x == d * f + x % d,
                    0 <= x % d < d,
            ;
        }
    }
    (from as i64 + part) as i32
}

/// The grid value `p` lies less than one grid step below (and never above) the exact value `num / den` of the
/// way from `from` to `to`: the exact value lies in `[p, p + 1)`.
pub open spec fn near_fraction(from: int, to: int, num: int, den: int, p: int) -> bool {
    den * (p - from) <= num * (to - from) < den * (p - from) + den
}

/// Each component of the grid point `p` lies less than one grid step below the exact point `num / den` of the
/// way from `from` to `to`.
pub open spec fn near_point_fraction(from: Coord2, to: Coord2, num: int, den: int, p: Coord2) -> bool {
    near_fraction(from.0 as int, to.0 as int, num, den, p.0 as int) && near_fraction(
        from.1 as int,
        to.1 as int,
        num,
        den,
        p.1 as int,
    )
}

/// Rounding down to the grid loses less than one grid step: `fraction_along` is the grid value just below
/// (or at) the exact fraction, and for a fraction between 0 and 1 it lies between `from` and `to`.
pub proof fn lemma_fraction_along_near(from: int, to: int, num: int, den: int)
    requires
        den > 0,
    ensures
        near_fraction(from, to, num, den, fraction_along(from, to, num, den)),
        0 <= num <= den && from <= to ==> from <= fraction_along(from, to, num, den) <= to,
        0 <= num <= den && to <= from ==> to <= fraction_along(from, to, num, den) <= from,
{
    let x = num * (to - from);
    let f = x / den;
    vstd::arithmetic::div_mod::lemma_fundamental_div_mod(x, den);
    vstd::arithmetic::div_mod::lemma_mod_bound(x, den);
    assert(fraction_along(from, to, num, den) - from == f);
    if 0 <= num <= den {
        if from <= to {
            assert(0 <= x <= den * (to - from)) by (nonlinear_arith)
                requires
                    0 <= num <= den,
                    from <= to,
                    x == num * (to - from),
            ;
            assert(0 <= f <= to - from) by (nonlinear_arith)
                requires
                    den >= 1,
                    0 <= x <= den * (to - from),
                    x == den * f + x % den,
                    0 <= x % den < den,
            ;
        } else {
            assert(den * (to - from) <= x <= 0) by (nonlinear_arith)
                requires
                    0 <= num <= den,
                    to < from,
                    x == num * (to - from),
            ;
            assert(to - from <= f <= 0) by (nonlinear_arith)
                requires
                    den >= 1,
                    den * (to - from) <= x <= 0,
                    x == den * f + x % den,
                    0 <= x % den < den,
            ;
        }
    }
}

} // verus!
