//! Points of the integer lattice, directed lines, and the two predicates the
//! hull construction is built on: on which side of a line a point lies, and
//! how far from the line it is.
//!
//! Every quantity here is an exact integer. Coordinates are `i32`, so that the
//! cross product of two coordinate differences always fits in an `i128` and no
//! operation needs a precondition.

use vstd::prelude::*;

verus! {

/// A point of the integer lattice in the plane.
#[derive(Clone, Copy, Debug, PartialEq, Eq, Hash, Structural)]
pub struct Point {
    pub x: i32,
    pub y: i32,
}

/// A directed line: it runs from its first point (the origin) to its second
/// (the destination).
pub type Line = (Point, Point);

impl Point {
    /// The point with the given coordinates.
    pub fn new(x: i32, y: i32) -> (p: Point)
        ensures
            p == (Point { x, y }),
    {
        Point { x, y }
    }

    /// The point `(0, 0)`.
    pub fn origin() -> (p: Point)
        ensures
            p == (Point { x: 0, y: 0 }),
    {
        Point { x: 0, y: 0 }
    }
}

/// The cross product of `b − a` and `p − a`: twice the signed area of the
/// triangle `a`, `b`, `p`. It is positive when `p` lies to the left of the
/// line from `a` to `b`, negative when `p` lies to its right, and zero when
/// the three points are collinear (or `a == b`).
pub open spec fn cross(a: Point, b: Point, p: Point) -> int {
    (b.x - a.x) * (p.y - a.y) - (b.y - a.y) * (p.x - a.x)
}

/// `p` lies strictly to the right of the directed line. A point on the line
/// is not to its right, and nothing is to the right of a line of length zero.
pub open spec fn is_right_of(line: Line, p: Point) -> bool {
    cross(line.0, line.1, p) < 0
}

/// The perpendicular distance from `p` to the line through `line.0` and
/// `line.1`, multiplied by the length of `line`: the absolute value of the
/// cross product. It is the numerator of the distance, whose denominator is
/// the length of the line. For one line it ranks points exactly as the
/// distance does. For a line of length zero it is `0`.
pub open spec fn scaled_dist(line: Line, p: Point) -> nat {
    vstd::math::abs(cross(line.0, line.1, p))
}

/// The square of the length of `line`.
pub open spec fn length_squared(line: Line) -> nat {
    ((line.1.x - line.0.x) * (line.1.x - line.0.x) + (line.1.y - line.0.y) * (line.1.y
        - line.0.y)) as nat
}

/// The perpendicular distance of a point from a line, as an exact fraction:
/// the distance is `numerator / √length_squared`, and its square is
/// `numerator² / length_squared`. The distance itself is seldom a whole
/// number, or even a fraction of whole numbers, so it is kept in these two
/// parts. For a line of length zero both parts are `0`, and the quotient has
/// no value.
#[derive(Clone, Copy, Debug, PartialEq, Eq, Hash, Structural)]
pub struct Distance {
    /// The distance multiplied by the length of the line.
    pub numerator: u128,
    /// The square of the length of the line.
    pub length_squared: u128,
}

/// `pt` lies to the right of all three of the lines `c → a`, `a → b` and
/// `b → c`.
pub open spec fn right_of_all_sides(a: Point, b: Point, c: Point, pt: Point) -> bool {
    is_right_of((c, a), pt) && is_right_of((a, b), pt) && is_right_of((b, c), pt)
}

/// `pt` lies strictly inside the triangle `a`, `b`, `c`: on the same strict
/// side of its three sides, taken in order.
pub open spec fn strictly_inside(a: Point, b: Point, c: Point, pt: Point) -> bool {
    ||| cross(a, b, pt) < 0 && cross(b, c, pt) < 0 && cross(c, a, pt) < 0
    ||| cross(a, b, pt) > 0 && cross(b, c, pt) > 0 && cross(c, a, pt) > 0
}

/// The product of two coordinate differences stays below `2^64` in size.
proof fn lemma_product_bound(d: int, e: int)
    by (nonlinear_arith)
    requires
        -0xffff_ffff <= d <= 0xffff_ffff,
        -0xffff_ffff <= e <= 0xffff_ffff,
    ensures
        -0xffff_fffe_0000_0001 <= d * e <= 0xffff_fffe_0000_0001,
{
}

/// A square is not negative.
proof fn lemma_square_not_negative(d: int)
    by (nonlinear_arith)
    ensures
        d * d >= 0,
{
}

/// The cross product, multiplied out, is the numerator of the usual formula
/// for the distance of a point from a line, up to its sign.
pub proof fn lemma_cross_written_out(a: Point, b: Point, p: Point)
    by (nonlinear_arith)
    ensures
        cross(a, b, p) == -((b.y - a.y) * p.x - (b.x - a.x) * p.y + (b.x * a.y - b.y * a.x)),
{
}

/// Exchanging the ends of a line changes the sign of the cross product.
pub proof fn lemma_cross_reverse(a: Point, b: Point, p: Point)
    by (nonlinear_arith)
    ensures
        cross(b, a, p) == -cross(a, b, p),
{
}

/// The cross product of `b − a` and `p − a`, computed without overflow.
pub fn cross_product(a: Point, b: Point, p: Point) -> (c: i128)
    ensures
        c == cross(a, b, p),
{
    let lx: i64 = b.x as i64 - a.x as i64;
    let ly: i64 = b.y as i64 - a.y as i64;
    let px: i64 = p.x as i64 - a.x as i64;
    let py: i64 = p.y as i64 - a.y as i64;
    proof {
        lemma_product_bound(lx as int, py as int);
        lemma_product_bound(ly as int, px as int);
    }
    (lx as i128) * (py as i128) - (ly as i128) * (px as i128)
}

/// Returns `true` when the given point is to the right of the given line.
pub fn line_right(line: Line, point: Point) -> (r: bool)
    ensures
        r == is_right_of(line, point),
{
    cross_product(line.0, line.1, point) < 0
}

/// Finds the perpendicular distance between a line and a given point:
/// `|(b.y − a.y)·pt.x − (b.x − a.x)·pt.y + (b.x·a.y − b.y·a.x)|` over the
/// length of the line from `a` to `b`, given as the numerator and the square
/// of the denominator. For the line from `(0, 0)` to `(3, 4)` and the point
/// `(0, 5)` that is `15` and `25`: a distance of `3`. Nothing is divided; for a
/// line of length zero the denominator is `0`.
pub fn line_dist(line: Line, pt: Point) -> (d: Distance)
    ensures
        d.numerator == scaled_dist(line, pt),
        d.length_squared == length_squared(line),
        d.numerator == vstd::math::abs(
            (line.1.y - line.0.y) * pt.x - (line.1.x - line.0.x) * pt.y + (line.1.x * line.0.y
                - line.1.y * line.0.x),
        ),
{
    let c: i128 = cross_product(line.0, line.1, pt);
    let lx: i64 = line.1.x as i64 - line.0.x as i64;
    let ly: i64 = line.1.y as i64 - line.0.y as i64;
    proof {
        lemma_product_bound(line.1.x - line.0.x, pt.y - line.0.y);
        lemma_product_bound(line.1.y - line.0.y, pt.x - line.0.x);
        lemma_product_bound(lx as int, lx as int);
        lemma_product_bound(ly as int, ly as int);
        lemma_square_not_negative(lx as int);
        lemma_square_not_negative(ly as int);
        lemma_cross_written_out(line.0, line.1, pt);
    }
    let numerator: u128 = if c < 0 {
        (-c) as u128
    } else {
        c as u128
    };
    let length_squared: u128 = ((lx as i128) * (lx as i128) + (ly as i128) * (ly as i128)) as u128;
    Distance { numerator, length_squared }
}

/// Returns `true` when `pt` is to the right of each side of the triangle, the
/// sides taken as `c → a`, `a → b`, `b → c`.
pub fn triangle_prot(a: Point, b: Point, c: Point, pt: Point) -> (r: bool)
    ensures
        r == right_of_all_sides(a, b, c, pt),
{
    line_right((c, a), pt) && line_right((a, b), pt) && line_right((b, c), pt)
}

/// Returns `true` when `pt` lies strictly inside the triangle `a`, `b`, `c`,
/// whichever way round its corners are given. A point on a side, or any point
/// of a triangle without area, is not inside.
pub fn triangle_member(a: Point, b: Point, c: Point, pt: Point) -> (r: bool)
    ensures
        r == strictly_inside(a, b, c, pt),
        r == (right_of_all_sides(a, b, c, pt) || right_of_all_sides(c, b, a, pt)),
{
    proof {
        lemma_cross_reverse(a, b, pt);
        lemma_cross_reverse(b, c, pt);
        lemma_cross_reverse(c, a, pt);
    }
    triangle_prot(a, b, c, pt) || triangle_prot(c, b, a, pt)
}

} // verus!
