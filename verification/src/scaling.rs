//! The hull does not depend on the unit of length: multiplying every
//! coordinate of the input by the same positive number multiplies every
//! coordinate of the hull by that number, edge for edge.

use vstd::prelude::*;
use crate::extreme::{
    initial_line,
    lemma_extremes_exist,
    lemma_lex_max_unique,
    lemma_lex_min_unique,
    lex_le,
};
use crate::geometry::{cross, is_right_of, scaled_dist, Line, Point};
use crate::hull::{
    furthest,
    hull,
    hull_side,
    lemma_furthest_exists,
    lemma_furthest_is,
    lemma_furthest_is_right,
    lemma_split_shrinks,
    right_points,
};

verus! {

/// Both coordinates of `p`, multiplied by `k`, are coordinates of a point.
pub open spec fn fits(p: Point, k: int) -> bool {
    &&& i32::MIN <= k * p.x <= i32::MAX
    &&& i32::MIN <= k * p.y <= i32::MAX
}

/// Every point of `s` can be scaled by `k`.
pub open spec fn all_fit(s: Seq<Point>, k: int) -> bool {
    forall|i: int| 0 <= i < s.len() ==> fits(#[trigger] s[i], k)
}

/// The point `p` with both coordinates multiplied by `k`.
pub open spec fn scale_point(p: Point, k: int) -> Point
    recommends
        fits(p, k),
{
    Point { x: (k * p.x) as i32, y: (k * p.y) as i32 }
}

/// The line with both ends scaled by `k`.
pub open spec fn scale_line(line: Line, k: int) -> Line {
    (scale_point(line.0, k), scale_point(line.1, k))
}

/// The points of `s`, each scaled by `k`.
pub open spec fn scale_points(s: Seq<Point>, k: int) -> Seq<Point> {
    s.map_values(|p: Point| scale_point(p, k))
}

/// The lines of `s`, each scaled by `k`.
pub open spec fn scale_lines(s: Seq<Line>, k: int) -> Seq<Line> {
    s.map_values(|l: Line| scale_line(l, k))
}

/// The product of two multiples of `k`.
proof fn lemma_product_scales(k: int, a: int, b: int)
    by (nonlinear_arith)
    ensures
        (k * a) * (k * b) == (k * k) * (a * b),
{
}

/// The determinant of two vectors that are both multiplied by `k`.
proof fn lemma_det_scales(k: int, ux: int, uy: int, vx: int, vy: int)
    ensures
        (k * ux) * (k * vy) - (k * uy) * (k * vx) == (k * k) * (ux * vy - uy * vx),
{
    lemma_product_scales(k, ux, vy);
    lemma_product_scales(k, uy, vx);
    lemma_difference_scales(k * k, ux * vy, uy * vx);
}

/// A difference of two multiples of `k`.
proof fn lemma_difference_scales(k: int, a: int, b: int)
    by (nonlinear_arith)
    ensures
        k * a - k * b == k * (a - b),
{
}

/// Multiplying by a positive number keeps the order of two integers.
proof fn lemma_positive_multiple(m: int, a: int, b: int)
    by (nonlinear_arith)
    requires
        m > 0,
    ensures
        a < b <==> m * a < m * b,
        a <= b <==> m * a <= m * b,
        a == b <==> m * a == m * b,
        m * 0 == 0,
        m * (-a) == -(m * a),
{
}

/// The square of a positive number is positive.
proof fn lemma_square_positive(k: int)
    by (nonlinear_arith)
    requires
        k > 0,
    ensures
        k * k > 0,
{
}

/// Scaling three points by `k` multiplies their cross product by `k²`.
pub proof fn lemma_cross_scales(a: Point, b: Point, p: Point, k: int)
    requires
        fits(a, k),
        fits(b, k),
        fits(p, k),
    ensures
        cross(scale_point(a, k), scale_point(b, k), scale_point(p, k)) == (k * k) * cross(a, b, p),
{
    lemma_difference_scales(k, b.x as int, a.x as int);
    lemma_difference_scales(k, b.y as int, a.y as int);
    lemma_difference_scales(k, p.x as int, a.x as int);
    lemma_difference_scales(k, p.y as int, a.y as int);
    lemma_det_scales(k, b.x - a.x, b.y - a.y, p.x - a.x, p.y - a.y);
}

/// Scaling by a positive number leaves every point on its side of every
/// line, and keeps the order of the distances of two points from one line.
pub proof fn lemma_sides_scale(line: Line, p: Point, q: Point, k: int)
    requires
        k > 0,
        fits(line.0, k),
        fits(line.1, k),
        fits(p, k),
        fits(q, k),
    ensures
        is_right_of(scale_line(line, k), scale_point(p, k)) == is_right_of(line, p),
        scaled_dist(scale_line(line, k), scale_point(p, k)) <= scaled_dist(
            scale_line(line, k),
            scale_point(q, k),
        ) <==> scaled_dist(line, p) <= scaled_dist(line, q),
        scaled_dist(scale_line(line, k), scale_point(p, k)) < scaled_dist(
            scale_line(line, k),
            scale_point(q, k),
        ) <==> scaled_dist(line, p) < scaled_dist(line, q),
{
    let m = k * k;
    let cp = cross(line.0, line.1, p);
    let cq = cross(line.0, line.1, q);
    lemma_square_positive(k);
    lemma_cross_scales(line.0, line.1, p, k);
    lemma_cross_scales(line.0, line.1, q, k);
    lemma_positive_multiple(m, cp, 0);
    lemma_positive_multiple(m, cq, 0);
    lemma_positive_multiple(m, 0, cp);
    lemma_positive_multiple(m, 0, cq);
    lemma_positive_multiple(m, cp, cq);
    lemma_positive_multiple(m, -cp, cq);
    lemma_positive_multiple(m, cp, -cq);
    lemma_positive_multiple(m, -cp, -cq);
    lemma_positive_multiple(m, cq, cp);
    lemma_positive_multiple(m, -cq, cp);
    lemma_positive_multiple(m, cq, -cp);
    lemma_positive_multiple(m, -cq, -cp);
}

/// Scaling by a positive number keeps the order of two points.
pub proof fn lemma_order_scales(p: Point, q: Point, k: int)
    requires
        k > 0,
        fits(p, k),
        fits(q, k),
    ensures
        lex_le(scale_point(p, k), scale_point(q, k)) == lex_le(p, q),
{
    lemma_positive_multiple(k, p.x as int, q.x as int);
    lemma_positive_multiple(k, p.y as int, q.y as int);
}

/// The points to the right of a scaled line, among scaled candidates, are
/// the scaled points to the right of the line.
proof fn lemma_right_points_scale(cands: Seq<Point>, line: Line, k: int)
    requires
        k > 0,
        all_fit(cands, k),
        fits(line.0, k),
        fits(line.1, k),
    ensures
        right_points(scale_points(cands, k), scale_line(line, k)) == scale_points(
            right_points(cands, line),
            k,
        ),
        all_fit(right_points(cands, line), k),
    decreases cands.len(),
{
    reveal(Seq::filter);
    let on_right = |p: Point| is_right_of(line, p);
    let scaled_on_right = |p: Point| is_right_of(scale_line(line, k), p);
    if cands.len() == 0 {
        assert(scale_points(cands, k) == Seq::<Point>::empty());
        assert(scale_points(right_points(cands, line), k) == Seq::<Point>::empty());
    } else {
        let front = cands.drop_last();
        let x = cands.last();
        lemma_right_points_scale(front, line, k);
        assert(cands == front.push(x));
        assert(scale_points(cands, k) == scale_points(front, k).push(scale_point(x, k)));
        front.lemma_filter_push(x, on_right);
        scale_points(front, k).lemma_filter_push(scale_point(x, k), scaled_on_right);
        lemma_sides_scale(line, x, x, k);
        let right_front = right_points(front, line);
        assert(scale_points(right_front.push(x), k) == scale_points(right_front, k).push(
            scale_point(x, k),
        ));
    }
}

/// The furthest of the scaled points from the scaled line is the scaled
/// furthest point.
proof fn lemma_furthest_scales(s: Seq<Point>, line: Line, k: int)
    requires
        k > 0,
        s.len() > 0,
        all_fit(s, k),
        fits(line.0, k),
        fits(line.1, k),
    ensures
        furthest(scale_points(s, k), scale_line(line, k)) == scale_point(furthest(s, line), k),
        s.contains(furthest(s, line)),
        fits(furthest(s, line), k),
{
    let scaled = scale_points(s, k);
    let scaled_line = scale_line(line, k);
    let i = lemma_furthest_exists(s, line);
    lemma_furthest_is(s, line, i);
    assert forall|j: int| 0 <= j < scaled.len() implies scaled_dist(scaled_line, #[trigger] scaled[j])
        <= scaled_dist(scaled_line, scaled[i]) by {
        lemma_sides_scale(line, s[j], s[i], k);
        assert(scaled_dist(line, s[j]) <= scaled_dist(line, s[i]));
    }
    assert forall|j: int| i < j < scaled.len() implies scaled_dist(scaled_line, #[trigger] scaled[j])
        < scaled_dist(scaled_line, scaled[i]) by {
        lemma_sides_scale(line, s[j], s[i], k);
        assert(scaled_dist(line, s[j]) < scaled_dist(line, s[i]));
    }
    lemma_furthest_is(scaled, scaled_line, i);
}

/// The scaled lines of two sequences joined are the scaled lines of each,
/// joined.
proof fn lemma_scale_lines_add(first: Seq<Line>, second: Seq<Line>, k: int)
    ensures
        scale_lines(first + second, k) == scale_lines(first, k) + scale_lines(second, k),
{
}

/// The edges that close the side of a scaled line, from scaled candidates,
/// are the scaled edges that close the side of the line.
proof fn lemma_side_scales(cands: Seq<Point>, line: Line, k: int)
    requires
        k > 0,
        all_fit(cands, k),
        fits(line.0, k),
        fits(line.1, k),
    ensures
        hull_side(scale_points(cands, k), scale_line(line, k)) == scale_lines(
            hull_side(cands, line),
            k,
        ),
    decreases right_points(cands, line).len(),
{
    let right = right_points(cands, line);
    let scaled_line = scale_line(line, k);
    let scaled_right = right_points(scale_points(cands, k), scaled_line);
    lemma_right_points_scale(cands, line, k);
    assert(scaled_right == scale_points(right, k));
    if right.len() == 0 {
        assert(scale_lines(seq![line], k) == seq![scaled_line]);
    } else {
        let s = furthest(right, line);
        lemma_furthest_scales(right, line, k);
        lemma_furthest_is_right(cands, line);
        lemma_split_shrinks(right, line, s);
        lemma_side_scales(right, (s, line.1), k);
        lemma_side_scales(right, (line.0, s), k);
        lemma_scale_lines_add(hull_side(right, (s, line.1)), hull_side(right, (line.0, s)), k);
        assert(scale_line((s, line.1), k) == (scale_point(s, k), scaled_line.1));
        assert(scale_line((line.0, s), k) == (scaled_line.0, scale_point(s, k)));
    }
}

/// The first line of the scaled points is the scaled first line.
proof fn lemma_initial_line_scales(points: Seq<Point>, k: int)
    requires
        k > 0,
        points.len() > 0,
        all_fit(points, k),
    ensures
        initial_line(scale_points(points, k)) == scale_line(initial_line(points), k),
        fits(initial_line(points).0, k),
        fits(initial_line(points).1, k),
{
    lemma_extremes_exist(points);
    let (a, b) = initial_line(points);
    let scaled = scale_points(points, k);
    let ia = choose|i: int| 0 <= i < points.len() && points[i] == a;
    let ib = choose|i: int| 0 <= i < points.len() && points[i] == b;
    assert(scaled[ia] == scale_point(a, k));
    assert(scaled[ib] == scale_point(b, k));
    assert forall|i: int| 0 <= i < scaled.len() implies lex_le(scale_point(a, k), #[trigger] scaled[i])
        && lex_le(scaled[i], scale_point(b, k)) by {
        lemma_order_scales(a, points[i], k);
        lemma_order_scales(points[i], b, k);
        assert(lex_le(a, points[i]) && lex_le(points[i], b));
    }
    lemma_lex_min_unique(scaled, scale_point(a, k));
    lemma_lex_max_unique(scaled, scale_point(b, k));
}

/// Scaling the input by a positive number scales the hull by that number:
/// the hull of the scaled points is, edge for edge, the scaled hull of the
/// points.
pub proof fn lemma_hull_scales(points: Seq<Point>, k: int)
    requires
        k > 0,
        all_fit(points, k),
    ensures
        hull(scale_points(points, k)) == scale_lines(hull(points), k),
{
    if points.len() == 0 {
        assert(scale_lines(Seq::<Line>::empty(), k) == Seq::<Line>::empty());
    } else {
        let (a, b) = initial_line(points);
        lemma_initial_line_scales(points, k);
        lemma_side_scales(points, (a, b), k);
        lemma_side_scales(points, (b, a), k);
        lemma_scale_lines_add(hull_side(points, (a, b)), hull_side(points, (b, a)), k);
        assert(scale_line((a, b), k) == (scale_point(a, k), scale_point(b, k)));
        assert(scale_line((b, a), k) == (scale_point(b, k), scale_point(a, k)));
    }
}

} // verus!
