//! The hull depends only on its own vertices: taking away input points that
//! are no end of any hull edge leaves the hull as it is. In particular the
//! hull of the vertices of a hull is that hull again.
//!
//! This holds of every input as long as the points that stay keep their
//! order. Where several points are equally the furthest from a line, the one
//! that comes last is taken, so another order of the same points may yield
//! other edges.

use vstd::prelude::*;
use crate::extreme::{
    initial_line,
    is_lex_max,
    is_lex_min,
    lemma_extremes_exist,
    lemma_lex_max_unique,
    lemma_lex_min_unique,
    lex_le,
};
use crate::geometry::{is_right_of, scaled_dist, Line, Point};
use crate::sequences::lemma_all_of_joined;
use crate::walk::lemma_side_is_chain;
use crate::hull::{
    furthest,
    hull,
    hull_side,
    is_furthest_at,
    lemma_furthest_exists,
    lemma_furthest_is,
    lemma_furthest_is_right,
    lemma_split_shrinks,
    right_points,
};

verus! {

/// `p` is an end of one of the edges.
pub open spec fn is_vertex(edges: Seq<Line>, p: Point) -> bool {
    exists|i: int| 0 <= i < edges.len() && ((#[trigger] edges[i]).0 == p || edges[i].1 == p)
}

/// The points of the input that are vertices of its hull, in the order in
/// which the input has them.
pub open spec fn hull_vertices(points: Seq<Point>) -> Seq<Point> {
    points.filter(|p: Point| is_vertex(hull(points), p))
}

/// The furthest point of a sequence with one more point at its end: the new
/// point if it is at least as far as the furthest so far, else the furthest
/// so far.
proof fn lemma_furthest_push(s: Seq<Point>, x: Point, line: Line)
    ensures
        s.len() == 0 ==> furthest(s.push(x), line) == x,
        s.len() > 0 ==> furthest(s.push(x), line) == if scaled_dist(line, x) >= scaled_dist(
            line,
            furthest(s, line),
        ) {
            x
        } else {
            furthest(s, line)
        },
{
    let t = s.push(x);
    if s.len() == 0 {
        assert(is_furthest_at(t, line, 0));
        lemma_furthest_is(t, line, 0);
    } else {
        let k = lemma_furthest_exists(s, line);
        lemma_furthest_is(s, line, k);
        let i = if scaled_dist(line, x) >= scaled_dist(line, s[k]) {
            s.len() as int
        } else {
            k
        };
        assert forall|j: int| 0 <= j < t.len() implies scaled_dist(line, #[trigger] t[j])
            <= scaled_dist(line, t[i]) by {
            if j < s.len() {
                assert(scaled_dist(line, s[j]) <= scaled_dist(line, s[k]));
            }
        }
        assert forall|j: int| i < j < t.len() implies scaled_dist(line, #[trigger] t[j])
            < scaled_dist(line, t[i]) by {
            if j < s.len() {
                assert(scaled_dist(line, s[j]) < scaled_dist(line, s[k]));
            }
        }
        lemma_furthest_is(t, line, i);
    }
}

/// No point of a sequence is further from the line than its furthest point.
proof fn lemma_furthest_bounds(s: Seq<Point>, line: Line, p: Point)
    requires
        s.contains(p),
    ensures
        s.contains(furthest(s, line)),
        scaled_dist(line, p) <= scaled_dist(line, furthest(s, line)),
{
    let k = lemma_furthest_exists(s, line);
    lemma_furthest_is(s, line, k);
    let j = choose|j: int| 0 <= j < s.len() && s[j] == p;
    assert(scaled_dist(line, s[j]) <= scaled_dist(line, s[k]));
}

/// Taking points away from a sequence, but not its furthest point, leaves
/// the furthest point what it was.
pub proof fn lemma_furthest_survives(s: Seq<Point>, line: Line, keep: spec_fn(Point) -> bool)
    requires
        s.len() > 0,
        keep(furthest(s, line)),
    ensures
        s.filter(keep).len() > 0,
        furthest(s.filter(keep), line) == furthest(s, line),
    decreases s.len(),
{
    let front = s.drop_last();
    let x = s.last();
    assert(s == front.push(x));
    front.lemma_filter_push(x, keep);
    lemma_furthest_push(front, x, line);
    let kept = front.filter(keep);
    if front.len() == 0 {
        front.lemma_filter_len(keep);
        lemma_furthest_push(kept, x, line);
    } else {
        let m = furthest(front, line);
        if scaled_dist(line, x) >= scaled_dist(line, m) {
            lemma_furthest_push(kept, x, line);
            if kept.len() > 0 {
                let i = lemma_furthest_exists(kept, line);
                lemma_furthest_is(kept, line, i);
                front.lemma_filter_contains_rev(keep, kept[i]);
                lemma_furthest_bounds(front, line, kept[i]);
            }
        } else {
            lemma_furthest_survives(front, line, keep);
            if keep(x) {
                lemma_furthest_push(kept, x, line);
            }
        }
    }
}

/// Two tests may be applied to a sequence in either order.
pub proof fn lemma_filter_commutes<A>(s: Seq<A>, p: spec_fn(A) -> bool, q: spec_fn(A) -> bool)
    ensures
        s.filter(p).filter(q) == s.filter(q).filter(p),
    decreases s.len(),
{
    reveal(Seq::filter);
    if s.len() > 0 {
        let front = s.drop_last();
        let x = s.last();
        lemma_filter_commutes(front, p, q);
        assert(s == front.push(x));
        front.lemma_filter_push(x, p);
        front.lemma_filter_push(x, q);
        front.filter(p).lemma_filter_push(x, q);
        front.filter(q).lemma_filter_push(x, p);
    }
}

/// Of an edge: both its ends pass the test.
pub open spec fn both_ends(keep: spec_fn(Point) -> bool) -> spec_fn(Line) -> bool {
    |edge: Line| keep(edge.0) && keep(edge.1)
}

/// Every end of every edge passes the test.
pub open spec fn keeps_ends(edges: Seq<Line>, keep: spec_fn(Point) -> bool) -> bool {
    edges.all(both_ends(keep))
}

/// Taking away candidates that are no end of an edge that closes the side
/// leaves those edges as they are.
proof fn lemma_side_ignores_other_points(
    cands: Seq<Point>,
    line: Line,
    keep: spec_fn(Point) -> bool,
)
    requires
        keeps_ends(hull_side(cands, line), keep),
    ensures
        hull_side(cands.filter(keep), line) == hull_side(cands, line),
    decreases right_points(cands, line).len(),
{
    let on_right = |p: Point| is_right_of(line, p);
    let right = right_points(cands, line);
    let kept_right = right_points(cands.filter(keep), line);
    lemma_filter_commutes(cands, keep, on_right);
    assert(kept_right == right.filter(keep));
    if right.len() == 0 {
        right.lemma_filter_len(keep);
    } else {
        let s = furthest(right, line);
        let first = hull_side(right, (s, line.1));
        let second = hull_side(right, (line.0, s));
        let edges = hull_side(cands, line);
        assert(edges == first + second);
        lemma_furthest_is_right(cands, line);
        lemma_split_shrinks(right, line, s);
        lemma_side_is_chain(right, (s, line.1));
        lemma_all_of_joined(first, second, both_ends(keep));
        assert(both_ends(keep)(first[first.len() - 1]));
        assert(keep(s));
        lemma_furthest_survives(right, line, keep);
        lemma_side_ignores_other_points(right, (s, line.1), keep);
        lemma_side_ignores_other_points(right, (line.0, s), keep);
    }
}

/// Taking away input points that are no vertex of the hull leaves the hull as
/// it is: if `keep` holds of every end of every hull edge of `points`, then
/// the points of which `keep` holds, in their order, have the same hull.
pub proof fn lemma_hull_ignores_other_points(points: Seq<Point>, keep: spec_fn(Point) -> bool)
    requires
        keeps_ends(hull(points), keep),
    ensures
        hull(points.filter(keep)) == hull(points),
{
    let kept = points.filter(keep);
    if points.len() == 0 {
        points.lemma_filter_len(keep);
    } else {
        lemma_extremes_exist(points);
        let (a, b) = initial_line(points);
        let first = hull_side(points, (a, b));
        let second = hull_side(points, (b, a));
        let edges = hull(points);
        assert(edges == first + second);
        lemma_side_is_chain(points, (a, b));
        lemma_all_of_joined(first, second, both_ends(keep));
        assert(both_ends(keep)(first[0]));
        assert(both_ends(keep)(first[first.len() - 1]));
        assert(keep(a) && keep(b));
        let ia = choose|i: int| 0 <= i < points.len() && points[i] == a;
        let ib = choose|i: int| 0 <= i < points.len() && points[i] == b;
        points.lemma_filter_contains(keep, ia);
        points.lemma_filter_contains(keep, ib);
        assert forall|i: int| 0 <= i < kept.len() implies lex_le(a, #[trigger] kept[i]) && lex_le(
            kept[i],
            b,
        ) by {
            assert(kept.contains(kept[i]));
            points.lemma_filter_contains_rev(keep, kept[i]);
            let j = choose|j: int| 0 <= j < points.len() && points[j] == kept[i];
            assert(lex_le(a, points[j]) && lex_le(points[j], b));
        }
        assert(is_lex_min(kept, a));
        assert(is_lex_max(kept, b));
        lemma_lex_min_unique(kept, a);
        lemma_lex_max_unique(kept, b);
        lemma_side_ignores_other_points(points, (a, b), keep);
        lemma_side_ignores_other_points(points, (b, a), keep);
    }
}

/// The hull of the vertices of a hull is that hull: feeding the vertices of
/// `hull(points)` back, in the order in which `points` has them, yields the
/// same edges in the same order.
pub proof fn lemma_hull_of_vertices(points: Seq<Point>)
    ensures
        hull(hull_vertices(points)) == hull(points),
{
    let edges = hull(points);
    let keep = |p: Point| is_vertex(hull(points), p);
    assert forall|i: int| 0 <= i < edges.len() implies #[trigger] both_ends(keep)(edges[i]) by {
        assert(is_vertex(edges, edges[i].0));
        assert(is_vertex(edges, edges[i].1));
    }
    lemma_hull_ignores_other_points(points, keep);
}

} // verus!
