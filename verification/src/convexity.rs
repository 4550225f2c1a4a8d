//! The hull is convex: no point of the input lies to the right of any of its
//! edges, and every edge joins two points of the input.
//!
//! The proof follows the construction. Two facts hold of every line that the
//! construction takes up, together with its candidates: every input point to
//! the right of the line is still a candidate, and splitting the line at any
//! input point to its right puts no other input point on the wrong side. Both
//! hold of the first line because its ends are extreme, and both pass from a
//! line to its two parts because the line is split at the furthest point.

use vstd::prelude::*;
use crate::extreme::{
    initial_line,
    is_lex_max,
    is_lex_min,
    lemma_extremes_exist,
    lex_le,
};
use crate::geometry::{cross, is_right_of, scaled_dist, Line, Point};
use crate::hull::{
    furthest,
    hull,
    hull_side,
    lemma_furthest_exists,
    lemma_furthest_is,
    lemma_furthest_is_right,
    lemma_split_shrinks,
    right_points,
};
use crate::sequences::{lemma_all_of_joined, lemma_all_of_one};
use crate::orientation::{
    extreme_among,
    lemma_apex_negative,
    lemma_apex_positive,
    lemma_extreme_order,
    lemma_order_on_negative_side,
    lemma_order_on_positive_side,
    lemma_right_seen_from_destination,
};

verus! {

/// Every point of `inner` occurs in `outer`.
pub open spec fn all_among(inner: Seq<Point>, outer: Seq<Point>) -> bool {
    forall|p: Point| #[trigger] inner.contains(p) ==> outer.contains(p)
}

/// Every point of `all` that lies to the right of `line` is a candidate.
pub open spec fn covers(all: Seq<Point>, cands: Seq<Point>, line: Line) -> bool {
    forall|p: Point| #[trigger] all.contains(p) && is_right_of(line, p) ==> cands.contains(p)
}

/// If `f` is to the right of `line` and `p` is not, then `p` is to the right
/// of neither part of the line split at `f`.
pub open spec fn clean_split(line: Line, f: Point, p: Point) -> bool {
    is_right_of(line, f) && !is_right_of(line, p) ==> !is_right_of((line.0, f), p) && !is_right_of(
        (f, line.1),
        p,
    )
}

/// Splitting `line` at any point of `all` is clean for every point of `all`.
pub open spec fn splits_cleanly(all: Seq<Point>, line: Line) -> bool {
    forall|f: Point, p: Point| all.contains(f) && all.contains(p) ==> #[trigger] clean_split(line, f, p)
}

/// Of an edge: no point of `all` lies to the right of it.
pub open spec fn clear_of(all: Seq<Point>) -> spec_fn(Line) -> bool {
    |edge: Line| forall|p: Point| all.contains(p) ==> !#[trigger] is_right_of(edge, p)
}

/// Of an edge: both its ends occur in `all`.
pub open spec fn joining(all: Seq<Point>) -> spec_fn(Line) -> bool {
    |edge: Line| all.contains(edge.0) && all.contains(edge.1)
}

/// No point of `all` lies to the right of any of the edges.
pub open spec fn none_right_of(all: Seq<Point>, edges: Seq<Line>) -> bool {
    edges.all(clear_of(all))
}

/// Both ends of every edge occur in `all`.
pub open spec fn joins_points_of(all: Seq<Point>, edges: Seq<Line>) -> bool {
    edges.all(joining(all))
}

/// A candidate to the right of the line is one of the points collected there.
proof fn lemma_right_points_hold(cands: Seq<Point>, line: Line, p: Point)
    requires
        cands.contains(p),
        is_right_of(line, p),
    ensures
        right_points(cands, line).contains(p),
{
    let i = choose|i: int| 0 <= i < cands.len() && cands[i] == p;
    cands.lemma_filter_contains(|q: Point| is_right_of(line, q), i);
}

/// The points collected to the right of a line are candidates.
proof fn lemma_right_points_among(cands: Seq<Point>, line: Line)
    ensures
        all_among(right_points(cands, line), cands),
        forall|p: Point| #[trigger]
            right_points(cands, line).contains(p) ==> is_right_of(line, p),
{
    let pred = |q: Point| is_right_of(line, q);
    let right = right_points(cands, line);
    assert forall|p: Point| #[trigger] right.contains(p) implies cands.contains(p) && is_right_of(
        line,
        p,
    ) by {
        cands.lemma_filter_contains_rev(pred, p);
        let i = choose|i: int| 0 <= i < right.len() && right[i] == p;
        cands.lemma_filter_pred(pred, i);
    }
}

/// No point of the input is further to the right of the line than the
/// furthest of the candidates to its right.
proof fn lemma_furthest_is_rightmost(all: Seq<Point>, cands: Seq<Point>, line: Line, q: Point)
    requires
        covers(all, cands, line),
        right_points(cands, line).len() > 0,
        all.contains(q),
    ensures
        cross(line.0, line.1, q) >= cross(
            line.0,
            line.1,
            furthest(right_points(cands, line), line),
        ),
{
    let right = right_points(cands, line);
    lemma_furthest_is_right(cands, line);
    if is_right_of(line, q) {
        lemma_right_points_hold(cands, line, q);
        let k = choose|k: int| 0 <= k < right.len() && right[k] == q;
        let i = lemma_furthest_exists(right, line);
        lemma_furthest_is(right, line, i);
        assert(scaled_dist(line, right[k]) <= scaled_dist(line, right[i]));
    }
}

/// What holds of a line and its candidates holds of both parts of the line,
/// split at the furthest candidate, with the candidates to the line's right.
proof fn lemma_parts_inherit(all: Seq<Point>, cands: Seq<Point>, line: Line)
    requires
        covers(all, cands, line),
        splits_cleanly(all, line),
        all_among(cands, all),
        right_points(cands, line).len() > 0,
    ensures
        ({
            let right = right_points(cands, line);
            let s = furthest(right, line);
            &&& all.contains(s)
            &&& all_among(right, all)
            &&& covers(all, right, (s, line.1))
            &&& covers(all, right, (line.0, s))
            &&& splits_cleanly(all, (s, line.1))
            &&& splits_cleanly(all, (line.0, s))
        }),
{
    let right = right_points(cands, line);
    let s = furthest(right, line);
    let a = line.0;
    let b = line.1;
    lemma_furthest_is_right(cands, line);
    lemma_right_points_among(cands, line);
    assert(all.contains(s));
    assert forall|p: Point| #[trigger] all.contains(p) && is_right_of((s, b), p) implies right.contains(
        p,
    ) by {
        assert(clean_split(line, s, p));
        lemma_right_points_hold(cands, line, p);
    }
    assert forall|p: Point| #[trigger] all.contains(p) && is_right_of((a, s), p) implies right.contains(
        p,
    ) by {
        assert(clean_split(line, s, p));
        lemma_right_points_hold(cands, line, p);
    }
    assert forall|f: Point, p: Point| all.contains(f) && all.contains(p) implies #[trigger] clean_split(
        (s, b),
        f,
        p,
    ) by {
        if is_right_of((s, b), f) && !is_right_of((s, b), p) {
            lemma_furthest_is_rightmost(all, cands, line, f);
            lemma_furthest_is_rightmost(all, cands, line, p);
            lemma_apex_negative(a, b, s, b, f, p);
            assert(clean_split(line, s, f));
            assert(clean_split(line, f, p));
            lemma_right_seen_from_destination((f, b), p);
            if is_right_of(line, f) && is_right_of(line, p) {
                lemma_right_seen_from_destination(line, s);
                lemma_right_seen_from_destination(line, f);
                lemma_right_seen_from_destination(line, p);
                lemma_right_seen_from_destination((s, b), f);
                lemma_right_seen_from_destination((s, b), p);
                lemma_order_on_positive_side(b, a, s, f, p);
            }
        }
    }
    assert forall|f: Point, p: Point| all.contains(f) && all.contains(p) implies #[trigger] clean_split(
        (a, s),
        f,
        p,
    ) by {
        if is_right_of((a, s), f) && !is_right_of((a, s), p) {
            lemma_furthest_is_rightmost(all, cands, line, f);
            lemma_furthest_is_rightmost(all, cands, line, p);
            lemma_right_seen_from_destination((a, s), f);
            lemma_right_seen_from_destination((a, s), p);
            lemma_right_seen_from_destination((f, s), p);
            lemma_apex_positive(a, b, s, a, f, p);
            assert(clean_split(line, s, f));
            assert(clean_split(line, f, p));
            if is_right_of(line, f) && is_right_of(line, p) {
                lemma_order_on_negative_side(a, b, s, f, p);
            }
        }
    }
}

/// A line whose ends are the least and the greatest of the points, in either
/// direction, is split cleanly at every point.
proof fn lemma_extreme_line_splits_cleanly(all: Seq<Point>, line: Line)
    requires
        (is_lex_min(all, line.0) && is_lex_max(all, line.1)) || (is_lex_max(all, line.0)
            && is_lex_min(all, line.1)),
    ensures
        splits_cleanly(all, line),
{
    let a = line.0;
    let b = line.1;
    assert forall|f: Point, p: Point| all.contains(f) && all.contains(p) implies #[trigger] clean_split(
        line,
        f,
        p,
    ) by {
        let i = choose|i: int| 0 <= i < all.len() && all[i] == f;
        let j = choose|j: int| 0 <= j < all.len() && all[j] == p;
        let ia = choose|i: int| 0 <= i < all.len() && all[i] == a;
        let ib = choose|i: int| 0 <= i < all.len() && all[i] == b;
        if is_lex_min(all, a) && is_lex_max(all, b) {
            assert(lex_le(a, all[i]) && lex_le(a, all[j]) && lex_le(a, all[ib]));
            assert(lex_le(all[i], b) && lex_le(all[j], b) && lex_le(all[ia], b));
        } else {
            assert(lex_le(b, all[i]) && lex_le(b, all[j]) && lex_le(b, all[ia]));
            assert(lex_le(all[i], a) && lex_le(all[j], a) && lex_le(all[ib], a));
        }
        assert(extreme_among(a, b, f, p));
        assert(extreme_among(b, a, f, p));
        lemma_extreme_order(a, b, f, p);
        lemma_extreme_order(b, a, f, p);
        lemma_right_seen_from_destination(line, f);
        lemma_right_seen_from_destination(line, p);
        lemma_right_seen_from_destination((f, b), p);
    }
}

/// No input point lies to the right of an edge that closes the side of a
/// line, if every input point to the right of the line is a candidate and the
/// line is split cleanly.
proof fn lemma_side_is_convex(all: Seq<Point>, cands: Seq<Point>, line: Line)
    requires
        covers(all, cands, line),
        splits_cleanly(all, line),
        all_among(cands, all),
        all.contains(line.0),
        all.contains(line.1),
    ensures
        none_right_of(all, hull_side(cands, line)),
        joins_points_of(all, hull_side(cands, line)),
    decreases right_points(cands, line).len(),
{
    let right = right_points(cands, line);
    let edges = hull_side(cands, line);
    if right.len() == 0 {
        assert(edges == seq![line]);
        assert forall|p: Point| all.contains(p) implies !#[trigger] is_right_of(line, p) by {
            if is_right_of(line, p) {
                lemma_right_points_hold(cands, line, p);
            }
        }
        lemma_all_of_one(line, clear_of(all));
        lemma_all_of_one(line, joining(all));
    } else {
        let s = furthest(right, line);
        let first = hull_side(right, (s, line.1));
        let second = hull_side(right, (line.0, s));
        assert(edges == first + second);
        lemma_parts_inherit(all, cands, line);
        lemma_furthest_is_right(cands, line);
        lemma_split_shrinks(right, line, s);
        lemma_side_is_convex(all, right, (s, line.1));
        lemma_side_is_convex(all, right, (line.0, s));
        lemma_all_of_joined(first, second, clear_of(all));
        lemma_all_of_joined(first, second, joining(all));
    }
}

/// The hull is convex: no point of the input lies to the right of any edge of
/// its hull.
pub proof fn lemma_hull_is_convex(points: Seq<Point>)
    ensures
        none_right_of(points, hull(points)),
        forall|i: int, j: int|
            0 <= i < hull(points).len() && 0 <= j < points.len() ==> !is_right_of(
                #[trigger] hull(points)[i],
                #[trigger] points[j],
            ),
{
    lemma_hull_is_sound(points);
    assert forall|i: int, j: int| 0 <= i < hull(points).len() && 0 <= j < points.len() implies !is_right_of(
        #[trigger] hull(points)[i],
        #[trigger] points[j],
    ) by {
        assert(clear_of(points)(hull(points)[i]));
        assert(points.contains(points[j]));
    }
}

/// Every edge of the hull joins two points of the input.
pub proof fn lemma_hull_joins_points(points: Seq<Point>)
    ensures
        joins_points_of(points, hull(points)),
        forall|i: int|
            0 <= i < hull(points).len() ==> points.contains((#[trigger] hull(points)[i]).0)
                && points.contains(hull(points)[i].1),
{
    lemma_hull_is_sound(points);
    assert forall|i: int| 0 <= i < hull(points).len() implies points.contains(
        (#[trigger] hull(points)[i]).0,
    ) && points.contains(hull(points)[i].1) by {
        assert(joining(points)(hull(points)[i]));
    }
}

/// Both halves of what the two laws above state, proved together.
proof fn lemma_hull_is_sound(points: Seq<Point>)
    ensures
        none_right_of(points, hull(points)),
        joins_points_of(points, hull(points)),
{
    if points.len() > 0 {
        lemma_extremes_exist(points);
        let (a, b) = initial_line(points);
        let first = hull_side(points, (a, b));
        let second = hull_side(points, (b, a));
        let edges = hull(points);
        assert(edges == first + second);
        lemma_extreme_line_splits_cleanly(points, (a, b));
        lemma_extreme_line_splits_cleanly(points, (b, a));
        lemma_side_is_convex(points, points, (a, b));
        lemma_side_is_convex(points, points, (b, a));
        lemma_all_of_joined(first, second, clear_of(points));
        lemma_all_of_joined(first, second, joining(points));
    }
}

} // verus!
