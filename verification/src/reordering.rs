//! The hull of the vertices of a hull, given in any order: where no three of
//! the vertices lie on one line, it is that hull again, edge for edge.
//!
//! The proof does not follow the construction. It shows that the edges that
//! close a side are a walk from the line's destination back to its origin
//! with no vertex to the right of any step, and that there is only one such
//! walk: from each vertex only one step can be taken.

use vstd::prelude::*;
use crate::convexity::{
    clear_of,
    joining,
    lemma_hull_is_convex,
    lemma_hull_joins_points,
};
use crate::degenerate::lemma_hull_of_collinear;
use crate::extreme::{
    initial_line,
    lemma_extremes_exist,
    lemma_lex_max_unique,
    lemma_lex_min_unique,
    lex_le,
};
use crate::geometry::{cross, is_right_of, lemma_cross_reverse, Line, Point};
use crate::hull::{
    furthest,
    hull,
    hull_side,
    lemma_furthest_is_right,
    lemma_split_shrinks,
    right_points,
};
use crate::orientation::lemma_cross_cyclic;
use crate::sequences::{lemma_all_follows, lemma_all_of_joined, lemma_all_of_one};
use crate::vertices::is_vertex;
use crate::walk::{is_chain, lemma_side_is_chain};

verus! {

/// No three different points of the sequence lie on one line.
pub open spec fn no_three_on_a_line(points: Seq<Point>) -> bool {
    forall|p: Point, q: Point, r: Point|
        points.contains(p) && points.contains(q) && points.contains(r) && p != q && q != r && p
            != r ==> #[trigger] cross(p, q, r) != 0
}

/// Of an edge: its ends are two different points.
pub open spec fn proper() -> spec_fn(Line) -> bool {
    |edge: Line| edge.0 != edge.1
}

/// Every edge but the last starts at a point to the right of `line`.
pub open spec fn starts_on_the_right(edges: Seq<Line>, line: Line) -> bool {
    forall|i: int| 0 <= i < edges.len() - 1 ==> is_right_of(line, (#[trigger] edges[i]).0)
}

/// The edges are a walk round the side of `line` among `vertices`: a chain
/// of proper edges between vertices, from the line's destination back to its
/// origin, that passes only through points to the right of the line and has
/// no vertex to the right of any edge.
pub open spec fn walks_the_side(edges: Seq<Line>, line: Line, vertices: Seq<Point>) -> bool {
    &&& edges.len() > 0
    &&& edges.first().1 == line.1
    &&& edges.last().0 == line.0
    &&& is_chain(edges)
    &&& starts_on_the_right(edges, line)
    &&& edges.all(proper())
    &&& edges.all(joining(vertices))
    &&& edges.all(clear_of(vertices))
}

/// Each edge that closes a side, but the last, starts at a candidate to the
/// right of the line.
proof fn lemma_start_is_on_the_right(cands: Seq<Point>, line: Line, i: int)
    requires
        0 <= i < hull_side(cands, line).len() - 1,
    ensures
        right_points(cands, line).contains(hull_side(cands, line)[i].0),
        is_right_of(line, hull_side(cands, line)[i].0),
    decreases right_points(cands, line).len(),
{
    let right = right_points(cands, line);
    let edges = hull_side(cands, line);
    if right.len() > 0 {
        let s = furthest(right, line);
        let first = hull_side(right, (s, line.1));
        let second = hull_side(right, (line.0, s));
        assert(edges == first + second);
        lemma_furthest_is_right(cands, line);
        lemma_split_shrinks(right, line, s);
        lemma_side_is_chain(right, (s, line.1));
        lemma_side_is_chain(right, (line.0, s));
        // The start is the splitting point, or a candidate to the right of
        // one part: in either case one of the candidates that were to the
        // right of the line.
        let start = edges[i].0;
        if i < first.len() - 1 {
            lemma_start_is_on_the_right(right, (s, line.1), i);
            right.lemma_filter_contains_rev(|p: Point| is_right_of((s, line.1), p), start);
        } else if i == first.len() - 1 {
            assert(start == s);
        } else {
            lemma_start_is_on_the_right(right, (line.0, s), i - first.len());
            right.lemma_filter_contains_rev(|p: Point| is_right_of((line.0, s), p), start);
        }
        let k = choose|k: int| 0 <= k < right.len() && right[k] == start;
        cands.lemma_filter_pred(|p: Point| is_right_of(line, p), k);
    }
}

/// The edges that close a side of a line with two different ends have each
/// two different ends.
proof fn lemma_side_is_proper(cands: Seq<Point>, line: Line)
    requires
        line.0 != line.1,
    ensures
        hull_side(cands, line).all(proper()),
    decreases right_points(cands, line).len(),
{
    let right = right_points(cands, line);
    if right.len() == 0 {
        lemma_all_of_one(line, proper());
    } else {
        let s = furthest(right, line);
        lemma_furthest_is_right(cands, line);
        lemma_split_shrinks(right, line, s);
        assert(!is_right_of(line, line.0));
        assert(!is_right_of(line, line.1)) by (nonlinear_arith);
        lemma_side_is_proper(right, (s, line.1));
        lemma_side_is_proper(right, (line.0, s));
        lemma_all_of_joined(hull_side(right, (s, line.1)), hull_side(right, (line.0, s)), proper());
    }
}

/// What the construction yields on one side is a walk round that side among
/// any vertices that hold the ends of its edges and have no point to the
/// right of any of them.
proof fn lemma_side_is_walk(cands: Seq<Point>, line: Line, vertices: Seq<Point>)
    requires
        line.0 != line.1,
        hull_side(cands, line).all(joining(vertices)),
        hull_side(cands, line).all(clear_of(vertices)),
    ensures
        walks_the_side(hull_side(cands, line), line, vertices),
{
    let edges = hull_side(cands, line);
    lemma_side_is_chain(cands, line);
    lemma_side_is_proper(cands, line);
    assert forall|i: int| 0 <= i < edges.len() - 1 implies is_right_of(
        line,
        (#[trigger] edges[i]).0,
    ) by {
        lemma_start_is_on_the_right(cands, line, i);
    }
}

/// From a vertex only one step can be taken that leaves no vertex to its
/// right: two edges that end at the same vertex, each with no vertex to its
/// right, start at the same vertex.
proof fn lemma_one_step(vertices: Seq<Point>, one: Line, other: Line)
    requires
        no_three_on_a_line(vertices),
        one.1 == other.1,
        proper()(one),
        proper()(other),
        joining(vertices)(one),
        joining(vertices)(other),
        clear_of(vertices)(one),
        clear_of(vertices)(other),
    ensures
        one == other,
{
    let u = one.0;
    let v = other.0;
    let w = one.1;
    if u != v {
        assert(!is_right_of(one, v));
        assert(!is_right_of(other, u));
        assert(cross(u, w, v) != 0);
        lemma_cross_cyclic(u, w, v);
        lemma_cross_reverse(w, v, u);
    }
}

/// Two walks round the same side among the same vertices, of which no three
/// lie on one line, take the same steps as far as both go.
proof fn lemma_walks_agree(one: Seq<Line>, other: Seq<Line>, line: Line, vertices: Seq<Point>, i: int)
    requires
        no_three_on_a_line(vertices),
        walks_the_side(one, line, vertices),
        walks_the_side(other, line, vertices),
        0 <= i < one.len(),
        0 <= i < other.len(),
    ensures
        one[i] == other[i],
    decreases i,
{
    if i > 0 {
        lemma_walks_agree(one, other, line, vertices, i - 1);
        assert(one[i - 1].0 == one[i].1);
        assert(other[i - 1].0 == other[i].1);
    }
    assert(proper()(one[i]) && joining(vertices)(one[i]) && clear_of(vertices)(one[i]));
    assert(proper()(other[i]) && joining(vertices)(other[i]) && clear_of(vertices)(other[i]));
    lemma_one_step(vertices, one[i], other[i]);
}

/// There is one walk round a side among vertices of which no three lie on
/// one line.
proof fn lemma_one_walk(one: Seq<Line>, other: Seq<Line>, line: Line, vertices: Seq<Point>)
    requires
        no_three_on_a_line(vertices),
        walks_the_side(one, line, vertices),
        walks_the_side(other, line, vertices),
    ensures
        one == other,
{
    assert(!is_right_of(line, line.0));
    if one.len() < other.len() {
        lemma_walks_agree(one, other, line, vertices, one.len() - 1);
        assert(is_right_of(line, other[one.len() - 1].0));
    } else if other.len() < one.len() {
        lemma_walks_agree(one, other, line, vertices, other.len() - 1);
        assert(is_right_of(line, one[other.len() - 1].0));
    } else {
        assert forall|i: int| 0 <= i < one.len() implies one[i] == other[i] by {
            lemma_walks_agree(one, other, line, vertices, i);
        }
        assert(one =~= other);
    }
}

/// Where no three vertices lie on one line, the hull of the vertices of a
/// hull, given in any order and any number of times, is that hull: if
/// `vertices` holds exactly the points at which the edges of `hull(points)`
/// end, then its hull has the same edges in the same order.
pub proof fn lemma_hull_of_vertices_in_general_position(points: Seq<Point>, vertices: Seq<Point>)
    requires
        forall|p: Point| #[trigger] vertices.contains(p) <==> is_vertex(hull(points), p),
        no_three_on_a_line(vertices),
    ensures
        hull(vertices) == hull(points),
{
    let edges = hull(points);
    if points.len() == 0 {
        if vertices.len() > 0 {
            assert(vertices.contains(vertices[0]));
        }
    } else {
        lemma_extremes_exist(points);
        lemma_hull_joins_points(points);
        lemma_hull_is_convex(points);
        let (a, b) = initial_line(points);
        let first = hull_side(points, (a, b));
        let second = hull_side(points, (b, a));
        assert(edges == first + second);
        lemma_side_is_chain(points, (a, b));
        lemma_side_is_chain(points, (b, a));
        assert(edges[0] == first.first());
        assert(edges[first.len() - 1] == first.last());
        assert(is_vertex(edges, a) && is_vertex(edges, b));
        assert forall|p: Point| #[trigger] vertices.contains(p) implies points.contains(p) by {
            let i = choose|i: int| 0 <= i < edges.len() && (edges[i].0 == p || edges[i].1 == p);
            assert(points.contains(edges[i].0) && points.contains(edges[i].1));
        }
        assert forall|i: int| 0 <= i < vertices.len() implies lex_le(a, #[trigger] vertices[i])
            && lex_le(vertices[i], b) by {
            assert(vertices.contains(vertices[i]));
            let j = choose|j: int| 0 <= j < points.len() && points[j] == vertices[i];
            assert(lex_le(a, points[j]) && lex_le(points[j], b));
        }
        lemma_lex_min_unique(vertices, a);
        lemma_lex_max_unique(vertices, b);
        let other_first = hull_side(vertices, (a, b));
        let other_second = hull_side(vertices, (b, a));
        assert(vertices.contains(a));
        assert(initial_line(vertices) == (a, b));
        assert(hull(vertices) == other_first + other_second);
        if a == b {
            // All the points are one point.
            assert forall|i: int, j: int, k: int|
                0 <= i < points.len() && 0 <= j < points.len() && 0 <= k < points.len() implies cross(
                #[trigger] points[i],
                #[trigger] points[j],
                #[trigger] points[k],
            ) == 0 by {
                assert(lex_le(a, points[i]) && lex_le(points[i], b));
                assert(lex_le(a, points[j]) && lex_le(points[j], b));
                assert(lex_le(a, points[k]) && lex_le(points[k], b));
            }
            assert forall|i: int, j: int, k: int|
                0 <= i < vertices.len() && 0 <= j < vertices.len() && 0 <= k < vertices.len() implies cross(
                #[trigger] vertices[i],
                #[trigger] vertices[j],
                #[trigger] vertices[k],
            ) == 0 by {
                assert(lex_le(a, vertices[i]) && lex_le(vertices[i], b));
                assert(lex_le(a, vertices[j]) && lex_le(vertices[j], b));
                assert(lex_le(a, vertices[k]) && lex_le(vertices[k], b));
            }
            lemma_hull_of_collinear(points);
            lemma_hull_of_collinear(vertices);
        } else {
            // What the construction yields on either side is a walk among
            // the vertices, whichever points it is given.
            assert forall|e: Line| #[trigger] clear_of(points)(e) implies clear_of(vertices)(e) by {
                assert forall|p: Point| vertices.contains(p) implies !#[trigger] is_right_of(e, p) by {
                    assert(points.contains(p));
                }
            }
            lemma_all_follows(edges, clear_of(points), clear_of(vertices));
            assert forall|i: int| 0 <= i < edges.len() implies #[trigger] joining(vertices)(
                edges[i],
            ) by {
                assert(is_vertex(edges, edges[i].0) && is_vertex(edges, edges[i].1));
            }
            lemma_all_of_joined(first, second, clear_of(vertices));
            lemma_all_of_joined(first, second, joining(vertices));
            lemma_side_is_walk(points, (a, b), vertices);
            lemma_side_is_walk(points, (b, a), vertices);
            lemma_hull_is_convex(vertices);
            lemma_hull_joins_points(vertices);
            lemma_all_of_joined(other_first, other_second, clear_of(vertices));
            lemma_all_of_joined(other_first, other_second, joining(vertices));
            lemma_side_is_walk(vertices, (a, b), vertices);
            lemma_side_is_walk(vertices, (b, a), vertices);
            lemma_one_walk(first, other_first, (a, b), vertices);
            lemma_one_walk(second, other_second, (b, a), vertices);
        }
    }
}

} // verus!
