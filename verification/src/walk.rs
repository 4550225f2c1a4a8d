//! The edges of a hull come in walking order: each starts where the next one
//! ends, and the last starts where the first ends.

use vstd::prelude::*;
use crate::extreme::initial_line;
use crate::geometry::{Line, Point};
use crate::hull::{
    furthest,
    hull,
    hull_side,
    lemma_furthest_is_right,
    lemma_split_shrinks,
    right_points,
};

verus! {

/// Each edge starts where the next one ends.
pub open spec fn is_chain(edges: Seq<Line>) -> bool {
    forall|i: int| 0 <= i < edges.len() - 1 ==> (#[trigger] edges[i]).0 == edges[i + 1].1
}

/// Two chains, the second starting where the first ends off, make one chain
/// when joined.
pub proof fn lemma_chain_of_joined(first: Seq<Line>, second: Seq<Line>)
    requires
        first.len() > 0,
        second.len() > 0,
        is_chain(first),
        is_chain(second),
        first.last().0 == second.first().1,
    ensures
        is_chain(first + second),
{
    let joined = first + second;
    assert forall|i: int| 0 <= i < joined.len() - 1 implies (#[trigger] joined[i]).0 == joined[i
        + 1].1 by {
        if i < first.len() - 1 {
            assert(first[i].0 == first[i + 1].1);
        } else if i >= first.len() {
            assert(second[i - first.len()].0 == second[i - first.len() + 1].1);
        }
    }
}

/// The edges that close a side form a chain from the line's destination back
/// to its origin: the first ends where the line ends, each starts where the
/// next one ends, and the last starts where the line starts.
pub proof fn lemma_side_is_chain(cands: Seq<Point>, line: Line)
    ensures
        hull_side(cands, line).len() > 0,
        hull_side(cands, line).first().1 == line.1,
        hull_side(cands, line).last().0 == line.0,
        is_chain(hull_side(cands, line)),
    decreases right_points(cands, line).len(),
{
    let right = right_points(cands, line);
    if right.len() > 0 {
        let s = furthest(right, line);
        let first = hull_side(right, (s, line.1));
        let second = hull_side(right, (line.0, s));
        let edges = hull_side(cands, line);
        assert(edges == first + second);
        lemma_furthest_is_right(cands, line);
        lemma_split_shrinks(right, line, s);
        lemma_side_is_chain(right, (s, line.1));
        lemma_side_is_chain(right, (line.0, s));
        lemma_chain_of_joined(first, second);
    }
}

/// The hull of a non-empty input is a closed walk: each edge starts where the
/// next one ends, and the last one starts where the first one ends.
pub proof fn lemma_hull_is_closed_walk(points: Seq<Point>)
    requires
        points.len() > 0,
    ensures
        hull(points).len() >= 2,
        is_chain(hull(points)),
        hull(points).last().0 == hull(points).first().1,
{
    let (a, b) = initial_line(points);
    let first = hull_side(points, (a, b));
    let second = hull_side(points, (b, a));
    let edges = hull(points);
    assert(edges == first + second);
    lemma_side_is_chain(points, (a, b));
    lemma_side_is_chain(points, (b, a));
    lemma_chain_of_joined(first, second);
}

} // verus!
