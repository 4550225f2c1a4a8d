//! Inputs without area: a single point, equal points, points on one line.
//! Their hull is the segment between the two extreme points, once in each
//! direction; for a single point that is twice an edge of length zero.

use vstd::prelude::*;
use crate::extreme::{initial_line, lemma_extremes_exist};
use crate::geometry::{cross, is_right_of, Line, Point};
use crate::hull::{hull, hull_side, right_points};

verus! {

/// Every three points of the sequence lie on one line.
pub open spec fn collinear(points: Seq<Point>) -> bool {
    forall|i: int, j: int, k: int|
        0 <= i < points.len() && 0 <= j < points.len() && 0 <= k < points.len() ==> cross(
            #[trigger] points[i],
            #[trigger] points[j],
            #[trigger] points[k],
        ) == 0
}

/// A line with no candidate to its right is itself the one edge that closes
/// its side.
pub proof fn lemma_side_without_points(cands: Seq<Point>, line: Line)
    requires
        forall|i: int| 0 <= i < cands.len() ==> !is_right_of(line, #[trigger] cands[i]),
    ensures
        hull_side(cands, line) == seq![line],
{
    let right = right_points(cands, line);
    if right.len() > 0 {
        let on_right = |p: Point| is_right_of(line, p);
        cands.lemma_filter_pred(on_right, 0);
        cands.lemma_filter_contains_rev(on_right, right[0]);
        assert(right.contains(right[0]));
        let i = choose|i: int| 0 <= i < cands.len() && cands[i] == right[0];
        assert(!is_right_of(line, cands[i]));
    }
}

/// The hull of points on one line is the segment from the least point to the
/// greatest, followed by the segment back.
pub proof fn lemma_hull_of_collinear(points: Seq<Point>)
    requires
        points.len() > 0,
        collinear(points),
    ensures
        hull(points) == seq![
            initial_line(points),
            (initial_line(points).1, initial_line(points).0),
        ],
{
    lemma_extremes_exist(points);
    let (a, b) = initial_line(points);
    let ia = choose|i: int| 0 <= i < points.len() && points[i] == a;
    let ib = choose|i: int| 0 <= i < points.len() && points[i] == b;
    assert forall|k: int| 0 <= k < points.len() implies !is_right_of((a, b), #[trigger] points[k])
        && !is_right_of((b, a), points[k]) by {
        assert(cross(points[ia], points[ib], points[k]) == 0);
        assert(cross(points[ib], points[ia], points[k]) == 0);
    }
    lemma_side_without_points(points, (a, b));
    lemma_side_without_points(points, (b, a));
    assert(seq![(a, b)] + seq![(b, a)] == seq![(a, b), (b, a)]);
}

/// The hull of a single point is twice the edge from that point to itself.
pub proof fn lemma_hull_of_one_point(p: Point)
    ensures
        hull(seq![p]) == seq![(p, p), (p, p)],
{
    let points = seq![p];
    assert(points[0] == p);
    assert(collinear(points));
    lemma_extremes_exist(points);
    lemma_hull_of_collinear(points);
    let (a, b) = initial_line(points);
    assert(points.contains(a) && points.contains(b));
    assert(a == p && b == p);
}

} // verus!
