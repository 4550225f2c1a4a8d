//! The hull construction: what it yields, as a function of the points given,
//! and the code that computes it.
//!
//! A directed line and a set of candidate points are either closed, when no
//! candidate lies to the right of the line, or split at the candidate furthest
//! from the line into two shorter lines, each taken up with the candidates
//! that were to the right of the first. The hull of a point set is what this
//! yields for the line between the two extreme points, taken in both
//! directions.

use vstd::prelude::*;
use crate::convexity::{lemma_hull_is_convex, lemma_hull_joins_points};
use crate::extreme::{initial_line, quickhull_init};
use crate::geometry::{is_right_of, line_dist, line_right, scaled_dist, Line, Point};
use crate::walk::{is_chain, lemma_hull_is_closed_walk};

verus! {

/// The candidates that lie to the right of `line`, in the order given.
pub open spec fn right_points(cands: Seq<Point>, line: Line) -> Seq<Point> {
    cands.filter(|p: Point| is_right_of(line, p))
}

/// `s[i]` is as far from `line` as any point of `s`, and further than every
/// point that follows it: of several points at the greatest distance, the last
/// one is the furthest.
pub open spec fn is_furthest_at(s: Seq<Point>, line: Line, i: int) -> bool {
    &&& 0 <= i < s.len()
    &&& forall|j: int| 0 <= j < s.len() ==> scaled_dist(line, #[trigger] s[j]) <= scaled_dist(line, s[i])
    &&& forall|j: int| i < j < s.len() ==> scaled_dist(line, #[trigger] s[j]) < scaled_dist(line, s[i])
}

/// The point of a non-empty sequence that is furthest from `line`.
pub open spec fn furthest(s: Seq<Point>, line: Line) -> Point {
    s[choose|i: int| is_furthest_at(s, line, i)]
}

/// The edges that close the side to the right of `line`, from the candidates
/// `cands`, in the order in which they are found: those between the furthest
/// point and the line's destination first, then those between the line's
/// origin and the furthest point.
pub open spec fn hull_side(cands: Seq<Point>, line: Line) -> Seq<Line>
    decreases right_points(cands, line).len(),
    via hull_side_terminates
{
    let right = right_points(cands, line);
    if right.len() == 0 {
        seq![line]
    } else {
        let f = furthest(right, line);
        hull_side(right, (f, line.1)) + hull_side(right, (line.0, f))
    }
}

/// The hull of `points`: nothing for no points, else the side to the right of
/// the line from the least point to the greatest, followed by the side to the
/// right of the reversed line.
pub open spec fn hull(points: Seq<Point>) -> Seq<Line> {
    if points.len() == 0 {
        Seq::empty()
    } else {
        let (a, b) = initial_line(points);
        hull_side(points, (a, b)) + hull_side(points, (b, a))
    }
}

/// Every non-empty sequence has a furthest point, and the index of it.
pub proof fn lemma_furthest_exists(s: Seq<Point>, line: Line) -> (i: int)
    requires
        s.len() > 0,
    ensures
        is_furthest_at(s, line, i),
    decreases s.len(),
{
    if s.len() == 1 {
        0
    } else {
        let front = s.drop_last();
        let k = lemma_furthest_exists(front, line);
        let last = s.len() - 1;
        let i = if scaled_dist(line, s[last]) >= scaled_dist(line, s[k]) { last } else { k };
        assert forall|j: int| 0 <= j < s.len() implies scaled_dist(line, #[trigger] s[j])
            <= scaled_dist(line, s[i]) by {
            if j < last {
                assert(scaled_dist(line, front[j]) <= scaled_dist(line, front[k]));
            }
        }
        assert forall|j: int| i < j < s.len() implies scaled_dist(line, #[trigger] s[j])
            < scaled_dist(line, s[i]) by {
            if j < last {
                assert(scaled_dist(line, front[j]) < scaled_dist(line, front[k]));
            }
        }
        i
    }
}

/// A sequence has its furthest point at one index only.
pub proof fn lemma_furthest_unique(s: Seq<Point>, line: Line, i: int, j: int)
    requires
        is_furthest_at(s, line, i),
        is_furthest_at(s, line, j),
    ensures
        i == j,
{
    if i < j {
        assert(scaled_dist(line, s[j]) < scaled_dist(line, s[i]));
    } else if j < i {
        assert(scaled_dist(line, s[i]) < scaled_dist(line, s[j]));
    }
}

/// The point found at the index where `is_furthest_at` holds is `furthest`.
pub proof fn lemma_furthest_is(s: Seq<Point>, line: Line, i: int)
    requires
        is_furthest_at(s, line, i),
    ensures
        furthest(s, line) == s[i],
{
    let c = choose|c: int| is_furthest_at(s, line, c);
    lemma_furthest_unique(s, line, i, c);
}

/// The furthest of the points to the right of a line is one of them, and is
/// to the right of the line.
pub proof fn lemma_furthest_is_right(cands: Seq<Point>, line: Line)
    requires
        right_points(cands, line).len() > 0,
    ensures
        right_points(cands, line).contains(furthest(right_points(cands, line), line)),
        cands.contains(furthest(right_points(cands, line), line)),
        is_right_of(line, furthest(right_points(cands, line), line)),
{
    let right = right_points(cands, line);
    let pred = |p: Point| is_right_of(line, p);
    let i = lemma_furthest_exists(right, line);
    lemma_furthest_is(right, line, i);
    assert(right[i] == furthest(right, line));
    cands.lemma_filter_pred(pred, i);
    cands.lemma_filter_contains_rev(pred, right[i]);
}

/// Filtering drops at least the one element that fails the test.
pub proof fn lemma_filter_drops<A>(s: Seq<A>, pred: spec_fn(A) -> bool, x: A)
    requires
        s.contains(x),
        !pred(x),
    ensures
        s.filter(pred).len() < s.len(),
    decreases s.len(),
{
    reveal(Seq::filter);
    let front = s.drop_last();
    if s.last() == x {
        front.lemma_filter_len(pred);
    } else {
        let i = choose|i: int| 0 <= i < s.len() && s[i] == x;
        assert(front[i] == x);
        lemma_filter_drops(front, pred, x);
    }
}

/// Splitting a line at one of the candidates to its right leaves fewer
/// candidates to the right of either part: the splitting point itself is on
/// both parts.
pub proof fn lemma_split_shrinks(right: Seq<Point>, line: Line, f: Point)
    requires
        right.contains(f),
    ensures
        right_points(right, (f, line.1)).len() < right.len(),
        right_points(right, (line.0, f)).len() < right.len(),
{
    assert(!is_right_of((f, line.1), f));
    assert(!is_right_of((line.0, f), f)) by (nonlinear_arith);
    lemma_filter_drops(right, |p: Point| is_right_of((f, line.1), p), f);
    lemma_filter_drops(right, |p: Point| is_right_of((line.0, f), p), f);
}

#[via_fn]
proof fn hull_side_terminates(cands: Seq<Point>, line: Line) {
    let right = right_points(cands, line);
    if right.len() > 0 {
        let f = furthest(right, line);
        lemma_furthest_is_right(cands, line);
        lemma_split_shrinks(right, line, f);
        right.lemma_filter_len(|p: Point| is_right_of((f, line.1), p));
        right.lemma_filter_len(|p: Point| is_right_of((line.0, f), p));
        right_points(right, (f, line.1)).lemma_filter_len(|p: Point| is_right_of((f, line.1), p));
        right_points(right, (line.0, f)).lemma_filter_len(|p: Point| is_right_of((line.0, f), p));
    }
}

/// Collects the points of `points` that lie to the right of `line`, keeping
/// their order.
pub fn points_right_of(points: &[Point], line: Line) -> (right: Vec<Point>)
    ensures
        right@ == right_points(points@, line),
{
    let mut right: Vec<Point> = Vec::new();
    let mut i: usize = 0;
    proof {
        reveal(Seq::filter);
        assert(points@.take(0).len() == 0);
    }
    while i < points.len()
        invariant
            i <= points.len(),
            right@ == right_points(points@.take(i as int), line),
        decreases points.len() - i,
    {
        let pt = points[i];
        proof {
            assert(points@.take(i + 1) == points@.take(i as int).push(pt));
            points@.take(i as int).lemma_filter_push(pt, |p: Point| is_right_of(line, p));
        }
        if line_right(line, pt) {
            right.push(pt);
        }
        i += 1;
    }
    proof {
        assert(points@.take(i as int) == points@);
    }
    right
}

/// Finds the point of `points` that is furthest from `line`; of several at the
/// greatest distance, the one that comes last. There is none in an empty slice.
pub fn furthest_from(points: &[Point], line: Line) -> (r: Option<Point>)
    ensures
        points@.len() == 0 <==> r is None,
        r matches Some(f) ==> f == furthest(points@, line),
        r matches Some(f) ==> exists|i: int| is_furthest_at(points@, line, i) && points@[i] == f,
{
    if points.len() == 0 {
        return None;
    }
    let mut best: usize = 0;
    let mut best_dist: u128 = line_dist(line, points[0]).numerator;
    let mut i: usize = 1;
    while i < points.len()
        invariant
            1 <= i <= points.len(),
            best_dist == scaled_dist(line, points@[best as int]),
            is_furthest_at(points@.take(i as int), line, best as int),
        decreases points.len() - i,
    {
        let ghost before = points@.take(i as int);
        let ghost after = points@.take(i + 1);
        let ghost old_best = best as int;
        let d: u128 = line_dist(line, points[i]).numerator;
        if d >= best_dist {
            best = i;
            best_dist = d;
        }
        proof {
            assert forall|j: int| 0 <= j < after.len() implies scaled_dist(line, #[trigger] after[j])
                <= scaled_dist(line, after[best as int]) by {
                if j < i {
                    assert(scaled_dist(line, before[j]) <= scaled_dist(line, before[old_best]));
                }
            }
            assert forall|j: int| best < j < after.len() implies scaled_dist(line, #[trigger] after[j])
                < scaled_dist(line, after[best as int]) by {
                if j < i {
                    assert(scaled_dist(line, before[j]) < scaled_dist(line, before[old_best]));
                }
            }
        }
        i += 1;
    }
    proof {
        assert(points@.take(i as int) == points@);
        lemma_furthest_is(points@, line, best as int);
    }
    Some(points[best])
}

/// Closes the side to the right of `line`: appends to `out_lines` the hull
/// edges found there among `points`. A line with no point to its right is
/// itself the one edge; otherwise the line is split at the furthest such point
/// and both parts are closed in turn, from the points that were to the right.
pub fn quickhull_recursive(points: &[Point], line: Line, out_lines: &mut Vec<Line>)
    ensures
        final(out_lines)@ == old(out_lines)@ + hull_side(points@, line),
    decreases right_points(points@, line).len(),
{
    let right = points_right_of(points, line);
    match furthest_from(right.as_slice(), line) {
        None => {
            out_lines.push(line);
            proof {
                assert(hull_side(points@, line) == seq![line]);
                assert(old(out_lines)@.push(line) == old(out_lines)@ + seq![line]);
            }
        },
        Some(f) => {
            proof {
                lemma_furthest_is_right(points@, line);
                lemma_split_shrinks(right@, line, f);
            }
            quickhull_recursive(right.as_slice(), (f, line.1), out_lines);
            quickhull_recursive(right.as_slice(), (line.0, f), out_lines);
            proof {
                assert(hull_side(points@, line) == hull_side(right@, (f, line.1)) + hull_side(
                    right@,
                    (line.0, f),
                ));
                assert(old(out_lines)@ + hull_side(right@, (f, line.1)) + hull_side(
                    right@,
                    (line.0, f),
                ) == old(out_lines)@ + (hull_side(right@, (f, line.1)) + hull_side(
                    right@,
                    (line.0, f),
                )));
            }
        },
    }
}

/// Calculates the convex hull of a set of points, as a list of directed edges.
///
/// No points have no edges. Otherwise the edges are those of [`hull`]: every
/// one joins two of the points given, none of the points given lies to the
/// right of any of them, and they come in walking order, each starting where
/// the next one ends. A single point, or several equal points, yield two
/// edges of length zero; points on one line yield the segment between the two
/// extreme points, once in each direction.
pub fn quickhull(points: &[Point]) -> (lines: Vec<Line>)
    ensures
        lines@ == hull(points@),
        points@.len() == 0 <==> lines@.len() == 0,
        forall|i: int, j: int|
            0 <= i < lines@.len() && 0 <= j < points@.len() ==> !is_right_of(
                #[trigger] lines@[i],
                #[trigger] points@[j],
            ),
        forall|i: int|
            0 <= i < lines@.len() ==> points@.contains((#[trigger] lines@[i]).0)
                && points@.contains(lines@[i].1),
        points@.len() > 0 ==> lines@.len() >= 2 && is_chain(lines@) && lines@.last().0
            == lines@.first().1,
{
    proof {
        lemma_hull_is_convex(points@);
        lemma_hull_joins_points(points@);
        if points@.len() > 0 {
            lemma_hull_is_closed_walk(points@);
        }
    }
    let mut lines: Vec<Line> = Vec::new();
    let init_line = match quickhull_init(points) {
        None => {
            return lines;
        },
        Some(l) => l,
    };
    let (init_a, init_b) = init_line;
    quickhull_recursive(points, (init_a, init_b), &mut lines);
    quickhull_recursive(points, (init_b, init_a), &mut lines);
    proof {
        assert(Seq::<Line>::empty() + hull_side(points@, (init_a, init_b)) == hull_side(
            points@,
            (init_a, init_b),
        ));
    }
    lines
}

} // verus!
