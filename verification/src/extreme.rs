//! The two extreme points of a point set, which give the construction its
//! first dividing line.
//!
//! Points are ordered by `x`, and by `y` among points of equal `x`. The order
//! is total, so a non-empty set has exactly one least and one greatest point.

use vstd::prelude::*;
use crate::geometry::{Line, Point};

verus! {

/// `p` comes no later than `q` in the order by `x`, then by `y`.
pub open spec fn lex_le(p: Point, q: Point) -> bool {
    p.x < q.x || (p.x == q.x && p.y <= q.y)
}

/// `m` occurs in `points` and no point of `points` comes before it.
pub open spec fn is_lex_min(points: Seq<Point>, m: Point) -> bool {
    &&& points.contains(m)
    &&& forall|i: int| 0 <= i < points.len() ==> lex_le(m, #[trigger] points[i])
}

/// `m` occurs in `points` and no point of `points` comes after it.
pub open spec fn is_lex_max(points: Seq<Point>, m: Point) -> bool {
    &&& points.contains(m)
    &&& forall|i: int| 0 <= i < points.len() ==> lex_le(#[trigger] points[i], m)
}

/// The least point of a non-empty sequence.
pub open spec fn lex_min(points: Seq<Point>) -> Point {
    choose|m: Point| is_lex_min(points, m)
}

/// The greatest point of a non-empty sequence.
pub open spec fn lex_max(points: Seq<Point>) -> Point {
    choose|m: Point| is_lex_max(points, m)
}

/// The line from the least point of a non-empty sequence to its greatest.
pub open spec fn initial_line(points: Seq<Point>) -> Line {
    (lex_min(points), lex_max(points))
}

/// A sequence has at most one least point: `lex_min` names it.
pub proof fn lemma_lex_min_unique(points: Seq<Point>, m: Point)
    requires
        is_lex_min(points, m),
    ensures
        lex_min(points) == m,
{
    let c = lex_min(points);
    assert(is_lex_min(points, c));
    let i = choose|i: int| 0 <= i < points.len() && points[i] == c;
    let j = choose|j: int| 0 <= j < points.len() && points[j] == m;
    assert(lex_le(m, points[i]));
    assert(lex_le(c, points[j]));
}

/// A sequence has at most one greatest point: `lex_max` names it.
pub proof fn lemma_lex_max_unique(points: Seq<Point>, m: Point)
    requires
        is_lex_max(points, m),
    ensures
        lex_max(points) == m,
{
    let c = lex_max(points);
    assert(is_lex_max(points, c));
    let i = choose|i: int| 0 <= i < points.len() && points[i] == c;
    let j = choose|j: int| 0 <= j < points.len() && points[j] == m;
    assert(lex_le(points[i], m));
    assert(lex_le(points[j], c));
}

/// A non-empty sequence has a least and a greatest point.
pub proof fn lemma_extremes_exist(points: Seq<Point>)
    requires
        points.len() > 0,
    ensures
        is_lex_min(points, lex_min(points)),
        is_lex_max(points, lex_max(points)),
    decreases points.len(),
{
    let last = points.last();
    if points.len() == 1 {
        assert(points[0] == last);
        assert(is_lex_min(points, last));
        assert(is_lex_max(points, last));
    } else {
        let front = points.drop_last();
        lemma_extremes_exist(front);
        let lo = lex_min(front);
        let hi = lex_max(front);
        let i = choose|i: int| 0 <= i < front.len() && front[i] == lo;
        let j = choose|j: int| 0 <= j < front.len() && front[j] == hi;
        assert(points[i] == lo && points[j] == hi);
        let new_lo = if lex_le(lo, last) { lo } else { last };
        let new_hi = if lex_le(last, hi) { hi } else { last };
        assert forall|k: int| 0 <= k < points.len() implies lex_le(new_lo, #[trigger] points[k])
            && lex_le(points[k], new_hi) by {
            if k < front.len() {
                assert(lex_le(lo, front[k]) && lex_le(front[k], hi));
            }
        }
        assert(points[points.len() - 1] == last);
        assert(is_lex_min(points, new_lo));
        assert(is_lex_max(points, new_hi));
    }
}

/// Finds the first dividing line: from the least point of `points` to the
/// greatest, in the order by `x` and then by `y`. There is none for an empty
/// slice; for a single point both ends are that point.
pub fn quickhull_init(points: &[Point]) -> (r: Option<Line>)
    ensures
        points@.len() == 0 <==> r is None,
        r matches Some(line) ==> is_lex_min(points@, line.0) && is_lex_max(points@, line.1),
        r matches Some(line) ==> line == initial_line(points@),
{
    if points.len() == 0 {
        return None;
    }
    let mut min_point = points[0];
    let mut max_point = points[0];
    let mut i: usize = 1;
    assert(points@.take(1)[0] == points@[0]);
    while i < points.len()
        invariant
            1 <= i <= points.len(),
            is_lex_min(points@.take(i as int), min_point),
            is_lex_max(points@.take(i as int), max_point),
        decreases points.len() - i,
    {
        let point = points[i];
        let ghost before = points@.take(i as int);
        let ghost after = points@.take(i + 1);
        let ghost old_min = min_point;
        let ghost old_max = max_point;
        if point.x < min_point.x || (point.x == min_point.x && point.y < min_point.y) {
            min_point = point;
        }
        if point.x > max_point.x || (point.x == max_point.x && point.y > max_point.y) {
            max_point = point;
        }
        proof {
            let a = choose|a: int| 0 <= a < before.len() && before[a] == old_min;
            let b = choose|b: int| 0 <= b < before.len() && before[b] == old_max;
            assert(after[a] == old_min && after[b] == old_max);
            assert(after[i as int] == point);
            assert forall|k: int| 0 <= k < after.len() implies lex_le(min_point, #[trigger] after[k])
                && lex_le(after[k], max_point) by {
                if k < i {
                    assert(lex_le(old_min, before[k]) && lex_le(before[k], old_max));
                }
            }
        }
        i += 1;
    }
    proof {
        assert(points@.take(i as int) == points@);
        lemma_lex_min_unique(points@, min_point);
        lemma_lex_max_unique(points@, max_point);
    }
    Some((min_point, max_point))
}

} // verus!
