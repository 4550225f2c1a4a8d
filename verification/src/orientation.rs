//! Facts about the cross product that the proofs about the hull rest on.
//!
//! All of them come from one identity between the determinants of four plane
//! vectors. The facts about points say how the side of a line on which a
//! point lies carries over when the line is split at a point to its right.

use vstd::prelude::*;
use crate::extreme::lex_le;
use crate::geometry::{cross, is_right_of, Line, Point};

verus! {

/// The determinant of the vectors `(ux, uy)` and `(vx, vy)`.
pub open spec fn det(ux: int, uy: int, vx: int, vy: int) -> int {
    ux * vy - uy * vx
}

/// A product of three factors does not depend on their order.
proof fn lemma_product_of_three(a: int, b: int, c: int)
    by (nonlinear_arith)
    ensures
        (a * b) * c == (b * c) * a,
        (a * b) * c == (c * a) * b,
{
}

/// A difference multiplied out.
proof fn lemma_difference_times(a: int, b: int, c: int)
    by (nonlinear_arith)
    ensures
        (a - b) * c == a * c - b * c,
{
}

/// Three plane vectors, each weighted by the determinant of the other two
/// taken in turn, add up to the zero vector.
proof fn lemma_weighted_sum_zero(ux: int, uy: int, vx: int, vy: int, wx: int, wy: int)
    ensures
        det(vx, vy, wx, wy) * ux + det(wx, wy, ux, uy) * vx + det(ux, uy, vx, vy) * wx == 0,
        det(vx, vy, wx, wy) * uy + det(wx, wy, ux, uy) * vy + det(ux, uy, vx, vy) * wy == 0,
{
    lemma_difference_times(vx * wy, vy * wx, ux);
    lemma_difference_times(wx * uy, wy * ux, vx);
    lemma_difference_times(ux * vy, uy * vx, wx);
    lemma_product_of_three(vx, wy, ux);
    lemma_product_of_three(vy, wx, ux);
    lemma_product_of_three(wx, uy, vx);
    lemma_difference_times(vx * wy, vy * wx, uy);
    lemma_difference_times(wx * uy, wy * ux, vy);
    lemma_difference_times(ux * vy, uy * vx, wy);
    lemma_product_of_three(vx, wy, uy);
    lemma_product_of_three(wy, ux, vy);
    lemma_product_of_three(vy, wx, uy);
}

/// A multiple of a determinant, written out.
proof fn lemma_scaled_det(k: int, dx: int, dy: int, ux: int, uy: int)
    by (nonlinear_arith)
    ensures
        k * det(dx, dy, ux, uy) == dx * (k * uy) - dy * (k * ux),
{
}

/// A common factor taken out of three products.
proof fn lemma_factor_out(d: int, a: int, b: int, c: int)
    by (nonlinear_arith)
    ensures
        d * a + d * b + d * c == d * (a + b + c),
{
}

/// For any four vectors `d`, `u`, `v`, `w` of the plane,
/// `det(v, w)·det(d, u) + det(w, u)·det(d, v) + det(u, v)·det(d, w) = 0`.
pub proof fn lemma_det_identity(
    dx: int,
    dy: int,
    ux: int,
    uy: int,
    vx: int,
    vy: int,
    wx: int,
    wy: int,
)
    ensures
        det(vx, vy, wx, wy) * det(dx, dy, ux, uy) + det(wx, wy, ux, uy) * det(dx, dy, vx, vy)
            + det(ux, uy, vx, vy) * det(dx, dy, wx, wy) == 0,
{
    let a = det(vx, vy, wx, wy);
    let b = det(wx, wy, ux, uy);
    let c = det(ux, uy, vx, vy);
    lemma_weighted_sum_zero(ux, uy, vx, vy, wx, wy);
    lemma_scaled_det(a, dx, dy, ux, uy);
    lemma_scaled_det(b, dx, dy, vx, vy);
    lemma_scaled_det(c, dx, dy, wx, wy);
    lemma_factor_out(dx, a * uy, b * vy, c * wy);
    lemma_factor_out(dy, a * ux, b * vx, c * wx);
    assert(dx * (a * uy + b * vy + c * wy) == 0);
    assert(dy * (a * ux + b * vx + c * wx) == 0);
}

/// The same identity between the cross products of five points: `o` is the
/// common origin, `e`, `u`, `v`, `w` are the far ends.
pub proof fn lemma_cross_identity(o: Point, e: Point, u: Point, v: Point, w: Point)
    ensures
        cross(o, v, w) * cross(o, e, u) + cross(o, w, u) * cross(o, e, v) + cross(o, u, v) * cross(
            o,
            e,
            w,
        ) == 0,
{
    lemma_det_identity(
        e.x - o.x,
        e.y - o.y,
        u.x - o.x,
        u.y - o.y,
        v.x - o.x,
        v.y - o.y,
        w.x - o.x,
        w.y - o.y,
    );
}

/// Exchanging the two far points changes the sign of the cross product.
pub proof fn lemma_cross_swap(a: Point, b: Point, c: Point)
    by (nonlinear_arith)
    ensures
        cross(a, c, b) == -cross(a, b, c),
{
}

/// Turning the three points round by one place leaves the cross product as
/// it is.
pub proof fn lemma_cross_cyclic(a: Point, b: Point, c: Point)
    by (nonlinear_arith)
    ensures
        cross(b, c, a) == cross(a, b, c),
{
}

/// A point is to the right of a line exactly when, seen from the line's
/// destination, it comes after the line's origin.
pub proof fn lemma_right_seen_from_destination(line: Line, p: Point)
    ensures
        is_right_of(line, p) <==> cross(line.1, line.0, p) > 0,
{
    lemma_cross_cyclic(line.0, line.1, p);
    lemma_cross_swap(line.1, p, line.0);
}

/// The cross product with a line differs between two points by the
/// determinant of the line's direction and the step from one to the other.
pub proof fn lemma_cross_difference(a: Point, b: Point, f: Point, q: Point)
    by (nonlinear_arith)
    ensures
        cross(a, b, q) - cross(a, b, f) == det(b.x - a.x, b.y - a.y, q.x - f.x, q.y - f.y),
{
}

/// A sum of three products that is zero, where no product is positive or
/// none is negative, has each product zero.
proof fn lemma_three_products(k1: int, m1: int, k2: int, m2: int, k3: int, m3: int)
    by (nonlinear_arith)
    requires
        k1 * m1 + k2 * m2 + k3 * m3 == 0,
        (k1 * m1 <= 0 && k2 * m2 <= 0 && k3 * m3 <= 0) || (k1 * m1 >= 0 && k2 * m2 >= 0 && k3 * m3
            >= 0),
    ensures
        k1 * m1 == 0,
        k2 * m2 == 0,
        k3 * m3 == 0,
{
}

/// The sign of a product of two integers.
proof fn lemma_product_sign(k: int, m: int)
    by (nonlinear_arith)
    ensures
        (k > 0 && m > 0) || (k < 0 && m < 0) ==> k * m > 0,
        (k > 0 && m < 0) || (k < 0 && m > 0) ==> k * m < 0,
        k == 0 || m == 0 <==> k * m == 0,
        (k >= 0 && m >= 0) || (k <= 0 && m <= 0) ==> k * m >= 0,
        (k >= 0 && m <= 0) || (k <= 0 && m >= 0) ==> k * m <= 0,
{
}

/// Seen from `o`, let `f` and `p` both lie on the same strict side of the ray
/// to `w` as `s` does (here: the negative side). If `f` comes strictly before
/// `s` and `p` does not, then `p` does not come strictly before `f`.
pub proof fn lemma_order_on_negative_side(o: Point, w: Point, s: Point, f: Point, p: Point)
    requires
        cross(o, w, s) < 0,
        cross(o, w, f) < 0,
        cross(o, w, p) < 0,
        cross(o, s, f) < 0,
        cross(o, s, p) >= 0,
    ensures
        cross(o, f, p) > 0,
{
    lemma_cross_identity(o, w, s, f, p);
    lemma_cross_swap(o, s, p);
    let t1 = cross(o, f, p);
    let k1 = cross(o, w, s);
    lemma_product_sign(cross(o, p, s), cross(o, w, f));
    lemma_product_sign(cross(o, s, f), cross(o, w, p));
    lemma_product_sign(t1, k1);
}

/// The mirror image of [`lemma_order_on_negative_side`].
pub proof fn lemma_order_on_positive_side(o: Point, w: Point, s: Point, f: Point, p: Point)
    requires
        cross(o, w, s) > 0,
        cross(o, w, f) > 0,
        cross(o, w, p) > 0,
        cross(o, s, f) > 0,
        cross(o, s, p) <= 0,
    ensures
        cross(o, f, p) < 0,
{
    lemma_cross_identity(o, w, s, f, p);
    lemma_cross_swap(o, s, p);
    let t1 = cross(o, f, p);
    let k1 = cross(o, w, s);
    lemma_product_sign(cross(o, p, s), cross(o, w, f));
    lemma_product_sign(cross(o, s, f), cross(o, w, p));
    lemma_product_sign(t1, k1);
}

/// Let `s` be strictly to the right of the line `a → b`, and let neither `f`
/// nor `p` be further to the right than `s`. Seen from `s`, if `f` comes
/// strictly before `e` and `p` does not, then `p` does not come strictly
/// before `f`. Here `e` is either end of the line.
pub proof fn lemma_apex_negative(a: Point, b: Point, s: Point, e: Point, f: Point, p: Point)
    requires
        cross(a, b, s) < 0,
        cross(a, b, f) >= cross(a, b, s),
        cross(a, b, p) >= cross(a, b, s),
        e == a || e == b,
        cross(s, e, f) < 0,
        cross(s, e, p) >= 0,
    ensures
        cross(s, f, p) >= 0,
{
    let dx = b.x - a.x;
    let dy = b.y - a.y;
    lemma_cross_difference(a, b, s, f);
    lemma_cross_difference(a, b, s, p);
    lemma_cross_difference(a, b, s, e);
    assert(cross(a, b, a) == 0);
    assert(cross(a, b, b) == 0) by (nonlinear_arith);
    let de = det(dx, dy, e.x - s.x, e.y - s.y);
    let df = det(dx, dy, f.x - s.x, f.y - s.y);
    let dp = det(dx, dy, p.x - s.x, p.y - s.y);
    assert(de > 0 && df >= 0 && dp >= 0);
    lemma_det_identity(
        dx,
        dy,
        e.x - s.x,
        e.y - s.y,
        f.x - s.x,
        f.y - s.y,
        p.x - s.x,
        p.y - s.y,
    );
    lemma_cross_swap(s, e, p);
    assert(cross(s, f, p) * de + cross(s, p, e) * df + cross(s, e, f) * dp == 0);
    lemma_product_sign(cross(s, p, e), df);
    lemma_product_sign(cross(s, e, f), dp);
    lemma_product_sign(cross(s, f, p), de);
}

/// The mirror image of [`lemma_apex_negative`].
pub proof fn lemma_apex_positive(a: Point, b: Point, s: Point, e: Point, f: Point, p: Point)
    requires
        cross(a, b, s) < 0,
        cross(a, b, f) >= cross(a, b, s),
        cross(a, b, p) >= cross(a, b, s),
        e == a || e == b,
        cross(s, e, f) > 0,
        cross(s, e, p) <= 0,
    ensures
        cross(s, f, p) <= 0,
{
    let dx = b.x - a.x;
    let dy = b.y - a.y;
    lemma_cross_difference(a, b, s, f);
    lemma_cross_difference(a, b, s, p);
    lemma_cross_difference(a, b, s, e);
    assert(cross(a, b, a) == 0);
    assert(cross(a, b, b) == 0) by (nonlinear_arith);
    let de = det(dx, dy, e.x - s.x, e.y - s.y);
    let df = det(dx, dy, f.x - s.x, f.y - s.y);
    let dp = det(dx, dy, p.x - s.x, p.y - s.y);
    assert(de > 0 && df >= 0 && dp >= 0);
    lemma_det_identity(
        dx,
        dy,
        e.x - s.x,
        e.y - s.y,
        f.x - s.x,
        f.y - s.y,
        p.x - s.x,
        p.y - s.y,
    );
    lemma_cross_swap(s, e, p);
    assert(cross(s, f, p) * de + cross(s, p, e) * df + cross(s, e, f) * dp == 0);
    lemma_product_sign(cross(s, p, e), df);
    lemma_product_sign(cross(s, e, f), dp);
    lemma_product_sign(cross(s, f, p), de);
}

/// `o` is extreme among `w`, `f` and `p` in the order by `x` and then `y`:
/// it comes before all three, or after all three.
pub open spec fn extreme_among(o: Point, w: Point, f: Point, p: Point) -> bool {
    ||| lex_le(o, w) && lex_le(o, f) && lex_le(o, p)
    ||| lex_le(w, o) && lex_le(f, o) && lex_le(p, o)
}

/// Seen from an extreme point `o`: if `f` comes strictly before `w` and `p`
/// does not, then `p` does not come strictly before `f`; and the same with
/// "after" in place of "before".
pub proof fn lemma_extreme_order(o: Point, w: Point, f: Point, p: Point)
    requires
        extreme_among(o, w, f, p),
    ensures
        cross(o, w, f) < 0 && cross(o, w, p) >= 0 ==> cross(o, f, p) >= 0,
        cross(o, w, f) > 0 && cross(o, w, p) <= 0 ==> cross(o, f, p) <= 0,
{
    let c1 = cross(o, f, p);
    let c2 = cross(o, p, w);
    let c3 = cross(o, w, f);
    lemma_cross_swap(o, w, p);
    if (c3 < 0 && c2 <= 0 && c1 < 0) || (c3 > 0 && c2 >= 0 && c1 > 0) {
        let wx = w.x - o.x;
        let wy = w.y - o.y;
        let fx = f.x - o.x;
        let fy = f.y - o.y;
        let px = p.x - o.x;
        let py = p.y - o.y;
        // With d = (0, -1), det(d, q) is the x coordinate of q.
        lemma_det_identity(0, -1, wx, wy, fx, fy, px, py);
        assert(det(0, -1, wx, wy) == wx && det(0, -1, fx, fy) == fx && det(0, -1, px, py) == px);
        assert(c1 * wx + c2 * fx + c3 * px == 0);
        lemma_product_sign(c1, wx);
        lemma_product_sign(c2, fx);
        lemma_product_sign(c3, px);
        lemma_three_products(c1, wx, c2, fx, c3, px);
        assert(wx == 0 && px == 0);
        assert(c3 == -(wy * fx)) by (nonlinear_arith)
            requires
                c3 == wx * fy - wy * fx,
                wx == 0,
        ;
        assert(c1 == fx * py) by (nonlinear_arith)
            requires
                c1 == fx * py - fy * px,
                px == 0,
        ;
        lemma_product_sign(wy, fx);
        lemma_product_sign(fx, py);
    }
}

} // verus!
