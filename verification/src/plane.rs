//! Facts about the orientation of points in the plane.

use vstd::prelude::*;
use crate::point::{lex_less, lex_less_from};
use crate::triangle::orient2d;

verus! {

/// Whether `a` comes before `b` in the order of points, for points of the
/// plane: by the first coordinate, then by the second.
pub open spec fn before(a: Seq<real>, b: Seq<real>) -> bool {
    a[0] < b[0] || (a[0] == b[0] && a[1] < b[1])
}

/// The square of the distance of a point from the origin.
pub open spec fn norm2(p: Seq<real>) -> real {
    p[0] * p[0] + p[1] * p[1]
}

/// The determinant with a row `x, y, x * x + y * y, 1` for each of the four
/// points, expanded along its third column. For `a`, `b`, `c` that turn
/// counter-clockwise it is positive where `d` lies inside the circle through
/// them, zero where it lies on the circle, and negative where it lies
/// outside.
pub open spec fn in_circle(a: Seq<real>, b: Seq<real>, c: Seq<real>, d: Seq<real>) -> real {
    norm2(a) * orient2d(b, c, d) - norm2(b) * orient2d(a, c, d) + norm2(c) * orient2d(a, b, d)
        - norm2(d) * orient2d(a, b, c)
}

/// The order of points, written out for the plane.
pub proof fn lemma_lex_plane(a: Seq<real>, b: Seq<real>)
    requires
        a.len() == 2,
        b.len() == 2,
    ensures
        lex_less(a, b) == before(a, b),
{
    reveal_with_fuel(lex_less_from, 3);
}

/// The cross product of the vectors `(ux, uy)` and `(vx, vy)`.
pub open spec fn wedge(ux: real, uy: real, vx: real, vy: real) -> real {
    ux * vy - uy * vx
}

/// `x` seen from the side of a chain: as it is for the lower chain, with the
/// opposite sign for the upper chain.
pub open spec fn sided(lower: bool, x: real) -> real {
    if lower {
        x
    } else {
        -x
    }
}

/// The sign of a product, from the signs of its factors.
pub proof fn lemma_product_sign(a: real, b: real)
    by (nonlinear_arith)
    ensures
        a >= 0real && b >= 0real ==> a * b >= 0real,
        a <= 0real && b <= 0real ==> a * b >= 0real,
        a >= 0real && b <= 0real ==> a * b <= 0real,
        a <= 0real && b >= 0real ==> a * b <= 0real,
        a > 0real && b > 0real ==> a * b > 0real,
        a > 0real && b < 0real ==> a * b < 0real,
        a < 0real && b > 0real ==> a * b < 0real,
        a < 0real && b < 0real ==> a * b > 0real,
        a == 0real || b == 0real ==> a * b == 0real,
{
}

/// For three vectors of the plane, the first coordinates weigh the cross
/// products of the other two to zero.
pub proof fn lemma_three_term(ux: real, uy: real, vx: real, vy: real, wx: real, wy: real)
    ensures
        ux * wedge(vx, vy, wx, wy) + vx * wedge(wx, wy, ux, uy) + wx * wedge(ux, uy, vx, vy)
            == 0real,
{
    assert(ux * (vx * wy - vy * wx) == ux * (vx * wy) - ux * (vy * wx)) by (nonlinear_arith);
    assert(vx * (wx * uy - wy * ux) == vx * (wx * uy) - vx * (wy * ux)) by (nonlinear_arith);
    assert(wx * (ux * vy - uy * vx) == wx * (ux * vy) - wx * (uy * vx)) by (nonlinear_arith);
    assert(ux * (vx * wy) == vx * (wy * ux)) by (nonlinear_arith);
    assert(ux * (vy * wx) == wx * (ux * vy)) by (nonlinear_arith);
    assert(vx * (wx * uy) == wx * (uy * vx)) by (nonlinear_arith);
}

/// The doubled area of a triangle is the cross product of the two edges that
/// leave its first point.
pub proof fn lemma_orient_wedge(a: Seq<real>, b: Seq<real>, c: Seq<real>)
    ensures
        orient2d(a, b, c) == wedge(b[0] - a[0], b[1] - a[1], c[0] - a[0], c[1] - a[1]),
{
    let (ax, ay, bx, by, cx, cy) = (a[0], a[1], b[0], b[1], c[0], c[1]);
    assert((ax - cx) * (by - cy) == ax * by - ax * cy - cx * by + cx * cy) by (nonlinear_arith);
    assert((ay - cy) * (bx - cx) == ay * bx - ay * cx - cy * bx + cy * cx) by (nonlinear_arith);
    assert((bx - ax) * (cy - ay) == bx * cy - bx * ay - ax * cy + ax * ay) by (nonlinear_arith);
    assert((by - ay) * (cx - ax) == by * cx - by * ax - ay * cx + ay * ax) by (nonlinear_arith);
    assert(ax * by == by * ax && ay * bx == bx * ay && bx * cy == cy * bx && by * cx == cx * by && cx
        * ay == ay * cx && cy * ax == ax * cy && cx * cy == cy * cx && ax * ay == ay * ax)
        by (nonlinear_arith);
}

/// The cross product of two position vectors in the plane.
pub open spec fn cross2(a: Seq<real>, b: Seq<real>) -> real {
    a[0] * b[1] - a[1] * b[0]
}

/// The doubled area of a triangle is the sum of the cross products along its
/// three sides.
pub proof fn lemma_orient_cross(a: Seq<real>, b: Seq<real>, c: Seq<real>)
    ensures
        orient2d(a, b, c) == cross2(a, b) + cross2(b, c) + cross2(c, a),
        cross2(a, b) == -cross2(b, a),
{
    let (ax, ay, bx, by, cx, cy) = (a[0], a[1], b[0], b[1], c[0], c[1]);
    assert((ax - cx) * (by - cy) == ax * by - ax * cy - cx * by + cx * cy) by (nonlinear_arith);
    assert((ay - cy) * (bx - cx) == ay * bx - ay * cx - cy * bx + cy * cx) by (nonlinear_arith);
    assert(ax * by == by * ax && ay * bx == bx * ay && bx * cy == cy * bx && by * cx == cx * by && cx
        * ay == ay * cx && cy * ax == ax * cy && cx * cy == cy * cx) by (nonlinear_arith);
}

/// Moving each corner of a triangle to the next place keeps its area;
/// swapping two corners changes the sign of the area; a triangle with a
/// corner taken twice has no area.
pub proof fn lemma_orient_turns(a: Seq<real>, b: Seq<real>, c: Seq<real>)
    ensures
        orient2d(b, c, a) == orient2d(a, b, c),
        orient2d(c, a, b) == orient2d(a, b, c),
        orient2d(a, c, b) == -orient2d(a, b, c),
        orient2d(b, a, c) == -orient2d(a, b, c),
        orient2d(c, b, a) == -orient2d(a, b, c),
        orient2d(a, a, c) == 0real,
        orient2d(a, b, b) == 0real,
        orient2d(a, b, a) == 0real,
{
    lemma_orient_cross(a, b, c);
    lemma_orient_cross(b, c, a);
    lemma_orient_cross(c, a, b);
    lemma_orient_cross(a, c, b);
    lemma_orient_cross(b, a, c);
    lemma_orient_cross(c, b, a);
    lemma_orient_cross(a, a, c);
    lemma_orient_cross(a, b, b);
    lemma_orient_cross(a, b, a);
    lemma_orient_cross(b, b, a);
}

/// Where a chain that runs on in the order of points bends to its side at `a`
/// and again at `b` towards `p`, it bends to that side at `a` towards `p` too.
pub proof fn lemma_monotone(
    lower: bool,
    x: Seq<real>,
    a: Seq<real>,
    b: Seq<real>,
    p: Seq<real>,
)
    requires
        before(x, a),
        before(a, b),
        before(b, p),
        sided(lower, orient2d(a, b, p)) >= 0real,
        sided(lower, orient2d(x, a, b)) >= 0real,
    ensures
        sided(lower, orient2d(x, a, p)) >= 0real,
{
    let (xx, xy) = (x[0] - a[0], x[1] - a[1]);
    let (bx, by) = (b[0] - a[0], b[1] - a[1]);
    let (px, py) = (p[0] - a[0], p[1] - a[1]);
    lemma_orient_wedge(a, b, p);
    lemma_orient_wedge(a, b, x);
    lemma_orient_wedge(a, p, x);
    lemma_orient_turns(x, a, b);
    lemma_orient_turns(x, a, p);
    let bp = wedge(bx, by, px, py);
    let bxw = wedge(bx, by, xx, xy);
    let pxw = wedge(px, py, xx, xy);
    assert(orient2d(a, b, p) == bp);
    assert(orient2d(x, a, b) == bxw);
    assert(orient2d(x, a, p) == pxw);
    // bx * pxw + px * wedge(X, B) + xx * bp == 0
    lemma_three_term(bx, by, px, py, xx, xy);
    assert(wedge(xx, xy, bx, by) == -bxw) by (nonlinear_arith)
        requires
            bxw == wedge(bx, by, xx, xy),
    ;
    let t1 = px * bxw;
    let t2 = xx * bp;
    assert(px * wedge(xx, xy, bx, by) == -t1) by (nonlinear_arith)
        requires
            wedge(xx, xy, bx, by) == -bxw,
            t1 == px * bxw,
    ;
    assert(bx * pxw == t1 - t2);
    lemma_product_sign(px, bxw);
    lemma_product_sign(xx, bp);
    lemma_product_sign(bx, pxw);
    if bx == 0real {
        // b lies straight above a
        lemma_product_sign(by, px);
        lemma_product_sign(by, xx);
        lemma_product_sign(py, xx);
        lemma_product_sign(px, xy);
        lemma_product_sign(bx, py);
        lemma_product_sign(bx, xy);
        assert(bp == bx * py - by * px);
        assert(bxw == bx * xy - by * xx);
        assert(pxw == px * xy - py * xx);
    }
}

/// Where the chain bends away from its side at `b` towards `p`, and `q` lies
/// on the side of the edge from `a` to `b`, `q` lies on the side of the edge
/// from `a` to `p`, for `b`, `p` and `q` after `a`.
pub proof fn lemma_tangent_after(
    lower: bool,
    a: Seq<real>,
    b: Seq<real>,
    p: Seq<real>,
    q: Seq<real>,
)
    requires
        before(a, b),
        before(a, p),
        before(a, q),
        sided(lower, orient2d(a, b, p)) < 0real,
        sided(lower, orient2d(a, b, q)) >= 0real,
    ensures
        sided(lower, orient2d(a, p, q)) >= 0real,
{
    let (bx, by) = (b[0] - a[0], b[1] - a[1]);
    let (px, py) = (p[0] - a[0], p[1] - a[1]);
    let (qx, qy) = (q[0] - a[0], q[1] - a[1]);
    lemma_orient_wedge(a, b, p);
    lemma_orient_wedge(a, b, q);
    lemma_orient_wedge(a, p, q);
    let bp = wedge(bx, by, px, py);
    let bq = wedge(bx, by, qx, qy);
    let pq = wedge(px, py, qx, qy);
    // bx * pq + px * wedge(Q, B) + qx * bp == 0
    lemma_three_term(bx, by, px, py, qx, qy);
    assert(wedge(qx, qy, bx, by) == -bq) by (nonlinear_arith)
        requires
            bq == wedge(bx, by, qx, qy),
    ;
    let t1 = px * bq;
    let t2 = qx * bp;
    assert(px * wedge(qx, qy, bx, by) == -t1) by (nonlinear_arith)
        requires
            wedge(qx, qy, bx, by) == -bq,
            t1 == px * bq,
    ;
    assert(bx * pq == t1 - t2);
    lemma_product_sign(px, bq);
    lemma_product_sign(qx, bp);
    lemma_product_sign(bx, pq);
    if bx == 0real {
        lemma_product_sign(by, px);
        lemma_product_sign(by, qx);
        lemma_product_sign(px, qy);
        lemma_product_sign(py, qx);
        lemma_product_sign(bx, py);
        lemma_product_sign(bx, qy);
        assert(bp == bx * py - by * px);
        assert(bq == bx * qy - by * qx);
        assert(pq == px * qy - py * qx);
    }
}

/// Where `p` and `q` lie on the side of the edge from `x` to `a`, `p` after
/// `a` and `q` before it, `q` lies on the side of the edge from `a` to `p`.
pub proof fn lemma_tangent_before(
    lower: bool,
    x: Seq<real>,
    a: Seq<real>,
    p: Seq<real>,
    q: Seq<real>,
)
    requires
        before(x, a),
        before(q, a),
        before(a, p),
        sided(lower, orient2d(x, a, p)) >= 0real,
        sided(lower, orient2d(x, a, q)) >= 0real,
    ensures
        sided(lower, orient2d(a, p, q)) >= 0real,
{
    let (xx, xy) = (x[0] - a[0], x[1] - a[1]);
    let (px, py) = (p[0] - a[0], p[1] - a[1]);
    let (qx, qy) = (q[0] - a[0], q[1] - a[1]);
    lemma_orient_wedge(a, p, x);
    lemma_orient_wedge(a, q, x);
    lemma_orient_wedge(a, p, q);
    lemma_orient_turns(x, a, p);
    lemma_orient_turns(x, a, q);
    let pxw = wedge(px, py, xx, xy);
    let qxw = wedge(qx, qy, xx, xy);
    let pq = wedge(px, py, qx, qy);
    assert(orient2d(x, a, p) == pxw);
    assert(orient2d(x, a, q) == qxw);
    // xx * pq + px * qxw + qx * wedge(X, P) == 0
    lemma_three_term(xx, xy, px, py, qx, qy);
    assert(wedge(xx, xy, px, py) == -pxw) by (nonlinear_arith)
        requires
            pxw == wedge(px, py, xx, xy),
    ;
    let t1 = px * qxw;
    let t2 = qx * pxw;
    assert(qx * wedge(xx, xy, px, py) == -t2) by (nonlinear_arith)
        requires
            wedge(xx, xy, px, py) == -pxw,
            t2 == qx * pxw,
    ;
    assert(xx * pq == t2 - t1);
    lemma_product_sign(px, qxw);
    lemma_product_sign(qx, pxw);
    lemma_product_sign(xx, pq);
    if xx == 0real {
        lemma_product_sign(px, xy);
        lemma_product_sign(qx, xy);
        lemma_product_sign(px, qy);
        lemma_product_sign(py, qx);
        lemma_product_sign(py, xx);
        lemma_product_sign(qy, xx);
        assert(pxw == px * xy - py * xx);
        assert(qxw == qx * xy - qy * xx);
        assert(pq == px * qy - py * qx);
    }
}

proof fn lemma_wedge_difference(bx: real, by: real, x0: real, x1: real, y0: real, y1: real)
    requires
        wedge(bx, by, x0, x1) == 0real,
        wedge(bx, by, y0, y1) == 0real,
    ensures
        bx * (y1 - x1) == by * (y0 - x0),
{
    assert(bx * (y1 - x1) == bx * y1 - bx * x1) by (nonlinear_arith);
    assert(by * (y0 - x0) == by * y0 - by * x0) by (nonlinear_arith);
}

proof fn lemma_parallel(bx: real, by: real, ux: real, uy: real, vx: real, vy: real)
    requires
        bx != 0real || by != 0real,
        bx * uy == by * ux,
        bx * vy == by * vx,
    ensures
        wedge(ux, uy, vx, vy) == 0real,
{
    let uv = ux * vy - uy * vx;
    let k1 = bx * uy;
    let k2 = bx * vy;
    let m1 = by * ux;
    let m2 = by * vx;
    assert(bx * uv == bx * (ux * vy) - bx * (uy * vx)) by (nonlinear_arith)
        requires
            uv == ux * vy - uy * vx,
    ;
    assert(bx * (ux * vy) == ux * k2) by (nonlinear_arith)
        requires
            k2 == bx * vy,
    ;
    assert(bx * (uy * vx) == k1 * vx) by (nonlinear_arith)
        requires
            k1 == bx * uy,
    ;
    assert(ux * m2 == m1 * vx) by (nonlinear_arith)
        requires
            m1 == by * ux,
            m2 == by * vx,
    ;
    assert(bx * uv == 0real);
    assert(by * uv == by * (ux * vy) - by * (uy * vx)) by (nonlinear_arith)
        requires
            uv == ux * vy - uy * vx,
    ;
    assert(by * (ux * vy) == m1 * vy) by (nonlinear_arith)
        requires
            m1 == by * ux,
    ;
    assert(by * (uy * vx) == uy * m2) by (nonlinear_arith)
        requires
            m2 == by * vx,
    ;
    assert(k1 * vy == uy * k2) by (nonlinear_arith)
        requires
            k1 == bx * uy,
            k2 == bx * vy,
    ;
    assert(by * uv == 0real);
    lemma_product_sign(bx, uv);
    lemma_product_sign(by, uv);
}

/// Three points on the line through two different points `a` and `b` lie on
/// one line.
pub proof fn lemma_on_line(a: Seq<real>, b: Seq<real>, x: Seq<real>, y: Seq<real>, z: Seq<real>)
    requires
        a[0] != b[0] || a[1] != b[1],
        orient2d(a, b, x) == 0real,
        orient2d(a, b, y) == 0real,
        orient2d(a, b, z) == 0real,
    ensures
        orient2d(x, y, z) == 0real,
{
    let (bx, by) = (b[0] - a[0], b[1] - a[1]);
    lemma_orient_wedge(a, b, x);
    lemma_orient_wedge(a, b, y);
    lemma_orient_wedge(a, b, z);
    lemma_orient_wedge(x, y, z);
    let (x0, x1) = (x[0] - a[0], x[1] - a[1]);
    let (y0, y1) = (y[0] - a[0], y[1] - a[1]);
    let (z0, z1) = (z[0] - a[0], z[1] - a[1]);
    lemma_wedge_difference(bx, by, x0, x1, y0, y1);
    lemma_wedge_difference(bx, by, x0, x1, z0, z1);
    lemma_parallel(bx, by, y0 - x0, y1 - x1, z0 - x0, z1 - x1);
}

/// For three vectors of the plane, the second coordinates weigh the cross
/// products of the other two to zero.
pub proof fn lemma_three_term_second(ux: real, uy: real, vx: real, vy: real, wx: real, wy: real)
    ensures
        uy * wedge(vx, vy, wx, wy) + vy * wedge(wx, wy, ux, uy) + wy * wedge(ux, uy, vx, vy)
            == 0real,
{
    assert(uy * (vx * wy - vy * wx) == uy * (vx * wy) - uy * (vy * wx)) by (nonlinear_arith);
    assert(vy * (wx * uy - wy * ux) == vy * (wx * uy) - vy * (wy * ux)) by (nonlinear_arith);
    assert(wy * (ux * vy - uy * vx) == wy * (ux * vy) - wy * (uy * vx)) by (nonlinear_arith);
    assert(uy * (vx * wy) == wy * (uy * vx)) by (nonlinear_arith);
    assert(uy * (vy * wx) == vy * (wx * uy)) by (nonlinear_arith);
    assert(vy * (wy * ux) == wy * (ux * vy)) by (nonlinear_arith);
}

proof fn lemma_wedge_parts(ux: real, uy: real, vx: real, vy: real)
    ensures
        wedge(ux, uy, vx, vy) == ux * vy - uy * vx,
        wedge(vx, vy, ux, uy) == -wedge(ux, uy, vx, vy),
{
    assert(vx * uy == uy * vx && vy * ux == ux * vy) by (nonlinear_arith);
}

/// Two edges that end at `m`, the one with `b` and `p` on its left or on its
/// line, the other with `a` and `p` on its right or on its line, lie on one
/// line, for `a` and `b` before `m` and `p` after it: a point after the last
/// point of a hull lies beyond one of the two edges that end there, unless
/// the two edges are one.
pub proof fn lemma_beyond(a: Seq<real>, b: Seq<real>, m: Seq<real>, p: Seq<real>)
    requires
        before(a, m),
        before(b, m),
        before(m, p),
        orient2d(a, m, p) >= 0real,
        orient2d(b, m, p) <= 0real,
        orient2d(a, m, b) >= 0real,
    ensures
        orient2d(a, m, b) == 0real,
{
    let (ax, ay) = (a[0] - m[0], a[1] - m[1]);
    let (bx, by) = (b[0] - m[0], b[1] - m[1]);
    let (px, py) = (p[0] - m[0], p[1] - m[1]);
    lemma_orient_wedge(m, p, a);
    lemma_orient_wedge(m, p, b);
    lemma_orient_wedge(m, b, a);
    lemma_orient_turns(a, m, p);
    lemma_orient_turns(b, m, p);
    lemma_orient_turns(a, m, b);
    let pa = wedge(px, py, ax, ay);
    let pb = wedge(px, py, bx, by);
    let ba = wedge(bx, by, ax, ay);
    assert(orient2d(a, m, p) == pa);
    assert(orient2d(b, m, p) == pb);
    assert(orient2d(a, m, b) == ba);
    lemma_wedge_parts(px, py, ax, ay);
    lemma_wedge_parts(px, py, bx, by);
    lemma_wedge_parts(bx, by, ax, ay);
    // ax * wedge(B, P) + bx * wedge(P, A) + px * wedge(A, B) == 0
    lemma_three_term(ax, ay, bx, by, px, py);
    lemma_three_term_second(ax, ay, bx, by, px, py);
    let t1 = ax * pb;
    let t2 = bx * pa;
    let t3 = px * ba;
    lemma_product_sign(ax, pb);
    lemma_product_sign(bx, pa);
    lemma_product_sign(px, ba);
    lemma_product_sign(ax, -pb);
    lemma_product_sign(px, -ba);
    assert(ax * (-pb) == -t1) by (nonlinear_arith)
        requires
            t1 == ax * pb,
    ;
    assert(px * (-ba) == -t3) by (nonlinear_arith)
        requires
            t3 == px * ba,
    ;
    assert(-t1 + t2 - t3 == 0real);
    if ba > 0real {
        assert(px == 0real);
        let s1 = ay * pb;
        let s3 = py * ba;
        let s2 = by * pa;
        assert(ay * (-pb) == -s1) by (nonlinear_arith)
            requires
                s1 == ay * pb,
        ;
        assert(py * (-ba) == -s3) by (nonlinear_arith)
            requires
                s3 == py * ba,
        ;
        assert(-s1 + s2 - s3 == 0real);
        lemma_product_sign(py, ba);
        lemma_product_sign(bx, py);
        lemma_product_sign(by, px);
        lemma_product_sign(ax, py);
        lemma_product_sign(ay, px);
        lemma_product_sign(px, by);
        lemma_product_sign(py, bx);
        lemma_product_sign(px, ay);
        lemma_product_sign(py, ax);
        lemma_product_sign(ay, pb);
        lemma_product_sign(by, pa);
    }
}

/// Where the two edges that end at `m` lie on one line, a point that lies
/// on the left of the one or on its line, and on the right of the other or
/// on its line, lies on that line.
pub proof fn lemma_between(a: Seq<real>, b: Seq<real>, m: Seq<real>, q: Seq<real>)
    requires
        before(a, m),
        before(b, m),
        orient2d(a, m, b) == 0real,
        orient2d(a, m, q) >= 0real,
        orient2d(b, m, q) <= 0real,
    ensures
        orient2d(a, m, q) == 0real,
{
    let (ax, ay) = (a[0] - m[0], a[1] - m[1]);
    let (bx, by) = (b[0] - m[0], b[1] - m[1]);
    let (qx, qy) = (q[0] - m[0], q[1] - m[1]);
    lemma_orient_wedge(m, q, a);
    lemma_orient_wedge(m, q, b);
    lemma_orient_wedge(m, b, a);
    lemma_orient_turns(a, m, q);
    lemma_orient_turns(b, m, q);
    lemma_orient_turns(a, m, b);
    let qa = wedge(qx, qy, ax, ay);
    let qb = wedge(qx, qy, bx, by);
    let ba = wedge(bx, by, ax, ay);
    assert(orient2d(a, m, q) == qa);
    assert(orient2d(b, m, q) == qb);
    assert(ba == 0real);
    lemma_wedge_parts(qx, qy, ax, ay);
    lemma_wedge_parts(qx, qy, bx, by);
    lemma_wedge_parts(bx, by, ax, ay);
    // ax * wedge(B, Q) + bx * wedge(Q, A) + qx * wedge(A, B) == 0
    lemma_three_term(ax, ay, bx, by, qx, qy);
    lemma_three_term_second(ax, ay, bx, by, qx, qy);
    let t1 = ax * qb;
    let t2 = bx * qa;
    assert(ax * (-qb) == -t1) by (nonlinear_arith)
        requires
            t1 == ax * qb,
    ;
    let s1 = ay * qb;
    let s2 = by * qa;
    assert(ay * (-qb) == -s1) by (nonlinear_arith)
        requires
            s1 == ay * qb,
    ;
    lemma_product_sign(qx, -ba);
    lemma_product_sign(qy, -ba);
    assert(-t1 + t2 == 0real);
    assert(-s1 + s2 == 0real);
    lemma_product_sign(ax, qb);
    lemma_product_sign(bx, qa);
    lemma_product_sign(ay, qb);
    lemma_product_sign(by, qa);
    if bx == 0real {
        lemma_product_sign(bx, ay);
        lemma_product_sign(by, ax);
        assert(ba == bx * ay - by * ax);
    }
}

/// Two pieces of one line that both run on in the order of points have a
/// point on the same side.
pub proof fn lemma_same_side(
    x: Seq<real>,
    a: Seq<real>,
    y: Seq<real>,
    z: Seq<real>,
    p: Seq<real>,
)
    requires
        before(x, a),
        before(y, z),
        orient2d(x, a, y) == 0real,
        orient2d(x, a, z) == 0real,
    ensures
        orient2d(x, a, p) > 0real <==> orient2d(y, z, p) > 0real,
        orient2d(x, a, p) < 0real <==> orient2d(y, z, p) < 0real,
{
    let (dx, dy) = (a[0] - x[0], a[1] - x[1]);
    let (ex, ey) = (z[0] - y[0], z[1] - y[1]);
    let (rx, ry) = (p[0] - y[0], p[1] - y[1]);
    lemma_orient_wedge(x, a, y);
    lemma_orient_wedge(x, a, z);
    lemma_orient_wedge(x, a, p);
    lemma_orient_wedge(y, z, p);
    let (y0, y1) = (y[0] - x[0], y[1] - x[1]);
    let (z0, z1) = (z[0] - x[0], z[1] - x[1]);
    let (s0, s1) = (p[0] - x[0], p[1] - x[1]);
    // wedge(D, E) == 0 and wedge(D, p - x) == wedge(D, R)
    assert(wedge(dx, dy, ex, ey) == wedge(dx, dy, z0, z1) - wedge(dx, dy, y0, y1))
        by (nonlinear_arith)
        requires
            ex == z0 - y0,
            ey == z1 - y1,
    ;
    assert(wedge(dx, dy, rx, ry) == wedge(dx, dy, s0, s1) - wedge(dx, dy, y0, y1))
        by (nonlinear_arith)
        requires
            rx == s0 - y0,
            ry == s1 - y1,
    ;
    let dr = wedge(dx, dy, rx, ry);
    let er = wedge(ex, ey, rx, ry);
    let de = wedge(dx, dy, ex, ey);
    assert(orient2d(x, a, p) == dr);
    assert(orient2d(y, z, p) == er);
    assert(de == 0real);
    lemma_wedge_parts(dx, dy, ex, ey);
    lemma_wedge_parts(dx, dy, rx, ry);
    lemma_wedge_parts(ex, ey, rx, ry);
    // dx * wedge(E, R) + ex * wedge(R, D) + rx * wedge(D, E) == 0
    lemma_three_term(dx, dy, ex, ey, rx, ry);
    lemma_three_term_second(dx, dy, ex, ey, rx, ry);
    let t1 = dx * er;
    let t2 = ex * dr;
    assert(ex * (-dr) == -t2) by (nonlinear_arith)
        requires
            t2 == ex * dr,
    ;
    let s1 = dy * er;
    let s2 = ey * dr;
    assert(ey * (-dr) == -s2) by (nonlinear_arith)
        requires
            s2 == ey * dr,
    ;
    lemma_product_sign(rx, de);
    lemma_product_sign(ry, de);
    assert(t1 == t2);
    assert(s1 == s2);
    lemma_product_sign(dx, er);
    lemma_product_sign(ex, dr);
    lemma_product_sign(dy, er);
    lemma_product_sign(ey, dr);
    lemma_product_sign(dx, ey);
    lemma_product_sign(dy, ex);
    assert(de == dx * ey - dy * ex);
}

} // verus!
