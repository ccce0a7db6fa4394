//! Points inside the circle through three others, in integer coordinates.

use vstd::prelude::*;
use crate::lattice::orient_int;

verus! {

/// The cross product of the integer vectors `(ux, uy)` and `(vx, vy)`.
pub open spec fn wedge_int(ux: int, uy: int, vx: int, vy: int) -> int {
    ux * vy - uy * vx
}

/// The determinant with a row `x, y, x * x + y * y, 1` for each of the four
/// points `a`, `b`, `c`, `d`, expanded along its third column.
pub open spec fn circle_int(
    ax: int,
    ay: int,
    bx: int,
    by: int,
    cx: int,
    cy: int,
    dx: int,
    dy: int,
) -> int {
    (ax * ax + ay * ay) * orient_int(bx, by, cx, cy, dx, dy) - (bx * bx + by * by) * orient_int(
        ax,
        ay,
        cx,
        cy,
        dx,
        dy,
    ) + (cx * cx + cy * cy) * orient_int(ax, ay, bx, by, dx, dy) - (dx * dx + dy * dy) * orient_int(
        ax,
        ay,
        bx,
        by,
        cx,
        cy,
    )
}

proof fn lemma_sign_of_product(a: int, b: int)
    by (nonlinear_arith)
    ensures
        a >= 0 && b >= 0 ==> a * b >= 0,
        a <= 0 && b <= 0 ==> a * b >= 0,
        a >= 0 && b <= 0 ==> a * b <= 0,
        a <= 0 && b >= 0 ==> a * b <= 0,
        a == 0 || b == 0 ==> a * b == 0,
        a * b == b * a,
        a * (-b) == -(a * b),
{
}

proof fn lemma_mean(u: int, w: int)
    by (nonlinear_arith)
    ensures
        2 * (u * w) <= u * u + w * w,
        u * u >= 0,
{
}

proof fn lemma_binomial(p: int, q: int)
    by (nonlinear_arith)
    ensures
        (p + q) * (p + q) == p * p + 2 * (p * q) + q * q,
{
}

proof fn lemma_pairs(x: int, u: int, z: int, w: int)
    by (nonlinear_arith)
    ensures
        (x * u) * (z * w) == (x * z) * (u * w),
{
}

proof fn lemma_double(k: int, t: int)
    by (nonlinear_arith)
    ensures
        k * (2 * t) == 2 * (k * t),
{
}

proof fn lemma_square_of_product(y: int, v: int)
    by (nonlinear_arith)
    ensures
        (y * v) * (y * v) == (y * y) * (v * v),
{
}

proof fn lemma_square_of_mix(x: int, u: int, z: int, w: int)
    ensures
        (x * u + z * w) * (x * u + z * w) == (x * x) * (u * u) + (x * z) * (2 * (u * w)) + (z * z)
            * (w * w),
{
    lemma_binomial(x * u, z * w);
    lemma_square_of_product(x, u);
    lemma_square_of_product(z, w);
    lemma_pairs(x, u, z, w);
    lemma_double(x * z, u * w);
}

proof fn lemma_scale_order(k: int, a: int, b: int)
    by (nonlinear_arith)
    requires
        k >= 0,
        a <= b,
    ensures
        k * a <= k * b,
{
}

proof fn lemma_spread_two(k: int, a: int, b: int)
    by (nonlinear_arith)
    ensures
        k * (a + b) == k * a + k * b,
        (a + b) * k == a * k + b * k,
{
}

proof fn lemma_regroup(x: int, z: int, a: int, c: int)
    by (nonlinear_arith)
    ensures
        (x * x) * a + (x * z) * (a + c) + (z * z) * c == (x + z) * (x * a + z * c),
{
}

proof fn lemma_divide_out(y: int, r: int, s: int)
    by (nonlinear_arith)
    requires
        y > 0,
        (y * y) * r <= -(y * s),
    ensures
        y * r + s <= 0,
{
}

proof fn lemma_bound_by(x: int, z: int, s: int, y: int)
    by (nonlinear_arith)
    requires
        s <= 0,
        -(x + z) <= y,
    ensures
        (x + z) * s <= -(y * s),
{
}

proof fn lemma_square_of_negative(p: int, m: int)
    by (nonlinear_arith)
    requires
        p == -m,
    ensures
        p * p == m * m,
{
}

/// Three vectors of the plane that add up to zero with the weights `x`,
/// `y`, `z`, of which `x` is not positive, `z` is negative and the sum is
/// positive: the squares of their lengths, with the same weights, do not add
/// up to more than zero.
proof fn lemma_weights(
    ux: int,
    uy: int,
    vx: int,
    vy: int,
    wx: int,
    wy: int,
    x: int,
    y: int,
    z: int,
)
    requires
        x * ux + y * vx + z * wx == 0,
        x * uy + y * vy + z * wy == 0,
        x <= 0,
        z < 0,
        x + y + z > 0,
    ensures
        (ux * ux + uy * uy) * x + (vx * vx + vy * vy) * y + (wx * wx + wy * wy) * z <= 0,
{
    let a = ux * ux + uy * uy;
    let b = vx * vx + vy * vy;
    let c = wx * wx + wy * wy;
    lemma_mean(ux, wx);
    lemma_mean(uy, wy);
    lemma_mean(wx, ux);
    lemma_mean(wy, uy);
    // (y v)^2 = (x u + z w)^2, in each coordinate
    let m = x * ux + z * wx;
    let n = x * uy + z * wy;
    lemma_square_of_negative(y * vx, m);
    lemma_square_of_negative(y * vy, n);
    lemma_square_of_product(y, vx);
    lemma_square_of_product(y, vy);
    lemma_square_of_mix(x, ux, z, wx);
    lemma_square_of_mix(x, uy, z, wy);
    let yy = y * y;
    lemma_spread_two(yy, vx * vx, vy * vy);
    assert(yy * b == m * m + n * n);
    // the mixed terms are at most the mean of the squares
    let xz = x * z;
    lemma_sign_of_product(x, z);
    lemma_scale_order(xz, 2 * (ux * wx), ux * ux + wx * wx);
    lemma_scale_order(xz, 2 * (uy * wy), uy * uy + wy * wy);
    let xx = x * x;
    let zz = z * z;
    lemma_spread_two(xx, ux * ux, uy * uy);
    lemma_spread_two(zz, wx * wx, wy * wy);
    lemma_spread_two(xz, ux * ux, wx * wx);
    lemma_spread_two(xz, uy * uy, wy * wy);
    lemma_spread_two(xz, a, c);
    lemma_spread_two(xz, ux * ux, uy * uy);
    lemma_spread_two(xz, wx * wx, wy * wy);
    assert(yy * b <= xx * a + xz * (a + c) + zz * c);
    lemma_regroup(x, z, a, c);
    let s = x * a + z * c;
    lemma_sign_of_product(x, a);
    lemma_sign_of_product(z, c);
    assert(s <= 0);
    lemma_bound_by(x, z, s, y);
    lemma_divide_out(y, b, s);
    lemma_sign_of_product(a, x);
    lemma_sign_of_product(b, y);
    lemma_sign_of_product(c, z);
}

/// The doubled area of a triangle of integer points is the sum of the cross
/// products along its three sides.
pub proof fn lemma_orient_int_cross(ax: int, ay: int, bx: int, by: int, cx: int, cy: int)
    ensures
        orient_int(ax, ay, bx, by, cx, cy) == wedge_int(ax, ay, bx, by) + wedge_int(bx, by, cx, cy)
            + wedge_int(cx, cy, ax, ay),
        wedge_int(ax, ay, bx, by) == -wedge_int(bx, by, ax, ay),
{
    assert((ax - cx) * (by - cy) == ax * by - ax * cy - cx * by + cx * cy) by (nonlinear_arith);
    assert((ay - cy) * (bx - cx) == ay * bx - ay * cx - cy * bx + cy * cx) by (nonlinear_arith);
    assert(ax * by == by * ax && ay * bx == bx * ay && bx * cy == cy * bx && by * cx == cx * by && cx
        * ay == ay * cx && cy * ax == ax * cy && cx * cy == cy * cx) by (nonlinear_arith);
}

/// The doubled area of a triangle of integer points is the cross product of
/// the two edges that leave its first point.
proof fn lemma_orient_int_wedge(ax: int, ay: int, bx: int, by: int, cx: int, cy: int)
    ensures
        orient_int(ax, ay, bx, by, cx, cy) == wedge_int(bx - ax, by - ay, cx - ax, cy - ay),
{
    assert((ax - cx) * (by - cy) == ax * by - ax * cy - cx * by + cx * cy) by (nonlinear_arith);
    assert((ay - cy) * (bx - cx) == ay * bx - ay * cx - cy * bx + cy * cx) by (nonlinear_arith);
    assert((bx - ax) * (cy - ay) == bx * cy - bx * ay - ax * cy + ax * ay) by (nonlinear_arith);
    assert((by - ay) * (cx - ax) == by * cx - by * ax - ay * cx + ay * ax) by (nonlinear_arith);
    assert(ax * by == by * ax && ay * bx == bx * ay && bx * cy == cy * bx && by * cx == cx * by && cx
        * ay == ay * cx && cy * ax == ax * cy && cx * cy == cy * cx && ax * ay == ay * ax)
        by (nonlinear_arith);
}

/// For three vectors of the plane, the first coordinates weigh the cross
/// products of the other two to zero, and so do the second coordinates.
proof fn lemma_three_term_int(ux: int, uy: int, vx: int, vy: int, wx: int, wy: int)
    ensures
        ux * wedge_int(vx, vy, wx, wy) + vx * wedge_int(wx, wy, ux, uy) + wx * wedge_int(
            ux,
            uy,
            vx,
            vy,
        ) == 0,
        uy * wedge_int(vx, vy, wx, wy) + vy * wedge_int(wx, wy, ux, uy) + wy * wedge_int(
            ux,
            uy,
            vx,
            vy,
        ) == 0,
{
    assert(ux * (vx * wy - vy * wx) == ux * (vx * wy) - ux * (vy * wx)) by (nonlinear_arith);
    assert(vx * (wx * uy - wy * ux) == vx * (wx * uy) - vx * (wy * ux)) by (nonlinear_arith);
    assert(wx * (ux * vy - uy * vx) == wx * (ux * vy) - wx * (uy * vx)) by (nonlinear_arith);
    assert(ux * (vx * wy) == vx * (wy * ux)) by (nonlinear_arith);
    assert(ux * (vy * wx) == wx * (ux * vy)) by (nonlinear_arith);
    assert(vx * (wx * uy) == wx * (uy * vx)) by (nonlinear_arith);
    assert(uy * (vx * wy - vy * wx) == uy * (vx * wy) - uy * (vy * wx)) by (nonlinear_arith);
    assert(vy * (wx * uy - wy * ux) == vy * (wx * uy) - vy * (wy * ux)) by (nonlinear_arith);
    assert(wy * (ux * vy - uy * vx) == wy * (ux * vy) - wy * (uy * vx)) by (nonlinear_arith);
    assert(uy * (vx * wy) == wy * (uy * vx)) by (nonlinear_arith);
    assert(uy * (vy * wx) == vy * (wx * uy)) by (nonlinear_arith);
    assert(vy * (wy * ux) == wy * (ux * vy)) by (nonlinear_arith);
}

/// What the areas of the triangles of four integer points are, seen from
/// `d`.
pub open spec fn seen_from(
    ax: int,
    ay: int,
    bx: int,
    by: int,
    cx: int,
    cy: int,
    dx: int,
    dy: int,
) -> (int, int, int) {
    (
        orient_int(dx, dy, bx, by, cx, cy),
        orient_int(ax, ay, dx, dy, cx, cy),
        -orient_int(bx, by, ax, ay, dx, dy),
    )
}

proof fn lemma_areas_from(ax: int, ay: int, bx: int, by: int, cx: int, cy: int, dx: int, dy: int)
    ensures
        ({
            let (x, y, z) = seen_from(ax, ay, bx, by, cx, cy, dx, dy);
            &&& orient_int(bx, by, cx, cy, dx, dy) == x
            &&& orient_int(ax, ay, cx, cy, dx, dy) == -y
            &&& orient_int(ax, ay, bx, by, dx, dy) == z
            &&& orient_int(ax, ay, bx, by, cx, cy) == x + y + z
            &&& x * (ax - dx) + y * (bx - dx) + z * (cx - dx) == 0
            &&& x * (ay - dy) + y * (by - dy) + z * (cy - dy) == 0
        }),
{
    let (x, y, z) = seen_from(ax, ay, bx, by, cx, cy, dx, dy);
    let (px, py) = (ax - dx, ay - dy);
    let (qx, qy) = (bx - dx, by - dy);
    let (rx, ry) = (cx - dx, cy - dy);
    lemma_orient_int_cross(ax, ay, bx, by, cx, cy);
    lemma_orient_int_cross(dx, dy, bx, by, cx, cy);
    lemma_orient_int_cross(ax, ay, dx, dy, cx, cy);
    lemma_orient_int_cross(bx, by, ax, ay, dx, dy);
    lemma_orient_int_cross(bx, by, cx, cy, dx, dy);
    lemma_orient_int_cross(ax, ay, cx, cy, dx, dy);
    lemma_orient_int_cross(ax, ay, bx, by, dx, dy);
    lemma_orient_int_cross(cx, cy, dx, dy, ax, ay);
    lemma_orient_int_cross(dx, dy, ax, ay, bx, by);
    lemma_orient_int_cross(dx, dy, cx, cy, ax, ay);
    lemma_orient_int_wedge(dx, dy, bx, by, cx, cy);
    lemma_orient_int_wedge(dx, dy, cx, cy, ax, ay);
    lemma_orient_int_wedge(dx, dy, ax, ay, bx, by);
    assert(x == wedge_int(qx, qy, rx, ry));
    assert(y == wedge_int(rx, ry, px, py));
    assert(z == wedge_int(px, py, qx, qy));
    lemma_three_term_int(px, py, qx, qy, rx, ry);
    lemma_sign_of_product(x, px);
    lemma_sign_of_product(y, qx);
    lemma_sign_of_product(z, rx);
    lemma_sign_of_product(x, py);
    lemma_sign_of_product(y, qy);
    lemma_sign_of_product(z, ry);
}

proof fn lemma_norm_shift(px: int, py: int, dx: int, dy: int)
    ensures
        (px + dx) * (px + dx) + (py + dy) * (py + dy) == (px * px + py * py) + 2 * (dx * px) + 2 * (
        dy * py) + (dx * dx + dy * dy),
{
    lemma_binomial(px, dx);
    lemma_binomial(py, dy);
    lemma_sign_of_product(px, dx);
    lemma_sign_of_product(py, dy);
}

proof fn lemma_spread_four(q: int, f: int, g: int, h: int, o: int)
    by (nonlinear_arith)
    ensures
        (q + 2 * f + 2 * g + h) * o == q * o + 2 * (f * o) + 2 * (g * o) + h * o,
{
}

proof fn lemma_pull(d: int, p: int, o: int)
    by (nonlinear_arith)
    ensures
        (d * p) * o == d * (o * p),
{
}

proof fn lemma_pull_sum(d: int, t1: int, t2: int, t3: int)
    by (nonlinear_arith)
    ensures
        d * t1 + d * t2 + d * t3 == d * (t1 + t2 + t3),
{
}

proof fn lemma_same_factor(n: int, s: int, o: int)
    by (nonlinear_arith)
    requires
        n == s,
    ensures
        n * o == s * o,
{
}

/// The square of the length of `(px + dx, py + dy)`, times `o`.
proof fn lemma_shift_term(px: int, py: int, dx: int, dy: int, o: int)
    ensures
        ((px + dx) * (px + dx) + (py + dy) * (py + dy)) * o == (px * px + py * py) * o + 2 * (dx * (
        o * px)) + 2 * (dy * (o * py)) + (dx * dx + dy * dy) * o,
{
    let n = (px + dx) * (px + dx) + (py + dy) * (py + dy);
    let q = px * px + py * py;
    let h = dx * dx + dy * dy;
    lemma_norm_shift(px, py, dx, dy);
    lemma_same_factor(n, q + 2 * (dx * px) + 2 * (dy * py) + h, o);
    lemma_spread_four(q, dx * px, dy * py, h, o);
    lemma_pull(dx, px, o);
    lemma_pull(dy, py, o);
}

/// The determinant `circle_int`, with the distances taken from `d`.
proof fn lemma_circle_from(ax: int, ay: int, bx: int, by: int, cx: int, cy: int, dx: int, dy: int)
    ensures
        ({
            let (x, y, z) = seen_from(ax, ay, bx, by, cx, cy, dx, dy);
            circle_int(ax, ay, bx, by, cx, cy, dx, dy) == ((ax - dx) * (ax - dx) + (ay - dy) * (ay
                - dy)) * x + ((bx - dx) * (bx - dx) + (by - dy) * (by - dy)) * y + ((cx - dx) * (cx
                - dx) + (cy - dy) * (cy - dy)) * z
        }),
{
    let (x, y, z) = seen_from(ax, ay, bx, by, cx, cy, dx, dy);
    let (px, py) = (ax - dx, ay - dy);
    let (qx, qy) = (bx - dx, by - dy);
    let (rx, ry) = (cx - dx, cy - dy);
    let h = dx * dx + dy * dy;
    lemma_areas_from(ax, ay, bx, by, cx, cy, dx, dy);
    lemma_shift_term(px, py, dx, dy, x);
    lemma_shift_term(qx, qy, dx, dy, y);
    lemma_shift_term(rx, ry, dx, dy, z);
    assert(px + dx == ax && py + dy == ay && qx + dx == bx && qy + dy == by && rx + dx == cx && ry
        + dy == cy);
    let (na, nb, nc) = (ax * ax + ay * ay, bx * bx + by * by, cx * cx + cy * cy);
    lemma_pull_sum(dx, x * px, y * qx, z * rx);
    lemma_pull_sum(dy, x * py, y * qy, z * ry);
    lemma_pull_sum(h, x, y, z);
    lemma_sign_of_product(dx, x * px + y * qx + z * rx);
    lemma_sign_of_product(dy, x * py + y * qy + z * ry);
    lemma_sign_of_product(nb, y);
    lemma_sign_of_product(h, x);
    lemma_sign_of_product(h, y);
    lemma_sign_of_product(h, z);
    assert(na * x + nb * y + nc * z == (px * px + py * py) * x + (qx * qx + qy * qy) * y + (rx * rx
        + ry * ry) * z + h * (x + y + z));
}

/// Two triangles of integer points that turn counter-clockwise on the two
/// sides of the edge from `a` to `b`, one of which has the far corner of the
/// other inside the circle through its points, make a convex
/// quadrilateral: exchanging the edge for the other diagonal gives two
/// triangles that turn counter-clockwise.
pub proof fn lemma_encircled_is_convex(
    ax: int,
    ay: int,
    bx: int,
    by: int,
    cx: int,
    cy: int,
    dx: int,
    dy: int,
)
    requires
        orient_int(ax, ay, bx, by, cx, cy) > 0,
        orient_int(bx, by, ax, ay, dx, dy) > 0,
        circle_int(ax, ay, bx, by, cx, cy, dx, dy) > 0,
    ensures
        orient_int(ax, ay, dx, dy, cx, cy) > 0,
        orient_int(dx, dy, bx, by, cx, cy) > 0,
{
    let (x, y, z) = seen_from(ax, ay, bx, by, cx, cy, dx, dy);
    let (px, py) = (ax - dx, ay - dy);
    let (qx, qy) = (bx - dx, by - dy);
    let (rx, ry) = (cx - dx, cy - dy);
    lemma_areas_from(ax, ay, bx, by, cx, cy, dx, dy);
    lemma_circle_from(ax, ay, bx, by, cx, cy, dx, dy);
    if x <= 0 {
        lemma_weights(px, py, qx, qy, rx, ry, x, y, z);
    }
    if y <= 0 {
        lemma_weights(qx, qy, px, py, rx, ry, y, x, z);
    }
}

} // verus!
