//! Relations between the quantities of a triangle.

use vstd::prelude::*;
use crate::plane::{lemma_orient_cross, lemma_orient_turns, lemma_orient_wedge, wedge};
use crate::root::{is_root, lemma_divide_is_scale};
use crate::scalar::{lemma_real_cancel, lemma_real_div};
use crate::triangle::{
    barycentric, centroid, face_normal, is_normal, is_triangle, orient2d, span_squared, spans_area,
    weighted,
};
use crate::scalar::epsilon;
use crate::vector::{
    cross, dot, lemma_dot_scale, lemma_dot_space, lemma_exchange, lemma_product_of_squares,
    lemma_square_of_difference, outer_squared, vec_div, vec_scale, vec_sub,
};

verus! {

/// The barycentric coordinates of a point add up to one.
pub proof fn lemma_barycentric_sum(t: Seq<Seq<real>>, p: Seq<real>)
    ensures
        barycentric(t, p).len() == 3,
        barycentric(t, p)[0] + barycentric(t, p)[1] + barycentric(t, p)[2] == 1real,
{
}

/// The center of a triangle is the point with three equal barycentric
/// coordinates.
pub proof fn lemma_center_is_weighted(t: Seq<Seq<real>>, d: nat)
    requires
        is_triangle(t, d),
    ensures
        centroid(t) == weighted(t, seq![1real / 3real, 1real / 3real, 1real / 3real]),
{
    let w = seq![1real / 3real, 1real / 3real, 1real / 3real];
    assert(w[0] == 1real / 3real && w[1] == 1real / 3real && w[2] == 1real / 3real);
    assert(centroid(t) =~= weighted(t, w));
}

proof fn lemma_square_of_two(x: real, y: real)
    by (nonlinear_arith)
    ensures
        (x + y) * (x + y) == x * x + 2real * (x * y) + y * y,
{
}

proof fn lemma_product_of_two(x1: real, x2: real, y1: real, y2: real)
    by (nonlinear_arith)
    ensures
        (x1 + x2) * (y1 + y2) == x1 * y1 + x1 * y2 + x2 * y1 + x2 * y2,
{
}

proof fn lemma_dot_in_plane(a: Seq<real>, b: Seq<real>)
    requires
        a.len() == 2,
        b.len() == 2,
    ensures
        dot(a, b) == a[0] * b[0] + a[1] * b[1],
{
    reveal_with_fuel(dot, 3);
    assert(a.drop_last().drop_last().len() == 0);
}

/// The area that two vectors of the plane span is their cross product: the
/// squares agree.
proof fn lemma_outer_in_plane(a: Seq<real>, b: Seq<real>)
    requires
        a.len() == 2,
        b.len() == 2,
    ensures
        outer_squared(a, b) == wedge(a[0], a[1], b[0], b[1]) * wedge(a[0], a[1], b[0], b[1]),
{
    lemma_dot_in_plane(a, a);
    lemma_dot_in_plane(b, b);
    lemma_dot_in_plane(a, b);
    let (a1, a2, b1, b2) = (a[0], a[1], b[0], b[1]);
    lemma_square_of_difference(a1 * b2, a2 * b1);
    lemma_square_of_two(a1 * b1, a2 * b2);
    lemma_product_of_two(a1 * a1, a2 * a2, b1 * b1, b2 * b2);
    lemma_product_of_squares(a1, b1);
    lemma_product_of_squares(a1, b2);
    lemma_product_of_squares(a2, b1);
    lemma_product_of_squares(a2, b2);
    lemma_exchange(a1, b1, a2, b2);
}

/// In the plane, the area that the edges of a triangle span is its doubled
/// area, up to the sign: the squares agree.
pub proof fn lemma_span_in_plane(t: Seq<Seq<real>>)
    requires
        is_triangle(t, 2),
    ensures
        span_squared(t) == orient2d(t[0], t[1], t[2]) * orient2d(t[0], t[1], t[2]),
{
    let u = vec_sub(t[1], t[0]);
    let v = vec_sub(t[2], t[0]);
    lemma_outer_in_plane(u, v);
    lemma_orient_wedge(t[0], t[1], t[2]);
}

/// The points of a valid triangle in the plane turn one way or the other:
/// a triangle without a winding is not valid.
pub proof fn lemma_valid_turns(t: Seq<Seq<real>>)
    requires
        is_triangle(t, 2),
        spans_area(t),
    ensures
        orient2d(t[0], t[1], t[2]) != 0real,
{
    lemma_span_in_plane(t);
    let o = orient2d(t[0], t[1], t[2]);
    assert(epsilon() * epsilon() > 0real) by (nonlinear_arith)
        requires
            epsilon() > 0real,
    ;
    if o == 0real {
        assert(o * o == 0real) by (nonlinear_arith)
            requires
                o == 0real,
        ;
    }
}

proof fn lemma_turn_factors(x: real, y: real, z: real)
    by (nonlinear_arith)
    ensures
        (x * y) * z == (z * y) * x,
        (x * y) * z == (x * z) * y,
{
}

proof fn lemma_spread_difference(x: real, y: real, z: real)
    by (nonlinear_arith)
    ensures
        (x - y) * z == x * z - y * z,
{
}

/// The cross product of two vectors in space stands at right angles on
/// both.
pub proof fn lemma_cross_is_perpendicular(a: Seq<real>, b: Seq<real>)
    requires
        a.len() == 3,
        b.len() == 3,
    ensures
        dot(cross(a, b), a) == 0real,
        dot(cross(a, b), b) == 0real,
{
    let c = cross(a, b);
    lemma_dot_space(c, a);
    lemma_dot_space(c, b);
    let (a0, a1, a2) = (a[0], a[1], a[2]);
    let (b0, b1, b2) = (b[0], b[1], b[2]);
    lemma_spread_difference(a1 * b2, a2 * b1, a0);
    lemma_spread_difference(a2 * b0, a0 * b2, a1);
    lemma_spread_difference(a0 * b1, a1 * b0, a2);
    lemma_spread_difference(a1 * b2, a2 * b1, b0);
    lemma_spread_difference(a2 * b0, a0 * b2, b1);
    lemma_spread_difference(a0 * b1, a1 * b0, b2);
    lemma_turn_factors(a1, b2, a0);
    lemma_turn_factors(a2, b1, a0);
    lemma_turn_factors(a2, b0, a1);
    lemma_turn_factors(a0, b1, a2);
    lemma_turn_factors(a0, b2, a1);
    lemma_turn_factors(a1, b0, a2);
    lemma_turn_factors(a1, b2, b0);
    lemma_turn_factors(a2, b1, b0);
    lemma_turn_factors(a2, b0, b1);
    lemma_turn_factors(a0, b1, b2);
    lemma_turn_factors(a0, b2, b1);
    lemma_turn_factors(a1, b0, b2);
}

proof fn lemma_scaled_sign(k: real, x: real)
    by (nonlinear_arith)
    requires
        k > 0real,
    ensures
        x > 0real ==> k * x > 0real,
        x == 0real ==> k * x == 0real,
{
}

/// The normal of a triangle in space stands at right angles on the two
/// edges that leave the first point, and points to the side of their cross
/// product.
pub proof fn lemma_normal_is_perpendicular(t: Seq<Seq<real>>, n: Seq<real>)
    requires
        is_triangle(t, 3),
        is_normal(t, n),
    ensures
        dot(n, vec_sub(t[1], t[0])) == 0real,
        dot(n, vec_sub(t[2], t[0])) == 0real,
        dot(n, face_normal(t)) > 0real,
{
    let u = vec_sub(t[1], t[0]);
    let v = vec_sub(t[2], t[0]);
    let f = face_normal(t);
    let length = choose|length: real|
        #![trigger is_root(dot(face_normal(t), face_normal(t)), length)]
        is_root(dot(f, f), length) && length > 0real && n == vec_div(f, length);
    let k = 1real / length;
    lemma_real_div(1real, length);
    assert(k > 0real) by {
        if k <= 0real {
            lemma_scaled_sign(length, -k);
            assert(length * (-k) == -(k * length)) by (nonlinear_arith);
        }
    }
    assert forall|i: int| 0 <= i < f.len() implies n[i] == vec_scale(f, k)[i] by {
        lemma_divide_is_scale(f[i], length);
    }
    assert(n =~= vec_scale(f, k));
    lemma_cross_is_perpendicular(u, v);
    lemma_dot_scale(f, u, k);
    lemma_dot_scale(f, v, k);
    lemma_dot_scale(f, f, k);
    lemma_scaled_sign(k, dot(f, u));
    lemma_scaled_sign(k, dot(f, v));
    assert(dot(f, f) > 0real) by {
        assert(length * length > 0real) by (nonlinear_arith)
            requires
                length > 0real,
        ;
    }
    lemma_scaled_sign(k, dot(f, f));
}

proof fn lemma_pairs(x: real, u: real, z: real, w: real)
    by (nonlinear_arith)
    ensures
        (x * u) * (z * w) == (x * z) * (u * w),
        (x * u) * (z * w) == (x * w) * (z * u),
        (x * u) * (z * w) == (z * w) * (x * u),
{
}

proof fn lemma_product_of_differences(x1: real, x2: real, y1: real, y2: real)
    by (nonlinear_arith)
    ensures
        (x1 - x2) * (y1 - y2) == x1 * y1 - x1 * y2 - x2 * y1 + x2 * y2,
{
}

/// For four vectors of the plane, the products of the dot products, taken
/// crosswise, differ by the product of two cross products.
proof fn lemma_crosswise(a: Seq<real>, b: Seq<real>, c: Seq<real>, d: Seq<real>)
    requires
        a.len() == 2,
        b.len() == 2,
        c.len() == 2,
        d.len() == 2,
    ensures
        dot(a, c) * dot(b, d) - dot(a, d) * dot(b, c) == wedge(a[0], a[1], b[0], b[1]) * wedge(
            c[0],
            c[1],
            d[0],
            d[1],
        ),
{
    lemma_dot_in_plane(a, c);
    lemma_dot_in_plane(b, d);
    lemma_dot_in_plane(a, d);
    lemma_dot_in_plane(b, c);
    let (a0, a1, b0, b1) = (a[0], a[1], b[0], b[1]);
    let (c0, c1, d0, d1) = (c[0], c[1], d[0], d[1]);
    lemma_product_of_two(a0 * c0, a1 * c1, b0 * d0, b1 * d1);
    lemma_product_of_two(a0 * d0, a1 * d1, b0 * c0, b1 * c1);
    lemma_product_of_differences(a0 * b1, a1 * b0, c0 * d1, c1 * d0);
    lemma_pairs(a0, c0, b0, d0);
    lemma_pairs(a0, d0, b0, c0);
    lemma_pairs(a1, c1, b1, d1);
    lemma_pairs(a1, d1, b1, c1);
    lemma_pairs(a0, c0, b1, d1);
    lemma_pairs(a0, b1, c0, d1);
    lemma_pairs(a1, c1, b0, d0);
    lemma_pairs(a1, b0, c1, d0);
    lemma_pairs(a0, d0, b1, c1);
    lemma_pairs(a0, b1, c1, d0);
    lemma_pairs(a1, d1, b0, c0);
    lemma_pairs(a1, b0, c0, d1);
}

proof fn lemma_quotient_of_products(num: real, o: real, x: real, w: real)
    requires
        o != 0real,
        num == o * x,
        w == num / (o * o),
    ensures
        w * o == x,
{
    let denom = o * o;
    assert(denom != 0real) by (nonlinear_arith)
        requires
            o != 0real,
            denom == o * o,
    ;
    lemma_real_div(num, denom);
    assert(w * denom == (w * o) * o) by (nonlinear_arith)
        requires
            denom == o * o,
    ;
    assert(o * x == x * o) by (nonlinear_arith);
    lemma_real_cancel(w * o, x, o);
}

/// In the plane, each barycentric coordinate of a point is the area of the
/// triangle that the point makes with the opposite edge, as a part of the
/// area of the whole triangle: its sign tells on which side of that edge
/// the point lies.
pub proof fn lemma_barycentric_sides(t: Seq<Seq<real>>, p: Seq<real>)
    requires
        is_triangle(t, 2),
        p.len() == 2,
        span_squared(t) != 0real,
    ensures
        barycentric(t, p)[0] * orient2d(t[0], t[1], t[2]) == orient2d(t[1], t[2], p),
        barycentric(t, p)[1] * orient2d(t[0], t[1], t[2]) == orient2d(t[2], t[0], p),
        barycentric(t, p)[2] * orient2d(t[0], t[1], t[2]) == orient2d(t[0], t[1], p),
{
    let v0 = vec_sub(t[1], t[0]);
    let v1 = vec_sub(t[2], t[0]);
    let v2 = vec_sub(p, t[0]);
    let o = orient2d(t[0], t[1], t[2]);
    lemma_span_in_plane(t);
    lemma_orient_wedge(t[0], t[1], t[2]);
    lemma_orient_wedge(t[0], t[1], p);
    lemma_orient_wedge(t[0], p, t[2]);
    lemma_orient_turns(t[0], p, t[2]);
    assert(o != 0real) by {
        if o == 0real {
            assert(o * o == 0real) by (nonlinear_arith)
                requires
                    o == 0real,
            ;
        }
    }
    let d00 = dot(v0, v0);
    let d01 = dot(v0, v1);
    let d11 = dot(v1, v1);
    let d20 = dot(v2, v0);
    let d21 = dot(v2, v1);
    let denom = d00 * d11 - d01 * d01;
    assert(denom == o * o);
    // w: (v0 . v0)(v2 . v1) - (v0 . v1)(v2 . v0) = (v0 x v2)(v0 x v1)
    lemma_crosswise(v0, v2, v0, v1);
    // v: (v1 . v1)(v2 . v0) - (v1 . v0)(v2 . v1) = (v1 x v2)(v1 x v0)
    lemma_crosswise(v1, v2, v1, v0);
    crate::vector::lemma_dot_symmetric(v0, v1);
    crate::vector::lemma_dot_symmetric(v0, v2);
    crate::vector::lemma_dot_symmetric(v1, v2);
    let x_w = wedge(v0[0], v0[1], v2[0], v2[1]);
    let x_v = wedge(v2[0], v2[1], v1[0], v1[1]);
    assert(x_w == orient2d(t[0], t[1], p));
    assert(x_v == orient2d(t[2], t[0], p));
    let num_w = d00 * d21 - d01 * d20;
    let num_v = d11 * d20 - d01 * d21;
    assert(num_w == x_w * o);
    assert(wedge(v1[0], v1[1], v2[0], v2[1]) == -x_v && wedge(v1[0], v1[1], v0[0], v0[1]) == -o)
        by {
        lemma_pairs(v1[0], v2[1], v1[1], v2[0]);
        lemma_pairs(v1[0], v0[1], v1[1], v0[0]);
        assert(v1[0] * v2[1] == v2[1] * v1[0] && v1[1] * v2[0] == v2[0] * v1[1] && v1[0] * v0[1]
            == v0[1] * v1[0] && v1[1] * v0[0] == v0[0] * v1[1]) by (nonlinear_arith);
    }
    assert((-x_v) * (-o) == x_v * o) by (nonlinear_arith);
    assert(num_v == x_v * o);
    assert(x_w * o == o * x_w && x_v * o == o * x_v) by (nonlinear_arith);
    let w = barycentric(t, p)[2];
    let v = barycentric(t, p)[1];
    let u = barycentric(t, p)[0];
    assert(w == num_w / (o * o));
    assert(v == num_v / (o * o));
    lemma_quotient_of_products(num_w, o, x_w, w);
    lemma_quotient_of_products(num_v, o, x_v, v);
    assert(u == 1real - v - w);
    assert(u * o == o - v * o - w * o) by (nonlinear_arith)
        requires
            u == 1real - v - w,
    ;
    lemma_orient_cross(t[0], t[1], t[2]);
    lemma_orient_cross(t[1], t[2], p);
    lemma_orient_cross(t[2], t[0], p);
    lemma_orient_cross(t[0], t[1], p);
    lemma_orient_cross(p, t[1], t[2]);
    lemma_orient_cross(t[0], p, t[2]);
}

} // verus!
