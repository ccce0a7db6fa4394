//! Triangles in `D` dimensions.

use vstd::prelude::*;
use vstd::std_specs::cmp::PartialEqSpecImpl;
use vstd::std_specs::convert::FromSpecImpl;
use crate::point::{lex_le, lex_less, lemma_lex_total, lemma_lex_transitive, Point};
use crate::root::{is_root, lemma_unit_length};
use crate::scalar::{epsilon, lemma_real_cancel, lemma_real_div, Scalar};
use crate::vector::{
    cross, dot, lemma_cross_squared, lemma_dot_combination, lemma_dot_scale, lemma_dot_symmetric,
    outer_squared, reals_of, vec_add, vec_div, vec_scale, vec_sub, Vector,
};

verus! {

/// Three points of one dimension.
pub open spec fn is_triangle(t: Seq<Seq<real>>, d: nat) -> bool {
    t.len() == 3 && t[0].len() == d && t[1].len() == d && t[2].len() == d
}

/// Square of the area of the parallelogram that the two edges leaving the
/// first point span: four times the square of the triangle's area.
pub open spec fn span_squared(t: Seq<Seq<real>>) -> real {
    outer_squared(vec_sub(t[1], t[0]), vec_sub(t[2], t[0]))
}

/// A triangle counts as valid where the area that its edges span exceeds
/// `epsilon()`; both sides of the comparison are squared here.
pub open spec fn spans_area(t: Seq<Seq<real>>) -> bool {
    span_squared(t) > epsilon() * epsilon()
}

/// The mean of the three points.
pub open spec fn centroid(t: Seq<Seq<real>>) -> Seq<real> {
    vec_div(vec_add(vec_add(t[0], t[1]), t[2]), 3real)
}

/// The combination of the three points with the weights `w`.
pub open spec fn weighted(t: Seq<Seq<real>>, w: Seq<real>) -> Seq<real> {
    vec_add(vec_add(vec_scale(t[0], w[0]), vec_scale(t[1], w[1])), vec_scale(t[2], w[2]))
}

/// The weights of the point of the triangle's plane that is nearest to `p`.
pub open spec fn barycentric(t: Seq<Seq<real>>, p: Seq<real>) -> Seq<real> {
    let v0 = vec_sub(t[1], t[0]);
    let v1 = vec_sub(t[2], t[0]);
    let v2 = vec_sub(p, t[0]);
    let d00 = dot(v0, v0);
    let d01 = dot(v0, v1);
    let d11 = dot(v1, v1);
    let d20 = dot(v2, v0);
    let d21 = dot(v2, v1);
    let denom = d00 * d11 - d01 * d01;
    let v = (d11 * d20 - d01 * d21) / denom;
    let w = (d00 * d21 - d01 * d20) / denom;
    seq![1real - v - w, v, w]
}

/// The cross product of the two edges that leave the first point of a
/// triangle in space. It stands at right angles on the triangle, on the side
/// from which the points are seen to turn counter-clockwise, and its length
/// is twice the area of the triangle.
pub open spec fn face_normal(t: Seq<Seq<real>>) -> Seq<real> {
    cross(vec_sub(t[1], t[0]), vec_sub(t[2], t[0]))
}

/// `n` is the normal of the triangle `t`: `face_normal(t)` divided by its
/// length, where the length is taken as a square root that is rounded down
/// by less than the part `epsilon()` of itself. The length of `n` is
/// therefore at least one and less than `1 + epsilon()`.
pub open spec fn is_normal(t: Seq<Seq<real>>, n: Seq<real>) -> bool {
    &&& exists|length: real|
        #![trigger is_root(dot(face_normal(t), face_normal(t)), length)]
        is_root(dot(face_normal(t), face_normal(t)), length) && length > 0real && n == vec_div(
            face_normal(t),
            length,
        )
    &&& 1real <= dot(n, n) < (1real + epsilon()) * (1real + epsilon())
}

/// Twice the signed area of the triangle `a`, `b`, `c` in the plane: positive
/// where the three points turn counter-clockwise, negative where they turn
/// clockwise, zero where they lie on one line.
pub open spec fn orient2d(a: Seq<real>, b: Seq<real>, c: Seq<real>) -> real {
    (a[0] - c[0]) * (b[1] - c[1]) - (a[1] - c[1]) * (b[0] - c[0])
}

/// The three points stand in the order of points.
pub open spec fn sorted(t: Seq<Seq<real>>) -> bool {
    lex_le(t[0], t[1]) && lex_le(t[1], t[2])
}

/// `t` holds the three points of `s` in some order.
pub open spec fn rearranged(s: Seq<Seq<real>>, t: Seq<Seq<real>>) -> bool {
    ||| (t[0] == s[0] && t[1] == s[1] && t[2] == s[2])
    ||| (t[0] == s[0] && t[1] == s[2] && t[2] == s[1])
    ||| (t[0] == s[1] && t[1] == s[0] && t[2] == s[2])
    ||| (t[0] == s[1] && t[1] == s[2] && t[2] == s[0])
    ||| (t[0] == s[2] && t[1] == s[0] && t[2] == s[1])
    ||| (t[0] == s[2] && t[1] == s[1] && t[2] == s[0])
}

/// `n` is the normal form of `t`: the same three points, in the order of points.
pub open spec fn normal_form(t: Seq<Seq<real>>, n: Seq<Seq<real>>) -> bool {
    n.len() == 3 && sorted(n) && rearranged(t, n)
}

proof fn lemma_offset_component(a: real, b: real, c: real, w0: real, w1: real, w2: real)
    by (nonlinear_arith)
    requires
        w0 + w1 + w2 == 1real,
    ensures
        a * w0 + b * w1 + c * w2 - a == (b - a) * w1 + (c - a) * w2,
{
}

proof fn lemma_solve(d00: real, d01: real, d11: real, d20: real, d21: real, w1: real, w2: real)
    requires
        d20 == w1 * d00 + w2 * d01,
        d21 == w1 * d01 + w2 * d11,
        d00 * d11 - d01 * d01 != 0real,
    ensures
        (d11 * d20 - d01 * d21) / (d00 * d11 - d01 * d01) == w1,
        (d00 * d21 - d01 * d20) / (d00 * d11 - d01 * d01) == w2,
{
    let denom = d00 * d11 - d01 * d01;
    let a = d00 * d11;
    let b = d01 * d01;
    assert(d11 * d20 == d11 * (w1 * d00) + d11 * (w2 * d01)) by (nonlinear_arith)
        requires
            d20 == w1 * d00 + w2 * d01,
    ;
    assert(d01 * d21 == d01 * (w1 * d01) + d01 * (w2 * d11)) by (nonlinear_arith)
        requires
            d21 == w1 * d01 + w2 * d11,
    ;
    assert(d00 * d21 == d00 * (w1 * d01) + d00 * (w2 * d11)) by (nonlinear_arith)
        requires
            d21 == w1 * d01 + w2 * d11,
    ;
    assert(d01 * d20 == d01 * (w1 * d00) + d01 * (w2 * d01)) by (nonlinear_arith)
        requires
            d20 == w1 * d00 + w2 * d01,
    ;
    assert(w1 * denom == w1 * a - w1 * b) by (nonlinear_arith)
        requires
            denom == a - b,
    ;
    assert(w2 * denom == w2 * a - w2 * b) by (nonlinear_arith)
        requires
            denom == a - b,
    ;
    assert(d11 * (w1 * d00) == w1 * a) by (nonlinear_arith)
        requires
            a == d00 * d11,
    ;
    assert(d01 * (w1 * d01) == w1 * b) by (nonlinear_arith)
        requires
            b == d01 * d01,
    ;
    assert(d00 * (w2 * d11) == w2 * a) by (nonlinear_arith)
        requires
            a == d00 * d11,
    ;
    assert(d01 * (w2 * d01) == w2 * b) by (nonlinear_arith)
        requires
            b == d01 * d01,
    ;
    assert(d11 * (w2 * d01) == d01 * (w2 * d11)) by (nonlinear_arith);
    assert(d00 * (w1 * d01) == d01 * (w1 * d00)) by (nonlinear_arith);
    let x = d11 * d20 - d01 * d21;
    let y = d00 * d21 - d01 * d20;
    assert(x == w1 * denom);
    assert(y == w2 * denom);
    lemma_real_div(x, denom);
    lemma_real_cancel(x / denom, w1, denom);
    lemma_real_div(y, denom);
    lemma_real_cancel(y / denom, w2, denom);
}

/// Barycentric coordinates that add up to one are found again from the
/// point that they stand for, on every triangle that is not degenerate.
pub proof fn lemma_barycentric_round_trip(t: Seq<Seq<real>>, w: Seq<real>, d: nat)
    requires
        is_triangle(t, d),
        w.len() == 3,
        w[0] + w[1] + w[2] == 1real,
        span_squared(t) != 0real,
    ensures
        barycentric(t, weighted(t, w)) == w,
{
    let p = weighted(t, w);
    let v0 = vec_sub(t[1], t[0]);
    let v1 = vec_sub(t[2], t[0]);
    let v2 = vec_sub(p, t[0]);
    let mix = vec_add(vec_scale(v0, w[1]), vec_scale(v1, w[2]));
    assert forall|i: int| 0 <= i < d implies v2[i] == mix[i] by {
        lemma_offset_component(t[0][i], t[1][i], t[2][i], w[0], w[1], w[2]);
    }
    assert(v2 =~= mix);
    lemma_dot_combination(v0, v1, v0, w[1], w[2]);
    lemma_dot_combination(v0, v1, v1, w[1], w[2]);
    lemma_dot_symmetric(v1, v0);
    lemma_solve(dot(v0, v0), dot(v0, v1), dot(v1, v1), dot(v2, v0), dot(v2, v1), w[1], w[2]);
    assert(barycentric(t, p) =~= w);
}

/// A triangle whose first two points coincide, or whose third point lies on
/// the line through the first two, spans no area and is not valid.
pub proof fn lemma_degenerate_span(t: Seq<Seq<real>>, k: real, d: nat)
    requires
        is_triangle(t, d),
        t[1] == t[0] || vec_sub(t[2], t[0]) == vec_scale(vec_sub(t[1], t[0]), k),
    ensures
        span_squared(t) == 0real,
        !spans_area(t),
{
    let u = vec_sub(t[1], t[0]);
    let v = vec_sub(t[2], t[0]);
    if t[1] == t[0] {
        assert(u =~= vec_scale(u, 0real));
        lemma_dot_scale(u, u, 0real);
        lemma_dot_scale(u, v, 0real);
        let uu = dot(u, u);
        let uv = dot(u, v);
        let vv = dot(v, v);
        assert(uu * vv - uv * uv == 0real) by (nonlinear_arith)
            requires
                uu == 0real * uu,
                uv == 0real * uv,
        ;
    } else {
        let uu = dot(u, u);
        let uv = dot(u, v);
        let vu = dot(v, u);
        let vv = dot(v, v);
        lemma_dot_scale(u, u, k);
        lemma_dot_scale(u, v, k);
        lemma_dot_symmetric(u, v);
        assert(vu == k * uu);
        assert(vv == k * vu);
        assert(uu * vv - uv * uv == 0real) by (nonlinear_arith)
            requires
                uv == k * uu,
                vv == k * uv,
        ;
    }
    assert(epsilon() * epsilon() > 0real) by (nonlinear_arith)
        requires
            epsilon() > 0real,
    ;
}

/// Three points in the order of points have one arrangement only.
pub proof fn lemma_sorted_unique(s: Seq<Seq<real>>, t: Seq<Seq<real>>, d: nat)
    requires
        is_triangle(s, d),
        is_triangle(t, d),
        sorted(s),
        sorted(t),
        rearranged(s, t),
    ensures
        s == t,
{
    lemma_lex_total(s[0], s[1]);
    lemma_lex_total(s[1], s[2]);
    lemma_lex_total(s[0], s[2]);
    lemma_lex_transitive(s[0], s[1], s[2]);
    lemma_lex_transitive(t[0], t[1], t[2]);
    assert(s =~= t);
}

/// A triangle has one normal form only.
pub proof fn lemma_normal_form_unique(
    t: Seq<Seq<real>>,
    n: Seq<Seq<real>>,
    m: Seq<Seq<real>>,
    d: nat,
)
    requires
        is_triangle(t, d),
        normal_form(t, n),
        normal_form(t, m),
    ensures
        n == m,
{
    assert(rearranged(n, m));
    lemma_sorted_unique(n, m, d);
}

/// The normal form of a normal form is that normal form.
pub proof fn lemma_normal_form_idempotent(
    t: Seq<Seq<real>>,
    n: Seq<Seq<real>>,
    m: Seq<Seq<real>>,
    d: nat,
)
    requires
        is_triangle(t, d),
        normal_form(t, n),
        normal_form(n, m),
    ensures
        m == n,
{
    lemma_sorted_unique(n, m, d);
}

/// Two triangles with the same points, in whatever order, have the same
/// normal form.
pub proof fn lemma_normal_form_any_order(
    t: Seq<Seq<real>>,
    s: Seq<Seq<real>>,
    n: Seq<Seq<real>>,
    m: Seq<Seq<real>>,
    d: nat,
)
    requires
        is_triangle(t, d),
        s.len() == 3,
        rearranged(t, s),
        normal_form(t, n),
        normal_form(s, m),
    ensures
        n == m,
{
    assert(rearranged(t, m));
    lemma_normal_form_unique(t, n, m, d);
}

/// The direction in which the points of a triangle in the plane turn.
#[derive(Clone, Copy, Debug, PartialEq, Eq, Structural, Hash, PartialOrd, Ord)]
pub enum Winding {
    /// Counter-clockwise.
    Ccw,
    /// Clockwise.
    Cw,
}

impl Winding {
    /// Whether the winding is counter-clockwise.
    pub fn is_ccw(&self) -> (r: bool)
        ensures
            r == (*self == Winding::Ccw),
    {
        match self {
            Winding::Ccw => true,
            Winding::Cw => false,
        }
    }

    /// Whether the winding is clockwise.
    pub fn is_cw(&self) -> (r: bool)
        ensures
            r == (*self == Winding::Cw),
    {
        match self {
            Winding::Ccw => false,
            Winding::Cw => true,
        }
    }
}

/// Three points in `D` dimensions, in a given order. The points may coincide
/// or lie on one line.
#[derive(Clone, Debug)]
pub struct Triangle<const D: usize> {
    /// The points that make up the triangle.
    pub points: [Point<D>; 3],
}

impl<const D: usize> View for Triangle<D> {
    type V = Seq<Seq<real>>;

    open spec fn view(&self) -> Seq<Seq<real>> {
        Seq::new(3, |i: int| self.points@[i]@)
    }
}

impl<const D: usize> Triangle<D> {
    /// The triangle with the given points.
    pub fn from_points(points: [Point<D>; 3]) -> (r: Triangle<D>)
        ensures
            r.points == points,
    {
        Triangle { points }
    }

    /// A second triangle with the same points.
    pub fn copy(&self) -> (r: Triangle<D>)
        ensures
            r@ == self@,
            is_triangle(r@, D as nat),
    {
        let r = Triangle {
            points: [self.points[0].copy(), self.points[1].copy(), self.points[2].copy()],
        };
        assert(r@ =~= self@);
        r
    }

    /// Whether the two triangles have the same points in the same order.
    pub fn same(&self, other: &Triangle<D>) -> (r: bool)
        ensures
            r == (self@ == other@),
    {
        let r = self.points[0].same(&other.points[0]) && self.points[1].same(&other.points[1])
            && self.points[2].same(&other.points[2]);
        proof {
            if r {
                assert(self@ =~= other@);
            } else {
                assert(self@[0] == self.points@[0]@ && other@[0] == other.points@[0]@);
                assert(self@[1] == self.points@[1]@ && other@[1] == other.points@[1]@);
                assert(self@[2] == self.points@[2]@ && other@[2] == other.points@[2]@);
            }
        }
        r
    }

    /// Whether the triangle spans an area: whether its points are neither
    /// the same nor on one line, up to `epsilon()`.
    pub fn is_valid(&self) -> (r: bool)
        ensures
            r == spans_area(self@),
    {
        let u = self.points[1].sub(&self.points[0]);
        let v = self.points[2].sub(&self.points[0]);
        let area = u.outer_squared(&v);
        let eps = Scalar::default_epsilon();
        let bound = eps.mul(&eps);
        bound.lt(&area)
    }

    /// The point in the middle of the triangle.
    pub fn center(&self) -> (r: Point<D>)
        ensures
            r@ == centroid(self@),
    {
        let a = self.points[0].to_vector();
        let b = self.points[1].to_vector();
        let c = self.points[2].to_vector();
        let three = Scalar::from_i64(3);
        Point::from_vector(a.add(&b).add(&c).divide(&three))
    }

    /// The point that the barycentric coordinates `weights` stand for. The
    /// weights need not add up to one.
    pub fn point_from_barycentric_coords(&self, weights: [Scalar; 3]) -> (r: Point<D>)
        ensures
            r@ == weighted(self@, reals_of(weights@)),
    {
        let a = self.points[0].to_vector().scale(&weights[0]);
        let b = self.points[1].to_vector().scale(&weights[1]);
        let c = self.points[2].to_vector().scale(&weights[2]);
        Point::from_vector(a.add(&b).add(&c))
    }

    /// The barycentric coordinates of `point`, projected into the plane of the
    /// triangle. The triangle must not be degenerate.
    pub fn point_to_barycentric_coords(&self, point: Point<D>) -> (r: [Scalar; 3])
        requires
            span_squared(self@) != 0real,
        ensures
            reals_of(r@) == barycentric(self@, point@),
    {
        let v0 = self.points[1].sub(&self.points[0]);
        let v1 = self.points[2].sub(&self.points[0]);
        let v2 = point.sub(&self.points[0]);
        let d00 = v0.dot(&v0);
        let d01 = v0.dot(&v1);
        let d11 = v1.dot(&v1);
        let d20 = v2.dot(&v0);
        let d21 = v2.dot(&v1);
        let denom = d00.mul(&d11).sub(&d01.mul(&d01));
        let v = d11.mul(&d20).sub(&d01.mul(&d21)).div(&denom);
        let w = d00.mul(&d21).sub(&d01.mul(&d20)).div(&denom);
        let u = Scalar::one().sub(&v).sub(&w);
        let r = [u, v, w];
        assert(reals_of(r@) =~= barycentric(self@, point@));
        r
    }

    /// The triangle with the same points in the order of points. Two
    /// triangles with the same points have the same normal form, whatever the
    /// order of their points. The order has no geometric meaning: the
    /// direction in which the points turn may change.
    pub fn normalize(self) -> (r: Triangle<D>)
        ensures
            normal_form(self@, r@),
    {
        let a = self.points[0].copy();
        let b = self.points[1].copy();
        let c = self.points[2].copy();
        proof {
            lemma_lex_total(a@, b@);
            lemma_lex_total(b@, c@);
            lemma_lex_total(a@, c@);
        }
        let (a, b) = if b.precedes(&a) { (b, a) } else { (a, b) };
        let (b, c) = if c.precedes(&b) { (c, b) } else { (b, c) };
        let (a, b) = if b.precedes(&a) { (b, a) } else { (a, b) };
        proof {
            lemma_lex_total(a@, b@);
            lemma_lex_total(b@, c@);
            lemma_lex_total(a@, c@);
            if lex_le(c@, a@) && lex_le(a@, b@) {
                lemma_lex_transitive(c@, a@, b@);
            }
            if lex_le(c@, b@) && lex_le(b@, a@) {
                lemma_lex_transitive(c@, b@, a@);
            }
        }
        let r = Triangle { points: [a, b, c] };
        r
    }
}

impl<const D: usize> PartialEq for Triangle<D> {
    fn eq(&self, other: &Triangle<D>) -> (r: bool) {
        self.same(other)
    }
}

impl<const D: usize> PartialEqSpecImpl for Triangle<D> {
    open spec fn obeys_eq_spec() -> bool {
        true
    }

    open spec fn eq_spec(&self, other: &Triangle<D>) -> bool {
        self@ == other@
    }
}

impl<const D: usize> From<[Point<D>; 3]> for Triangle<D> {
    fn from(points: [Point<D>; 3]) -> (r: Triangle<D>) {
        Triangle::from_points(points)
    }
}

impl<const D: usize> FromSpecImpl<[Point<D>; 3]> for Triangle<D> {
    open spec fn obeys_from_spec() -> bool {
        true
    }

    open spec fn from_spec(points: [Point<D>; 3]) -> Triangle<D> {
        Triangle { points }
    }
}

impl Triangle<2> {
    /// The direction in which the points turn, where they do not lie on one
    /// line. The test is exact: it does not use `epsilon()`.
    pub fn winding(&self) -> (r: Option<Winding>)
        ensures
            r == (if orient2d(self@[0], self@[1], self@[2]) > 0real {
                Some(Winding::Ccw)
            } else if orient2d(self@[0], self@[1], self@[2]) < 0real {
                Some(Winding::Cw)
            } else {
                None::<Winding>
            }),
    {
        let ax = self.points[0].coordinate(0);
        let ay = self.points[0].coordinate(1);
        let bx = self.points[1].coordinate(0);
        let by = self.points[1].coordinate(1);
        let cx = self.points[2].coordinate(0);
        let cy = self.points[2].coordinate(1);
        let left = ax.sub(&cx).mul(&by.sub(&cy));
        let right = ay.sub(&cy).mul(&bx.sub(&cx));
        let turn = left.sub(&right).signum();
        if turn < 0 {
            Some(Winding::Cw)
        } else if turn > 0 {
            Some(Winding::Ccw)
        } else {
            None
        }
    }
}

impl Triangle<3> {
    /// The normal of the triangle: at right angles on the triangle, on the
    /// side from which its points are seen to turn counter-clockwise, of a
    /// length of at least one and less than `1 + epsilon()`. The triangle
    /// must be valid.
    pub fn normal(&self) -> (r: Vector<3>)
        requires
            spans_area(self@),
        ensures
            is_normal(self@, r@),
    {
        let u = self.points[1].sub(&self.points[0]);
        let v = self.points[2].sub(&self.points[0]);
        let n = u.cross(&v);
        let squared = n.dot(&n);
        proof {
            lemma_cross_squared(u@, v@);
            assert(u@ == vec_sub(self@[1], self@[0]));
            assert(v@ == vec_sub(self@[2], self@[0]));
            assert(n@ == face_normal(self@));
            assert(squared@ == span_squared(self@));
            assert(epsilon() * epsilon() > 0real) by (nonlinear_arith)
                requires
                    epsilon() > 0real,
            ;
        }
        let length = squared.root();
        proof {
            if length@ == 0real {
                assert(length@ + length@ * epsilon() == 0real) by (nonlinear_arith)
                    requires
                        length@ == 0real,
                ;
                assert((length@ + length@ * epsilon()) * (length@ + length@ * epsilon()) == 0real)
                    by (nonlinear_arith)
                    requires
                        length@ + length@ * epsilon() == 0real,
                ;
            }
            lemma_unit_length(n@, length@);
        }
        let r = n.divide(&length);
        assert(is_root(dot(face_normal(self@), face_normal(self@)), length@));
        r
    }
}

} // verus!
