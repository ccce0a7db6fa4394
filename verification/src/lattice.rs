//! Point sets brought to one denominator.

use vstd::prelude::*;
use crate::delaunay::views;
use crate::integer::Integer;
use crate::point::Point;
use crate::scalar::{lemma_cast_mul, represents};
use crate::plane::{in_circle, norm2};
use crate::triangle::orient2d;

verus! {

/// Twice the signed area of a triangle with integer coordinates.
pub open spec fn orient_int(ax: int, ay: int, bx: int, by: int, cx: int, cy: int) -> int {
    (ax - cx) * (by - cy) - (ay - cy) * (bx - cx)
}

proof fn lemma_scaled_difference(a: real, c: real, s: real, x: int, z: int)
    requires
        x as real == a * s,
        z as real == c * s,
    ensures
        (x - z) as real == (a - c) * s,
{
    assert((a - c) * s == a * s - c * s) by (nonlinear_arith);
}

proof fn lemma_scaled_product(p: real, q: real, s: real, x: int, y: int)
    requires
        x as real == p * s,
        y as real == q * s,
    ensures
        (x * y) as real == (p * q) * (s * s),
{
    lemma_cast_mul(x, y);
    assert((p * s) * (q * s) == (p * q) * (s * s)) by (nonlinear_arith);
}

/// Scaling all coordinates by `s` scales the doubled area by `s * s`.
proof fn lemma_scaled_orient(
    a: Seq<real>,
    b: Seq<real>,
    c: Seq<real>,
    s: real,
    ax: int,
    ay: int,
    bx: int,
    by: int,
    cx: int,
    cy: int,
)
    requires
        ax as real == a[0] * s,
        ay as real == a[1] * s,
        bx as real == b[0] * s,
        by as real == b[1] * s,
        cx as real == c[0] * s,
        cy as real == c[1] * s,
    ensures
        orient_int(ax, ay, bx, by, cx, cy) as real == orient2d(a, b, c) * (s * s),
{
    lemma_scaled_difference(a[0], c[0], s, ax, cx);
    lemma_scaled_difference(b[1], c[1], s, by, cy);
    lemma_scaled_difference(a[1], c[1], s, ay, cy);
    lemma_scaled_difference(b[0], c[0], s, bx, cx);
    lemma_scaled_product(a[0] - c[0], b[1] - c[1], s, ax - cx, by - cy);
    lemma_scaled_product(a[1] - c[1], b[0] - c[0], s, ay - cy, bx - cx);
    let p = (a[0] - c[0]) * (b[1] - c[1]);
    let q = (a[1] - c[1]) * (b[0] - c[0]);
    let ss = s * s;
    assert((p - q) * ss == p * ss - q * ss) by (nonlinear_arith);
}

proof fn lemma_same_sign(x: real, n: int, ss: real)
    requires
        n as real == x * ss,
        ss > 0real,
    ensures
        n > 0 <==> x > 0real,
        n < 0 <==> x < 0real,
        n == 0 <==> x == 0real,
{
    assert(x > 0real ==> x * ss > 0real) by (nonlinear_arith)
        requires
            ss > 0real,
    ;
    assert(x < 0real ==> x * ss < 0real) by (nonlinear_arith)
        requires
            ss > 0real,
    ;
    assert(x == 0real ==> x * ss == 0real) by (nonlinear_arith);
}

/// The points of a set, brought to one denominator: integer coordinates that
/// are the coordinates of the points times a common positive factor.
pub struct Lattice {
    pub coords: Vec<Integer>,
    pub scale: Ghost<int>,
}

impl Lattice {
    pub open spec fn x(&self, i: int) -> int {
        self.coords@[2 * i]@
    }

    pub open spec fn y(&self, i: int) -> int {
        self.coords@[2 * i + 1]@
    }

    /// The lattice holds the points `pts`, scaled.
    pub open spec fn models(&self, pts: Seq<Seq<real>>) -> bool {
        &&& self.scale@ > 0
        &&& self.coords@.len() == 2 * pts.len()
        &&& forall|i: int|
            0 <= i < pts.len() ==> (#[trigger] pts[i]).len() == 2 && self.x(i) as real == pts[i][0]
                * (self.scale@ as real) && self.y(i) as real == pts[i][1] * (self.scale@ as real)
    }

    /// The lattice of the points.
    pub fn build(points: &Vec<Point<2>>) -> (r: Lattice)
        ensures
            r.models(views(points@)),
    {
        let ghost pts = views(points@);
        let n = points.len();
        let mut nums: Vec<Integer> = Vec::new();
        let mut dens: Vec<Integer> = Vec::new();
        let mut i: usize = 0;
        while i < n
            invariant
                i <= n,
                n == points.len(),
                pts == views(points@),
                nums@.len() == 2 * i,
                dens@.len() == 2 * i,
                forall|k: int| 0 <= k < i ==> (#[trigger] pts[k]).len() == 2,
                forall|k: int|
                    0 <= k < i ==> represents(
                        (#[trigger] pts[k])[0],
                        nums@[2 * k]@,
                        dens@[2 * k]@,
                    ) && represents(pts[k][1], nums@[2 * k + 1]@, dens@[2 * k + 1]@),
                forall|k: int| 0 <= k < 2 * i ==> (#[trigger] dens@[k])@ > 0,
            decreases n - i,
        {
            let (xn, xd) = points[i].coordinate(0).fraction();
            let (yn, yd) = points[i].coordinate(1).fraction();
            nums.push(xn);
            nums.push(yn);
            dens.push(xd);
            dens.push(yd);
            i = i + 1;
        }
        let m = dens.len();
        // prefix[k] is the product of the denominators before position k
        let mut prefix: Vec<Integer> = Vec::new();
        prefix.push(Integer::from_i64(1));
        let mut k: usize = 0;
        while k < m
            invariant
                k <= m,
                m == dens@.len(),
                prefix@.len() == k + 1,
                forall|j: int| 0 <= j < m ==> (#[trigger] dens@[j])@ > 0,
                forall|j: int| 0 <= j <= k ==> (#[trigger] prefix@[j])@ > 0,
                forall|j: int| 0 <= j < k ==> prefix@[j + 1]@ == (#[trigger] prefix@[j])@ * dens@[j]@,
            decreases m - k,
        {
            let next = prefix[k].mul(&dens[k]);
            proof {
                let a = prefix@[k as int]@;
                let b = dens@[k as int]@;
                assert(a * b > 0) by (nonlinear_arith)
                    requires
                        a > 0,
                        b > 0,
                ;
            }
            prefix.push(next);
            k = k + 1;
        }
        let ghost scale = prefix@[m as int]@;
        let mut suffix = Integer::from_i64(1);
        let mut coords: Vec<Integer> = Vec::new();
        let mut k: usize = m;
        while k > 0
            invariant
                k <= m,
                m == dens@.len(),
                m == nums@.len(),
                prefix@.len() == m + 1,
                coords@.len() == m - k,
                suffix@ > 0,
                scale > 0,
                prefix@[k as int]@ * suffix@ == scale,
                forall|j: int| 0 <= j < m ==> (#[trigger] dens@[j])@ > 0,
                forall|j: int| 0 <= j <= m ==> (#[trigger] prefix@[j])@ > 0,
                forall|j: int| 0 <= j < m ==> prefix@[j + 1]@ == (#[trigger] prefix@[j])@ * dens@[j]@,
                forall|j: int|
                    k <= j < m ==> (#[trigger] coords@[j - k])@ == nums@[j]@ * (scale / dens@[j]@)
                        && scale % dens@[j]@ == 0,
            decreases k,
        {
            k = k - 1;
            let rest = prefix[k].mul(&suffix);
            let value = nums[k].mul(&rest);
            let ghost old_coords = coords@;
            proof {
                let p = prefix@[k as int]@;
                let d = dens@[k as int]@;
                let s = suffix@;
                assert((p * d) * s == d * (p * s) && (p * d) * s == p * (d * s)) by (nonlinear_arith);
                assert(p * s > 0) by (nonlinear_arith)
                    requires
                        p > 0,
                        s > 0,
                ;
                assert(d * s > 0) by (nonlinear_arith)
                    requires
                        d > 0,
                        s > 0,
                ;
                vstd::arithmetic::div_mod::lemma_div_multiples_vanish(p * s, d);
                vstd::arithmetic::div_mod::lemma_mod_multiples_basic(p * s, d);
                assert((p * s) * d == d * (p * s)) by (nonlinear_arith);
            }
            suffix = dens[k].mul(&suffix);
            coords.insert(0, value);
            proof {
                assert forall|j: int| k <= j < m implies (#[trigger] coords@[j - k])@ == nums@[j]@ * (
                scale / dens@[j]@) && scale % dens@[j]@ == 0 by {
                    if j > k {
                        assert(coords@[j - k] == old_coords[j - (k + 1)]);
                    }
                }
            }
        }
        let r = Lattice { coords, scale: Ghost(scale) };
        proof {
            assert(m == 2 * pts.len());
            assert forall|j: int| 0 <= j < m implies (#[trigger] r.coords@[j])@ == nums@[j]@ * (scale
                / dens@[j]@) && scale % dens@[j]@ == 0 by {
                assert(coords@[j - 0] == coords@[j]);
            }
            assert forall|i: int| 0 <= i < pts.len() implies (#[trigger] pts[i]).len() == 2 && r.x(i) as real
                == pts[i][0] * (scale as real) && r.y(i) as real == pts[i][1] * (scale as real) by {
                let j0 = 2 * i;
                let j1 = 2 * i + 1;
                assert(0 <= j0 < m && 0 <= j1 < m);
                assert(r.coords@[j0]@ == nums@[j0]@ * (scale / dens@[j0]@));
                assert(scale % dens@[j0]@ == 0);
                assert(r.coords@[j1]@ == nums@[j1]@ * (scale / dens@[j1]@));
                assert(scale % dens@[j1]@ == 0);
                assert(dens@[j0]@ > 0 && dens@[j1]@ > 0);
                lemma_scaled_fraction(pts[i][0], nums@[2 * i]@, dens@[2 * i]@, scale);
                lemma_scaled_fraction(pts[i][1], nums@[2 * i + 1]@, dens@[2 * i + 1]@, scale);
            }
        }
        r
    }

    /// The square of the distance of the point `i` from the origin, scaled.
    pub open spec fn q(&self, i: int) -> int {
        self.x(i) * self.x(i) + self.y(i) * self.y(i)
    }

    /// Twice the signed area of the triangle of the points `i`, `j`, `k`,
    /// scaled.
    pub open spec fn o(&self, i: int, j: int, k: int) -> int {
        orient_int(self.x(i), self.y(i), self.x(j), self.y(j), self.x(k), self.y(k))
    }

    /// The determinant that tells whether `d` lies inside the circle through
    /// `a`, `b`, `c`, scaled.
    pub open spec fn circle(&self, a: int, b: int, c: int, d: int) -> int {
        self.q(a) * self.o(b, c, d) - self.q(b) * self.o(a, c, d) + self.q(c) * self.o(a, b, d)
            - self.q(d) * self.o(a, b, c)
    }

    /// The scaled area has the sign of the area.
    pub proof fn lemma_o(&self, pts: Seq<Seq<real>>, i: int, j: int, k: int)
        requires
            self.models(pts),
            0 <= i < pts.len(),
            0 <= j < pts.len(),
            0 <= k < pts.len(),
        ensures
            self.o(i, j, k) as real == orient2d(pts[i], pts[j], pts[k]) * ((self.scale@ as real) * (
            self.scale@ as real)),
            self.o(i, j, k) > 0 <==> orient2d(pts[i], pts[j], pts[k]) > 0real,
            self.o(i, j, k) < 0 <==> orient2d(pts[i], pts[j], pts[k]) < 0real,
            self.o(i, j, k) == 0 <==> orient2d(pts[i], pts[j], pts[k]) == 0real,
    {
        let s = self.scale@ as real;
        assert(pts[i].len() == 2 && pts[j].len() == 2 && pts[k].len() == 2);
        lemma_scaled_orient(
            pts[i],
            pts[j],
            pts[k],
            s,
            self.x(i),
            self.y(i),
            self.x(j),
            self.y(j),
            self.x(k),
            self.y(k),
        );
        assert(s * s > 0real) by (nonlinear_arith)
            requires
                s > 0real,
        ;
        lemma_same_sign(orient2d(pts[i], pts[j], pts[k]), self.o(i, j, k), s * s);
    }

    /// The scaled square of the distance from the origin is not negative.
    pub proof fn lemma_q(&self, pts: Seq<Seq<real>>, i: int)
        requires
            self.models(pts),
            0 <= i < pts.len(),
        ensures
            self.q(i) as real == norm2(pts[i]) * ((self.scale@ as real) * (self.scale@ as real)),
            self.q(i) >= 0,
    {
        let s = self.scale@ as real;
        let (x, y) = (self.x(i), self.y(i));
        assert(pts[i].len() == 2);
        lemma_scaled_product(pts[i][0], pts[i][0], s, x, x);
        lemma_scaled_product(pts[i][1], pts[i][1], s, y, y);
        let ss = s * s;
        let (a, b) = (pts[i][0] * pts[i][0], pts[i][1] * pts[i][1]);
        assert((a + b) * ss == a * ss + b * ss) by (nonlinear_arith);
        assert(x * x >= 0 && y * y >= 0) by (nonlinear_arith);
    }

    /// The scaled determinant has the sign of the determinant.
    pub proof fn lemma_circle(&self, pts: Seq<Seq<real>>, a: int, b: int, c: int, d: int)
        requires
            self.models(pts),
            0 <= a < pts.len(),
            0 <= b < pts.len(),
            0 <= c < pts.len(),
            0 <= d < pts.len(),
        ensures
            self.circle(a, b, c, d) > 0 <==> in_circle(pts[a], pts[b], pts[c], pts[d]) > 0real,
    {
        let s = self.scale@ as real;
        let ss = s * s;
        self.lemma_q(pts, a);
        self.lemma_q(pts, b);
        self.lemma_q(pts, c);
        self.lemma_q(pts, d);
        self.lemma_o(pts, b, c, d);
        self.lemma_o(pts, a, c, d);
        self.lemma_o(pts, a, b, d);
        self.lemma_o(pts, a, b, c);
        let (qa, qb, qc, qd) = (norm2(pts[a]), norm2(pts[b]), norm2(pts[c]), norm2(pts[d]));
        let (oa, ob, oc, od) = (
            orient2d(pts[b], pts[c], pts[d]),
            orient2d(pts[a], pts[c], pts[d]),
            orient2d(pts[a], pts[b], pts[d]),
            orient2d(pts[a], pts[b], pts[c]),
        );
        lemma_scaled_product(qa, oa, ss, self.q(a), self.o(b, c, d));
        lemma_scaled_product(qb, ob, ss, self.q(b), self.o(a, c, d));
        lemma_scaled_product(qc, oc, ss, self.q(c), self.o(a, b, d));
        lemma_scaled_product(qd, od, ss, self.q(d), self.o(a, b, c));
        let f = ss * ss;
        let (ta, tb, tc, td) = (qa * oa, qb * ob, qc * oc, qd * od);
        assert((ta - tb + tc - td) * f == ta * f - tb * f + tc * f - td * f) by (nonlinear_arith);
        assert(ss > 0real) by (nonlinear_arith)
            requires
                s > 0real,
                ss == s * s,
        ;
        assert(f > 0real) by (nonlinear_arith)
            requires
                ss > 0real,
                f == ss * ss,
        ;
        lemma_same_sign(in_circle(pts[a], pts[b], pts[c], pts[d]), self.circle(a, b, c, d), f);
    }

    fn norm(&self, i: usize, Ghost(pts): Ghost<Seq<Seq<real>>>) -> (r: Integer)
        requires
            self.models(pts),
            i < pts.len(),
        ensures
            r@ == self.q(i as int),
    {
        let len = self.coords.len();
        assert(len == 2 * pts.len());
        let x = &self.coords[2 * i];
        let y = &self.coords[2 * i + 1];
        x.mul(x).add(&y.mul(y))
    }

    fn det(&self, i: usize, j: usize, k: usize, Ghost(pts): Ghost<Seq<Seq<real>>>) -> (r: Integer)
        requires
            self.models(pts),
            i < pts.len(),
            j < pts.len(),
            k < pts.len(),
        ensures
            r@ == self.o(i as int, j as int, k as int),
    {
        let len = self.coords.len();
        assert(len == 2 * pts.len());
        let ax = &self.coords[2 * i];
        let ay = &self.coords[2 * i + 1];
        let bx = &self.coords[2 * j];
        let by = &self.coords[2 * j + 1];
        let cx = &self.coords[2 * k];
        let cy = &self.coords[2 * k + 1];
        let left = ax.sub(cx).mul(&by.sub(cy));
        let right = ay.sub(cy).mul(&bx.sub(cx));
        left.sub(&right)
    }

    /// Whether the point `d` lies inside the circle through the points `a`,
    /// `b`, `c`, which turn counter-clockwise.
    pub fn encircles(
        &self,
        a: usize,
        b: usize,
        c: usize,
        d: usize,
        Ghost(pts): Ghost<Seq<Seq<real>>>,
    ) -> (r: bool)
        requires
            self.models(pts),
            a < pts.len(),
            b < pts.len(),
            c < pts.len(),
            d < pts.len(),
        ensures
            r == (in_circle(pts[a as int], pts[b as int], pts[c as int], pts[d as int]) > 0real),
            r == (self.circle(a as int, b as int, c as int, d as int) > 0),
    {
        let ta = self.norm(a, Ghost(pts)).mul(&self.det(b, c, d, Ghost(pts)));
        let tb = self.norm(b, Ghost(pts)).mul(&self.det(a, c, d, Ghost(pts)));
        let tc = self.norm(c, Ghost(pts)).mul(&self.det(a, b, d, Ghost(pts)));
        let td = self.norm(d, Ghost(pts)).mul(&self.det(a, b, c, Ghost(pts)));
        proof {
            self.lemma_circle(pts, a as int, b as int, c as int, d as int);
        }
        ta.sub(&tb).add(&tc).sub(&td).signum() > 0
    }

    /// The direction in which the points `i`, `j`, `k` turn: `1`
    /// counter-clockwise, `-1` clockwise, `0` where they lie on one line.
    pub fn turn(&self, i: usize, j: usize, k: usize, Ghost(pts): Ghost<Seq<Seq<real>>>) -> (r: i8)
        requires
            self.models(pts),
            i < pts.len(),
            j < pts.len(),
            k < pts.len(),
        ensures
            r == 1 <==> orient2d(pts[i as int], pts[j as int], pts[k as int]) > 0real,
            r == -1 <==> orient2d(pts[i as int], pts[j as int], pts[k as int]) < 0real,
            r == 0 <==> orient2d(pts[i as int], pts[j as int], pts[k as int]) == 0real,
    {
        let det = self.det(i, j, k, Ghost(pts));
        proof {
            self.lemma_o(pts, i as int, j as int, k as int);
        }
        det.signum()
    }
}

/// A number with the fraction `n / d` is `n * (scale / d)` when scaled by a
/// multiple of `d`.
proof fn lemma_scaled_fraction(x: real, n: int, d: int, scale: int)
    requires
        represents(x, n, d),
        d > 0,
        scale % d == 0,
    ensures
        (n * (scale / d)) as real == x * (scale as real),
{
    let q = scale / d;
    assert(scale == d * q) by {
        vstd::arithmetic::div_mod::lemma_fundamental_div_mod(scale, d);
    }
    lemma_cast_mul(n, q);
    lemma_cast_mul(d, q);
    let dr = d as real;
    let qr = q as real;
    assert((x * dr) * qr == x * (dr * qr)) by (nonlinear_arith);
}

} // verus!
