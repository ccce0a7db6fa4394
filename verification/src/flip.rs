//! Edge flips that make a triangulation locally Delaunay.
//!
//! Two triangles that share an edge can exchange it for the other diagonal
//! of their quadrilateral where that is convex. It is, where one triangle
//! has the far corner of the other inside the circle through its corners.
//! Flipping every such edge ends with a triangulation in which none is left.

use vstd::prelude::*;
use crate::circle::{lemma_encircled_is_convex, lemma_orient_int_cross};
use crate::lattice::Lattice;
use crate::plane::{in_circle, lemma_orient_cross, lemma_orient_turns};
use crate::sweep::{
    all_counter_clockwise, all_within, area_sum, tri_area, tri_within, used,
};
use crate::triangle::orient2d;

verus! {

/// The index at the corner `i` of the triangle, the corners counted round
/// and round.
pub open spec fn corner(t: [usize; 3], i: int) -> int {
    t@[i % 3] as int
}

/// The edge that leaves the corner `i` of `s` is the edge that leaves the
/// corner `j` of `t`, run through the other way.
pub open spec fn shares_edge(s: [usize; 3], i: int, t: [usize; 3], j: int) -> bool {
    corner(s, i) == corner(t, j + 1) && corner(s, i + 1) == corner(t, j)
}

/// The triangles share an edge, and the corner of `t` off the edge lies
/// inside the circle through the corners of `s`: the edge is not a Delaunay
/// edge, and exchanging it for the other diagonal of the quadrilateral
/// brings the two triangles closer to a Delaunay triangulation.
pub open spec fn improves(pts: Seq<Seq<real>>, s: [usize; 3], i: int, t: [usize; 3], j: int) -> bool {
    let a = corner(s, i);
    let b = corner(s, i + 1);
    let c = corner(s, i + 2);
    let d = corner(t, j + 2);
    shares_edge(s, i, t, j) && in_circle(pts[a], pts[b], pts[c], pts[d]) > 0real
}

/// Every edge between two triangles is a Delaunay edge: neither triangle has
/// the far corner of the other inside the circle through its corners.
pub open spec fn locally_delaunay(pts: Seq<Seq<real>>, tris: Seq<[usize; 3]>) -> bool {
    forall|s: int, t: int, i: int, j: int|
        0 <= s < tris.len() && 0 <= t < tris.len() && 0 <= i < 3 && 0 <= j < 3 ==> !#[trigger] improves(
            pts,
            tris[s],
            i,
            tris[t],
            j,
        )
}

/// What a triangle adds to the measure that every flip lowers: its scaled
/// area times the sum of the scaled squares of the distances of its corners
/// from the origin.
spec fn weight3(lattice: &Lattice, a: int, b: int, c: int) -> int {
    lattice.o(a, b, c) * (lattice.q(a) + lattice.q(b) + lattice.q(c))
}

spec fn weight(lattice: &Lattice, t: [usize; 3]) -> int {
    weight3(lattice, t@[0] as int, t@[1] as int, t@[2] as int)
}

/// The measure that every flip lowers.
spec fn potential(lattice: &Lattice, tris: Seq<[usize; 3]>) -> int
    decreases tris.len(),
{
    if tris.len() == 0 {
        0
    } else {
        potential(lattice, tris.drop_last()) + weight(lattice, tris.last())
    }
}

proof fn lemma_potential_update(lattice: &Lattice, tris: Seq<[usize; 3]>, k: int, t: [usize; 3])
    requires
        0 <= k < tris.len(),
    ensures
        potential(lattice, tris.update(k, t)) == potential(lattice, tris) - weight(lattice, tris[k])
            + weight(lattice, t),
    decreases tris.len(),
{
    let next = tris.update(k, t);
    if k == tris.len() - 1 {
        assert(next.drop_last() =~= tris.drop_last());
    } else {
        lemma_potential_update(lattice, tris.drop_last(), k, t);
        assert(next.drop_last() =~= tris.drop_last().update(k, t));
    }
}

proof fn lemma_area_update(pts: Seq<Seq<real>>, tris: Seq<[usize; 3]>, k: int, t: [usize; 3])
    requires
        0 <= k < tris.len(),
    ensures
        area_sum(pts, tris.update(k, t)) == area_sum(pts, tris) - tri_area(pts, tris[k]) + tri_area(
            pts,
            t,
        ),
    decreases tris.len(),
{
    let next = tris.update(k, t);
    if k == tris.len() - 1 {
        assert(next.drop_last() =~= tris.drop_last());
    } else {
        lemma_area_update(pts, tris.drop_last(), k, t);
        assert(next.drop_last() =~= tris.drop_last().update(k, t));
    }
}

proof fn lemma_potential_nonnegative(
    lattice: &Lattice,
    pts: Seq<Seq<real>>,
    tris: Seq<[usize; 3]>,
)
    requires
        lattice.models(pts),
        all_within(tris, pts.len()),
        all_counter_clockwise(pts, tris),
    ensures
        potential(lattice, tris) >= 0,
    decreases tris.len(),
{
    if tris.len() > 0 {
        let rest = tris.drop_last();
        assert forall|k: int| 0 <= k < rest.len() implies tri_within(#[trigger] rest[k], pts.len())
            && tri_area(pts, rest[k]) > 0real by {
            assert(rest[k] == tris[k]);
        }
        lemma_potential_nonnegative(lattice, pts, rest);
        let t = tris.last();
        assert(tri_within(tris[tris.len() - 1], pts.len()) && tri_area(pts, tris[tris.len() - 1])
            > 0real);
        let (a, b, c) = (t@[0] as int, t@[1] as int, t@[2] as int);
        lattice.lemma_o(pts, a, b, c);
        lattice.lemma_q(pts, a);
        lattice.lemma_q(pts, b);
        lattice.lemma_q(pts, c);
        let o = lattice.o(a, b, c);
        let q = lattice.q(a) + lattice.q(b) + lattice.q(c);
        assert(o * q >= 0) by (nonlinear_arith)
            requires
                o > 0,
                q >= 0,
        ;
    }
}

/// How the scaled area changes with the order of the corners.
proof fn lemma_o_turns(lattice: &Lattice, a: int, b: int, c: int)
    ensures
        lattice.o(b, c, a) == lattice.o(a, b, c),
        lattice.o(c, a, b) == lattice.o(a, b, c),
        lattice.o(a, c, b) == -lattice.o(a, b, c),
        lattice.o(b, a, c) == -lattice.o(a, b, c),
        lattice.o(c, b, a) == -lattice.o(a, b, c),
{
    let (ax, ay) = (lattice.x(a), lattice.y(a));
    let (bx, by) = (lattice.x(b), lattice.y(b));
    let (cx, cy) = (lattice.x(c), lattice.y(c));
    lemma_orient_int_cross(ax, ay, bx, by, cx, cy);
    lemma_orient_int_cross(bx, by, cx, cy, ax, ay);
    lemma_orient_int_cross(cx, cy, ax, ay, bx, by);
    lemma_orient_int_cross(ax, ay, cx, cy, bx, by);
    lemma_orient_int_cross(bx, by, ax, ay, cx, cy);
    lemma_orient_int_cross(cx, cy, bx, by, ax, ay);
}

/// The two triangles on the one diagonal of a quadrilateral have the area of
/// the two triangles on the other.
proof fn lemma_o_flip(lattice: &Lattice, a: int, b: int, c: int, d: int)
    ensures
        lattice.o(a, b, c) + lattice.o(b, a, d) == lattice.o(a, d, c) + lattice.o(d, b, c),
{
    let (ax, ay) = (lattice.x(a), lattice.y(a));
    let (bx, by) = (lattice.x(b), lattice.y(b));
    let (cx, cy) = (lattice.x(c), lattice.y(c));
    let (dx, dy) = (lattice.x(d), lattice.y(d));
    lemma_orient_int_cross(ax, ay, bx, by, cx, cy);
    lemma_orient_int_cross(bx, by, ax, ay, dx, dy);
    lemma_orient_int_cross(ax, ay, dx, dy, cx, cy);
    lemma_orient_int_cross(dx, dy, bx, by, cx, cy);
    lemma_orient_int_cross(cx, cy, dx, dy, ax, ay);
}

proof fn lemma_orient_flip(a: Seq<real>, b: Seq<real>, c: Seq<real>, d: Seq<real>)
    ensures
        orient2d(a, b, c) + orient2d(b, a, d) == orient2d(a, d, c) + orient2d(d, b, c),
{
    lemma_orient_cross(a, b, c);
    lemma_orient_cross(b, a, d);
    lemma_orient_cross(a, d, c);
    lemma_orient_cross(d, b, c);
    lemma_orient_cross(c, d, a);
}

proof fn lemma_spread(o: int, x: int, y: int, z: int)
    by (nonlinear_arith)
    ensures
        o * (x + y + z) == x * o + y * o + z * o,
{
}

proof fn lemma_balance(q: int, o1: int, o2: int, n1: int, n2: int)
    by (nonlinear_arith)
    requires
        o1 + o2 == n1 + n2,
    ensures
        q * o1 + q * o2 == q * n1 + q * n2,
{
}

/// A flip lowers the measure by the determinant of the four points.
proof fn lemma_flip_weight(lattice: &Lattice, a: int, b: int, c: int, d: int)
    ensures
        weight3(lattice, a, b, c) + weight3(lattice, b, a, d) - weight3(lattice, a, d, c) - weight3(
            lattice,
            d,
            b,
            c,
        ) == lattice.circle(a, b, c, d),
{
    let (qa, qb, qc, qd) = (lattice.q(a), lattice.q(b), lattice.q(c), lattice.q(d));
    let o1 = lattice.o(a, b, c);
    let o2 = lattice.o(b, a, d);
    let n1 = lattice.o(a, d, c);
    let n2 = lattice.o(d, b, c);
    lemma_o_flip(lattice, a, b, c, d);
    lemma_o_turns(lattice, d, b, c);
    lemma_o_turns(lattice, a, d, c);
    lemma_o_turns(lattice, b, a, d);
    assert(lattice.o(b, c, d) == n2);
    assert(lattice.o(a, c, d) == -n1);
    assert(lattice.o(a, b, d) == -o2);
    lemma_spread(o1, qa, qb, qc);
    lemma_spread(o2, qb, qa, qd);
    lemma_spread(n1, qa, qd, qc);
    lemma_spread(n2, qd, qb, qc);
    lemma_balance(qa, o1, o2, n1, n2);
    lemma_balance(qb, o1, o2, n1, n2);
    lemma_balance(qc, o1, o2, n1, n2);
    lemma_balance(qd, o1, o2, n1, n2);
    assert(qb * (-n1) == -(qb * n1)) by (nonlinear_arith);
    assert(qc * (-o2) == -(qc * o2)) by (nonlinear_arith);
}

/// The weight of a triangle does not depend on the corner that it is read
/// from.
proof fn lemma_weight_turns(lattice: &Lattice, t: [usize; 3], i: int)
    requires
        0 <= i < 3,
    ensures
        weight3(lattice, corner(t, i), corner(t, i + 1), corner(t, i + 2)) == weight(lattice, t),
{
    lemma_o_turns(lattice, t@[0] as int, t@[1] as int, t@[2] as int);
}

/// The area of a triangle does not depend on the corner that it is read
/// from.
proof fn lemma_area_turns(pts: Seq<Seq<real>>, t: [usize; 3], i: int)
    requires
        0 <= i < 3,
    ensures
        orient2d(pts[corner(t, i)], pts[corner(t, i + 1)], pts[corner(t, i + 2)]) == tri_area(pts, t),
{
    lemma_orient_turns(pts[t@[0] as int], pts[t@[1] as int], pts[t@[2] as int]);
}

/// A triangle that turns counter-clockwise shares no edge with itself.
proof fn lemma_no_edge_with_itself(pts: Seq<Seq<real>>, t: [usize; 3], i: int, j: int)
    requires
        0 <= i < 3,
        0 <= j < 3,
        tri_area(pts, t) > 0real,
    ensures
        !shares_edge(t, i, t, j),
{
    lemma_orient_turns(pts[t@[0] as int], pts[t@[1] as int], pts[t@[2] as int]);
    lemma_orient_turns(pts[t@[0] as int], pts[t@[0] as int], pts[t@[2] as int]);
    lemma_orient_turns(pts[t@[0] as int], pts[t@[1] as int], pts[t@[1] as int]);
    lemma_orient_turns(pts[t@[0] as int], pts[t@[1] as int], pts[t@[0] as int]);
}

/// The corners of two triangles are the corners of the two triangles that
/// a flip puts in their place.
proof fn lemma_flip_keeps(
    before: Seq<[usize; 3]>,
    after: Seq<[usize; 3]>,
    s: int,
    t: int,
    i: int,
    j: int,
    one: [usize; 3],
    two: [usize; 3],
    u: int,
)
    requires
        0 <= s < before.len(),
        0 <= t < before.len(),
        s != t,
        0 <= i < 3,
        0 <= j < 3,
        shares_edge(before[s], i, before[t], j),
        one@[0] == corner(before[s], i),
        one@[1] == corner(before[t], j + 2),
        one@[2] == corner(before[s], i + 2),
        two@[0] == corner(before[t], j + 2),
        two@[1] == corner(before[s], i + 1),
        two@[2] == corner(before[s], i + 2),
        after == before.update(s, one).update(t, two),
        used(before, u),
    ensures
        used(after, u),
{
    let (k, c) = choose|k: int, c: int|
        0 <= k < before.len() && 0 <= c < 3 && #[trigger] before[k]@[c] == u;
    assert(after[s] == one && after[t] == two);
    if k == s {
        if u == corner(before[s], i) {
            assert(after[s]@[0] == u);
        } else if u == corner(before[s], i + 1) {
            assert(after[t]@[1] == u);
        } else {
            assert(u == corner(before[s], i + 2));
            assert(after[s]@[2] == u);
        }
    } else if k == t {
        if u == corner(before[t], j + 2) {
            assert(after[s]@[1] == u);
        } else if u == corner(before[t], j + 1) {
            assert(after[s]@[0] == u);
        } else {
            assert(u == corner(before[t], j));
            assert(after[t]@[1] == u);
        }
    } else {
        assert(after[k] == before[k]);
        assert(after[k]@[c] == u);
    }
}

fn corner_at(t: &[usize; 3], i: usize) -> (r: usize)
    requires
        i < 6,
    ensures
        r == corner(*t, i as int),
{
    t[i % 3]
}

/// The corners from which the edge between the triangles `s` and `t` can be
/// flipped to the better, if there are such.
fn improving_edge(
    tris: &Vec<[usize; 3]>,
    s: usize,
    t: usize,
    lattice: &Lattice,
    Ghost(pts): Ghost<Seq<Seq<real>>>,
) -> (r: Option<(usize, usize)>)
    requires
        lattice.models(pts),
        all_within(tris@, pts.len()),
        s < tris@.len(),
        t < tris@.len(),
    ensures
        r matches Some((i, j)) ==> i < 3 && j < 3 && improves(
            pts,
            tris@[s as int],
            i as int,
            tris@[t as int],
            j as int,
        ),
        r is None ==> forall|i: int, j: int|
            0 <= i < 3 && 0 <= j < 3 ==> !#[trigger] improves(
                pts,
                tris@[s as int],
                i,
                tris@[t as int],
                j,
            ),
{
    let first = &tris[s];
    let second = &tris[t];
    assert(tri_within(tris@[s as int], pts.len()) && tri_within(tris@[t as int], pts.len()));
    let mut i: usize = 0;
    while i < 3
        invariant
            i <= 3,
            lattice.models(pts),
            first == tris@[s as int],
            second == tris@[t as int],
            tri_within(*first, pts.len()),
            tri_within(*second, pts.len()),
            forall|i1: int, j1: int|
                0 <= i1 < i && 0 <= j1 < 3 ==> !#[trigger] improves(pts, *first, i1, *second, j1),
        decreases 3 - i,
    {
        let mut j: usize = 0;
        while j < 3
            invariant
                i < 3,
                j <= 3,
                lattice.models(pts),
                first == tris@[s as int],
                second == tris@[t as int],
                tri_within(*first, pts.len()),
                tri_within(*second, pts.len()),
                forall|i1: int, j1: int|
                    0 <= i1 < i && 0 <= j1 < 3 ==> !#[trigger] improves(pts, *first, i1, *second, j1),
                forall|j1: int| 0 <= j1 < j ==> !#[trigger] improves(pts, *first, i as int, *second, j1),
            decreases 3 - j,
        {
            let a = corner_at(first, i);
            let b = corner_at(first, i + 1);
            let c = corner_at(first, i + 2);
            let d = corner_at(second, j + 2);
            if a == corner_at(second, j + 1) && b == corner_at(second, j) && lattice.encircles(
                a,
                b,
                c,
                d,
                Ghost(pts),
            ) {
                return Some((i, j));
            }
            j = j + 1;
        }
        i = i + 1;
    }
    None
}

/// Two triangles and the corners from which the edge between them can be
/// flipped to the better, if there are such.
fn improving_pair(tris: &Vec<[usize; 3]>, lattice: &Lattice, Ghost(pts): Ghost<Seq<Seq<real>>>) -> (r:
    Option<(usize, usize, usize, usize)>)
    requires
        lattice.models(pts),
        all_within(tris@, pts.len()),
        all_counter_clockwise(pts, tris@),
    ensures
        r matches Some((s, t, i, j)) ==> s < tris@.len() && t < tris@.len() && s != t && i < 3 && j
            < 3 && improves(pts, tris@[s as int], i as int, tris@[t as int], j as int),
        r is None ==> locally_delaunay(pts, tris@),
{
    let n = tris.len();
    let mut s: usize = 0;
    while s < n
        invariant
            s <= n,
            n == tris@.len(),
            lattice.models(pts),
            all_within(tris@, pts.len()),
            all_counter_clockwise(pts, tris@),
            forall|s1: int, t1: int, i1: int, j1: int|
                0 <= s1 < s && 0 <= t1 < n && 0 <= i1 < 3 && 0 <= j1 < 3 ==> !#[trigger] improves(
                    pts,
                    tris@[s1],
                    i1,
                    tris@[t1],
                    j1,
                ),
        decreases n - s,
    {
        let mut t: usize = 0;
        while t < n
            invariant
                s < n,
                t <= n,
                n == tris@.len(),
                lattice.models(pts),
                all_within(tris@, pts.len()),
                all_counter_clockwise(pts, tris@),
                forall|s1: int, t1: int, i1: int, j1: int|
                    0 <= s1 < s && 0 <= t1 < n && 0 <= i1 < 3 && 0 <= j1 < 3 ==> !#[trigger] improves(
                        pts,
                        tris@[s1],
                        i1,
                        tris@[t1],
                        j1,
                    ),
                forall|t1: int, i1: int, j1: int|
                    0 <= t1 < t && 0 <= i1 < 3 && 0 <= j1 < 3 ==> !#[trigger] improves(
                        pts,
                        tris@[s as int],
                        i1,
                        tris@[t1],
                        j1,
                    ),
            decreases n - t,
        {
            if s != t {
                match improving_edge(tris, s, t, lattice, Ghost(pts)) {
                    Some((i, j)) => {
                        return Some((s, t, i, j));
                    },
                    None => {},
                }
            } else {
                proof {
                    assert forall|i1: int, j1: int| 0 <= i1 < 3 && 0 <= j1 < 3 implies !#[trigger] improves(
                        pts,
                        tris@[s as int],
                        i1,
                        tris@[t as int],
                        j1,
                    ) by {
                        lemma_no_edge_with_itself(pts, tris@[s as int], i1, j1);
                    }
                }
            }
            t = t + 1;
        }
        s = s + 1;
    }
    None
}

/// Flips edges until no flip improves the triangulation. The triangles keep
/// their number, their turning sense and the sum of their areas.
pub(crate) fn legalize(tris: Vec<[usize; 3]>, lattice: &Lattice, Ghost(pts): Ghost<Seq<Seq<real>>>) -> (r:
    Vec<[usize; 3]>)
    requires
        lattice.models(pts),
        all_within(tris@, pts.len()),
        all_counter_clockwise(pts, tris@),
    ensures
        r@.len() == tris@.len(),
        all_within(r@, pts.len()),
        all_counter_clockwise(pts, r@),
        area_sum(pts, r@) == area_sum(pts, tris@),
        locally_delaunay(pts, r@),
        forall|u: int| used(tris@, u) ==> #[trigger] used(r@, u),
{
    let ghost start = tris@;
    let mut tris = tris;
    proof {
        lemma_potential_nonnegative(lattice, pts, tris@);
    }
    loop
        invariant_except_break
            potential(lattice, tris@) >= 0,
        invariant
            lattice.models(pts),
            tris@.len() == start.len(),
            all_within(tris@, pts.len()),
            all_counter_clockwise(pts, tris@),
            area_sum(pts, tris@) == area_sum(pts, start),
            forall|u: int| used(start, u) ==> #[trigger] used(tris@, u),
        ensures
            locally_delaunay(pts, tris@),
        decreases potential(lattice, tris@),
    {
        match improving_pair(&tris, lattice, Ghost(pts)) {
            None => {
                break ;
            },
            Some((s, t, i, j)) => {
                let first = tris[s];
                let second = tris[t];
                let a = corner_at(&first, i);
                let b = corner_at(&first, i + 1);
                let c = corner_at(&first, i + 2);
                let d = corner_at(&second, j + 2);
                let one: [usize; 3] = [a, d, c];
                let two: [usize; 3] = [d, b, c];
                let ghost before_flip = tris@;
                proof {
                    assert(tri_within(before_flip[s as int], pts.len()));
                    assert(tri_within(before_flip[t as int], pts.len()));
                    assert(tri_area(pts, before_flip[s as int]) > 0real);
                    assert(tri_area(pts, before_flip[t as int]) > 0real);
                    let mid = before_flip.update(s as int, one);
                    lemma_potential_update(lattice, before_flip, s as int, one);
                    lemma_potential_update(lattice, mid, t as int, two);
                    lemma_area_update(pts, before_flip, s as int, one);
                    lemma_area_update(pts, mid, t as int, two);
                    lemma_weight_turns(lattice, first, i as int);
                    lemma_weight_turns(lattice, second, j as int);
                    lemma_area_turns(pts, first, i as int);
                    lemma_area_turns(pts, second, j as int);
                    lemma_flip_weight(lattice, a as int, b as int, c as int, d as int);
                    lemma_orient_flip(pts[a as int], pts[b as int], pts[c as int], pts[d as int]);
                    lattice.lemma_circle(pts, a as int, b as int, c as int, d as int);
                    assert(corner(second, j as int) == b && corner(second, j + 1) == a);
                    lattice.lemma_o(pts, a as int, b as int, c as int);
                    lattice.lemma_o(pts, b as int, a as int, d as int);
                    lattice.lemma_o(pts, a as int, d as int, c as int);
                    lattice.lemma_o(pts, d as int, b as int, c as int);
                    lemma_encircled_is_convex(
                        lattice.x(a as int),
                        lattice.y(a as int),
                        lattice.x(b as int),
                        lattice.y(b as int),
                        lattice.x(c as int),
                        lattice.y(c as int),
                        lattice.x(d as int),
                        lattice.y(d as int),
                    );
                    assert(tri_area(pts, one) > 0real);
                    assert(tri_area(pts, two) > 0real);
                }
                tris.set(s, one);
                tris.set(t, two);
                proof {
                    assert forall|k: int| 0 <= k < tris@.len() implies tri_within(
                        #[trigger] tris@[k],
                        pts.len(),
                    ) && tri_area(pts, tris@[k]) > 0real by {
                        if k != s && k != t {
                            assert(tris@[k] == before_flip[k]);
                        }
                    }
                    lemma_potential_nonnegative(lattice, pts, tris@);
                    assert(tris@ == before_flip.update(s as int, one).update(t as int, two));
                    assert forall|u: int| used(start, u) implies #[trigger] used(tris@, u) by {
                        assert(used(before_flip, u));
                        lemma_flip_keeps(
                            before_flip,
                            tris@,
                            s as int,
                            t as int,
                            i as int,
                            j as int,
                            one,
                            two,
                            u,
                        );
                    }
                }
            },
        }
    }
    tris
}

} // verus!
