//! Delaunay triangulation of point sets in the plane.

use vstd::prelude::*;
use crate::flip::{legalize, locally_delaunay};
use crate::lattice::Lattice;
use crate::point::{lemma_lex_less_transitive, lemma_lex_total, lex_less, Point};
use crate::surface::TriangulationPoint;
use crate::plane::{before, lemma_lex_plane, lemma_on_line, lemma_orient_turns};
use crate::sweep::{
    all_counter_clockwise, all_within, area_sum, arranged, ascending, bounds, chain_sum,
    chain_within, climbing, edge_side, on_first_line, sweep, tri_area, tri_within, used,
};
use crate::triangle::orient2d;

verus! {

/// The coordinates of a sequence of points.
pub open spec fn views(points: Seq<Point<2>>) -> Seq<Seq<real>> {
    Seq::new(points.len(), |i: int| points[i]@)
}

/// Some index in `order` stands for the coordinates of the point `i`.
spec fn covered(points: Seq<Point<2>>, order: Seq<usize>, i: int) -> bool {
    exists|k: int| 0 <= k < order.len() && points[(#[trigger] order[k]) as int]@ == points[i]@
}

/// The indices of the points in the order of points, one index for each
/// place: points with the same coordinates are counted once.
fn sorted_order(points: &Vec<Point<2>>) -> (order: Vec<usize>)
    requires
        forall|i: int| 0 <= i < points@.len() ==> (#[trigger] points@[i])@.len() == 2,
    ensures
        forall|k: int| 0 <= k < order@.len() ==> (#[trigger] order@[k]) < points@.len(),
        forall|a: int, b: int|
            0 <= a < b < order@.len() ==> lex_less(
                #[trigger] points@[order@[a] as int]@,
                #[trigger] points@[order@[b] as int]@,
            ),
        forall|i: int| 0 <= i < points@.len() ==> #[trigger] covered(points@, order@, i),
{
    let n = points.len();
    let mut order: Vec<usize> = Vec::new();
    let mut i: usize = 0;
    while i < n
        invariant
            i <= n,
            n == points@.len(),
            forall|i: int| 0 <= i < points@.len() ==> (#[trigger] points@[i])@.len() == 2,
            forall|k: int| 0 <= k < order@.len() ==> (#[trigger] order@[k]) < n,
            forall|a: int, b: int|
                0 <= a < b < order@.len() ==> lex_less(
                    #[trigger] points@[order@[a] as int]@,
                    #[trigger] points@[order@[b] as int]@,
                ),
            forall|j: int| 0 <= j < i ==> #[trigger] covered(points@, order@, j),
        decreases n - i,
    {
        let mut pos: usize = 0;
        while pos < order.len() && points[order[pos]].precedes(&points[i])
            invariant
                pos <= order@.len(),
                i < n,
                n == points@.len(),
                forall|k: int| 0 <= k < order@.len() ==> (#[trigger] order@[k]) < n,
                forall|k: int|
                    0 <= k < pos ==> lex_less(
                        points@[(#[trigger] order@[k]) as int]@,
                        points@[i as int]@,
                    ),
            decreases order@.len() - pos,
        {
            pos = pos + 1;
        }
        let ghost old_order = order@;
        if pos < order.len() && points[order[pos]].same(&points[i]) {
            assert(points@[order@[pos as int] as int]@ == points@[i as int]@);
            assert(covered(points@, order@, i as int));
        } else {
            let ghost p = points@[i as int]@;
            proof {
                if pos < order@.len() {
                    let q = points@[order@[pos as int] as int]@;
                    lemma_lex_total(p, q);
                    assert(lex_less(p, q));
                }
            }
            order.insert(pos, i);
            proof {
                assert forall|a: int, b: int| 0 <= a < b < order@.len() implies lex_less(
                    #[trigger] points@[order@[a] as int]@,
                    #[trigger] points@[order@[b] as int]@,
                ) by {
                    let pa = points@[order@[a] as int]@;
                    let pb = points@[order@[b] as int]@;
                    if b < pos {
                        assert(order@[a] == old_order[a] && order@[b] == old_order[b]);
                    } else if b == pos {
                        assert(order@[a] == old_order[a]);
                    } else if a == pos {
                        let q = points@[old_order[pos as int] as int]@;
                        assert(order@[b] == old_order[b - 1]);
                        if b - 1 > pos {
                            assert(lex_less(q, pb));
                        }
                        lemma_lex_less_transitive(pa, q, pb);
                    } else if a < pos {
                        assert(order@[a] == old_order[a] && order@[b] == old_order[b - 1]);
                    } else {
                        assert(order@[a] == old_order[a - 1] && order@[b] == old_order[b - 1]);
                    }
                }
                assert forall|j: int| 0 <= j < i + 1 implies #[trigger] covered(
                    points@,
                    order@,
                    j,
                ) by {
                    if j == i {
                        assert(order@[pos as int] == i);
                    } else {
                        assert(covered(points@, old_order, j));
                        let k0 = choose|k: int|
                            0 <= k < old_order.len() && points@[(#[trigger] old_order[k]) as int]@
                                == points@[j]@;
                        if k0 < pos {
                            assert(order@[k0] == old_order[k0]);
                        } else {
                            assert(order@[k0 + 1] == old_order[k0]);
                        }
                    }
                }
            }
        }
        i = i + 1;
    }
    order
}

/// Any three of the points lie on one line.
pub open spec fn all_on_one_line(pts: Seq<Seq<real>>) -> bool {
    forall|i: int, j: int, k: int|
        0 <= i < pts.len() && 0 <= j < pts.len() && 0 <= k < pts.len() ==> orient2d(
            #[trigger] pts[i],
            #[trigger] pts[j],
            #[trigger] pts[k],
        ) == 0real
}

/// The points of the chain stand in the order of points.
pub open spec fn rising(pts: Seq<Seq<real>>, chain: Seq<usize>) -> bool {
    forall|e: int, f: int|
        0 <= e < f < chain.len() ==> before(
            pts[(#[trigger] chain[e]) as int],
            pts[(#[trigger] chain[f]) as int],
        )
}

/// `lower` and `upper` are the two chains of the convex hull of the points:
/// both run in the order of points from the least point to the greatest, and
/// every point lies to the left of each edge of the lower chain, or on its
/// line, and to the right of each edge of the upper chain, or on its line.
pub open spec fn is_hull(pts: Seq<Seq<real>>, lower: Seq<usize>, upper: Seq<usize>) -> bool {
    &&& chain_within(lower, pts.len())
    &&& chain_within(upper, pts.len())
    &&& lower.len() >= 1
    &&& upper.len() >= 1
    &&& lower[0] == upper[0]
    &&& lower.last() == upper.last()
    &&& rising(pts, lower)
    &&& rising(pts, upper)
    &&& forall|i: int|
        0 <= i < pts.len() ==> !before(#[trigger] pts[i], pts[lower[0] as int]) && !before(
            pts[lower.last() as int],
            pts[i],
        )
    &&& bounds(true, pts, lower, pts.len() as int)
    &&& bounds(false, pts, upper, pts.len() as int)
}

/// Twice the area of the convex hull with the chains `lower` and `upper`.
pub open spec fn hull_area(pts: Seq<Seq<real>>, lower: Seq<usize>, upper: Seq<usize>) -> real {
    chain_sum(pts, lower) - chain_sum(pts, upper)
}

/// The number of different points.
pub open spec fn distinct(pts: Seq<Seq<real>>) -> nat {
    pts.to_set().len()
}

/// The triangles have the measure of the convex hull of the points: their
/// areas add up to the area of the hull, and there are as many of them as a
/// triangulation of the points has, which is twice the number of different
/// points, less the number of points on the two chains of the hull.
pub open spec fn measures_hull(pts: Seq<Seq<real>>, tris: Seq<[usize; 3]>) -> bool {
    exists|lower: Seq<usize>, upper: Seq<usize>| #[trigger]
        is_hull(pts, lower, upper) && area_sum(pts, tris) == hull_area(pts, lower, upper)
            && tris.len() + lower.len() + upper.len() == 2 * distinct(pts)
}

/// The point `i` is a corner of one of the triangles, or has the
/// coordinates of one.
pub open spec fn reached(pts: Seq<Seq<real>>, tris: Seq<[usize; 3]>, i: int) -> bool {
    exists|t: int, c: int|
        0 <= t < tris.len() && 0 <= c < 3 && pts[(#[trigger] tris[t]@[c]) as int] == pts[i]
}

/// Every point is a corner of one of the triangles, or has the coordinates
/// of one.
pub open spec fn reaches_all(pts: Seq<Seq<real>>, tris: Seq<[usize; 3]>) -> bool {
    forall|i: int| 0 <= i < pts.len() ==> #[trigger] reached(pts, tris, i)
}

/// What holds of the triangles that `triangulate` makes of the points `pts`.
/// It does not say that no two triangles overlap, nor that no point at all
/// lies inside the circle through the corners of a triangle.
pub open spec fn is_admissible(pts: Seq<Seq<real>>, tris: Seq<[usize; 3]>) -> bool {
    &&& all_within(tris, pts.len())
    &&& all_counter_clockwise(pts, tris)
    &&& tris.len() == 0 <==> all_on_one_line(pts)
    &&& pts.len() > 0 ==> measures_hull(pts, tris)
    &&& tris.len() > 0 ==> reaches_all(pts, tris)
    &&& locally_delaunay(pts, tris)
}

/// The point `i` stands at some place of `order`.
spec fn placed(pts: Seq<Seq<real>>, order: Seq<usize>, i: int) -> bool {
    exists|j: int| 0 <= j < order.len() && pts[(#[trigger] order[j]) as int] == pts[i]
}

/// The chain with each place replaced by the index that `order` has there.
spec fn through(order: Seq<usize>, chain: Seq<usize>) -> Seq<usize> {
    Seq::new(chain.len(), |e: int| order[chain[e] as int])
}

/// The triangle `u` has at each corner the index that `order` has at the
/// place that `t` names.
spec fn mapped(order: Seq<usize>, t: [usize; 3], u: [usize; 3]) -> bool {
    u@[0] == order[t@[0] as int] && u@[1] == order[t@[1] as int] && u@[2] == order[t@[2] as int]
}

proof fn lemma_chain_through(pts: Seq<Seq<real>>, order: Seq<usize>, chain: Seq<usize>)
    requires
        chain_within(chain, order.len()),
    ensures
        chain_sum(pts, through(order, chain)) == chain_sum(arranged(pts, order), chain),
    decreases chain.len(),
{
    if chain.len() >= 2 {
        lemma_chain_through(pts, order, chain.drop_last());
        assert(through(order, chain).drop_last() =~= through(order, chain.drop_last()));
    }
}

proof fn lemma_area_through(
    pts: Seq<Seq<real>>,
    order: Seq<usize>,
    tris: Seq<[usize; 3]>,
    out: Seq<[usize; 3]>,
)
    requires
        all_within(tris, order.len()),
        out.len() == tris.len(),
        forall|k: int| 0 <= k < tris.len() ==> mapped(order, #[trigger] tris[k], out[k]),
    ensures
        area_sum(pts, out) == area_sum(arranged(pts, order), tris),
    decreases tris.len(),
{
    if tris.len() > 0 {
        lemma_area_through(pts, order, tris.drop_last(), out.drop_last());
        let t = tris.last();
        assert(mapped(order, tris[tris.len() - 1], out[tris.len() - 1]));
        assert(tri_within(t, order.len()));
    }
}

/// At the end of the sweep the two chains are the chains of the convex hull
/// of all points, and the triangles fill it.
proof fn lemma_swept(
    pts: Seq<Seq<real>>,
    order: Seq<usize>,
    lower: Seq<usize>,
    upper: Seq<usize>,
    tris: Seq<[usize; 3]>,
    out: Seq<[usize; 3]>,
)
    requires
        pts.len() > 0,
        chain_within(order, pts.len()),
        ascending(arranged(pts, order)),
        forall|i: int| 0 <= i < pts.len() ==> #[trigger] placed(pts, order, i),
        climbing(lower),
        climbing(upper),
        chain_within(lower, order.len()),
        chain_within(upper, order.len()),
        lower.len() >= 1 && upper.len() >= 1 && lower[0] == 0 && upper[0] == 0,
        lower.last() == order.len() - 1 && upper.last() == order.len() - 1,
        bounds(true, arranged(pts, order), lower, order.len() as int),
        bounds(false, arranged(pts, order), upper, order.len() as int),
        area_sum(arranged(pts, order), tris) == chain_sum(arranged(pts, order), lower) - chain_sum(
            arranged(pts, order),
            upper,
        ),
        all_within(tris, order.len()),
        out.len() == tris.len(),
        forall|k: int| 0 <= k < tris.len() ==> mapped(order, #[trigger] tris[k], out[k]),
        tris.len() + lower.len() + upper.len() == 2 * order.len(),
    ensures
        measures_hull(pts, out),
{
    let opts = arranged(pts, order);
    let lw = through(order, lower);
    let up = through(order, upper);
    lemma_chain_through(pts, order, lower);
    lemma_chain_through(pts, order, upper);
    lemma_area_through(pts, order, tris, out);
    assert forall|e: int, f: int| 0 <= e < f < lw.len() implies before(
        pts[(#[trigger] lw[e]) as int],
        pts[(#[trigger] lw[f]) as int],
    ) by {
        assert(lower[e] < lower[f]);
        assert(before(opts[lower[e] as int], opts[lower[f] as int]));
    }
    assert forall|e: int, f: int| 0 <= e < f < up.len() implies before(
        pts[(#[trigger] up[e]) as int],
        pts[(#[trigger] up[f]) as int],
    ) by {
        assert(upper[e] < upper[f]);
        assert(before(opts[upper[e] as int], opts[upper[f] as int]));
    }
    assert forall|i: int| 0 <= i < pts.len() implies !before(#[trigger] pts[i], pts[lw[0] as int])
        && !before(pts[lw.last() as int], pts[i]) by {
        assert(placed(pts, order, i));
        let j = choose|j: int| 0 <= j < order.len() && pts[(#[trigger] order[j]) as int] == pts[i];
        assert(pts[i] == opts[j]);
        assert(pts[lw[0] as int] == opts[0]);
        assert(pts[lw.last() as int] == opts[order.len() - 1]);
        if j > 0 {
            assert(before(opts[0], opts[j]));
        }
        if j < order.len() - 1 {
            assert(before(opts[j], opts[order.len() - 1]));
        }
    }
    assert forall|e: int, i: int| 0 <= e < lw.len() - 1 && 0 <= i < pts.len() implies #[trigger] edge_side(
        true,
        pts,
        lw,
        e,
        i,
    ) >= 0real by {
        assert(placed(pts, order, i));
        let j = choose|j: int| 0 <= j < order.len() && pts[(#[trigger] order[j]) as int] == pts[i];
        assert(pts[i] == opts[j]);
        assert(edge_side(true, opts, lower, e, j) >= 0real);
    }
    assert forall|e: int, i: int| 0 <= e < up.len() - 1 && 0 <= i < pts.len() implies #[trigger] edge_side(
        false,
        pts,
        up,
        e,
        i,
    ) >= 0real by {
        assert(placed(pts, order, i));
        let j = choose|j: int| 0 <= j < order.len() && pts[(#[trigger] order[j]) as int] == pts[i];
        assert(pts[i] == opts[j]);
        assert(edge_side(false, opts, upper, e, j) >= 0real);
    }
    assert(is_hull(pts, lw, up));
    assert(area_sum(pts, out) == hull_area(pts, lw, up));
    lemma_distinct(pts, order);
}

/// The points in their order are the different points, each once.
proof fn lemma_distinct(pts: Seq<Seq<real>>, order: Seq<usize>)
    requires
        chain_within(order, pts.len()),
        ascending(arranged(pts, order)),
        forall|i: int| 0 <= i < pts.len() ==> #[trigger] placed(pts, order, i),
    ensures
        order.len() == distinct(pts),
{
    let opts = arranged(pts, order);
    assert forall|i: int, j: int| 0 <= i < opts.len() && 0 <= j < opts.len() && i != j implies opts[i]
        != opts[j] by {
        if i < j {
            assert(before(opts[i], opts[j]));
        } else {
            assert(before(opts[j], opts[i]));
        }
    }
    opts.unique_seq_to_set();
    assert forall|v: Seq<real>| opts.to_set().contains(v) <==> pts.to_set().contains(v) by {
        if opts.contains(v) {
            let j = choose|j: int| 0 <= j < opts.len() && opts[j] == v;
            assert(pts[order[j] as int] == v);
        }
        if pts.contains(v) {
            let i = choose|i: int| 0 <= i < pts.len() && pts[i] == v;
            assert(placed(pts, order, i));
            let j = choose|j: int| 0 <= j < order.len() && pts[(#[trigger] order[j]) as int] == pts[i];
            assert(opts[j] == v);
        }
    }
    assert(opts.to_set() =~= pts.to_set());
}

/// Where all points in their order lie on the line through the first two,
/// any three points lie on one line.
proof fn lemma_one_line(pts: Seq<Seq<real>>, order: Seq<usize>)
    requires
        chain_within(order, pts.len()),
        ascending(arranged(pts, order)),
        forall|i: int| 0 <= i < pts.len() ==> #[trigger] placed(pts, order, i),
        on_first_line(arranged(pts, order), order.len() as int),
    ensures
        all_on_one_line(pts),
{
    let opts = arranged(pts, order);
    assert forall|i: int, j: int, k: int|
        0 <= i < pts.len() && 0 <= j < pts.len() && 0 <= k < pts.len() implies orient2d(
        #[trigger] pts[i],
        #[trigger] pts[j],
        #[trigger] pts[k],
    ) == 0real by {
        assert(placed(pts, order, i) && placed(pts, order, j) && placed(pts, order, k));
        let a = choose|a: int| 0 <= a < order.len() && pts[(#[trigger] order[a]) as int] == pts[i];
        let b = choose|b: int| 0 <= b < order.len() && pts[(#[trigger] order[b]) as int] == pts[j];
        let c = choose|c: int| 0 <= c < order.len() && pts[(#[trigger] order[c]) as int] == pts[k];
        assert(pts[i] == opts[a] && pts[j] == opts[b] && pts[k] == opts[c]);
        if order.len() >= 2 {
            assert(before(opts[0], opts[1]));
            assert(orient2d(opts[0], opts[1], opts[a]) == 0real);
            assert(orient2d(opts[0], opts[1], opts[b]) == 0real);
            assert(orient2d(opts[0], opts[1], opts[c]) == 0real);
            lemma_on_line(opts[0], opts[1], opts[a], opts[b], opts[c]);
        } else {
            assert(a == 0 && b == 0 && c == 0);
            lemma_orient_turns(opts[0], opts[0], opts[0]);
        }
    }
}

/// Triangles between the points, each as the indices of its three corners,
/// made by a sweep over the points and by flips of edges.
///
/// - Every triangle turns counter-clockwise: none has the area zero.
/// - There are no triangles where all points lie on one line, and only then.
/// - The areas of the triangles add up to the area of the convex hull of the
///   points, and there are as many triangles as a triangulation of the
///   points has.
/// - Every point is a corner of a triangle, or has the coordinates of one.
/// - Of two triangles with an edge in common, run through in opposite
///   directions, neither has the far corner of the other inside the circle
///   through its corners.
///
/// Points with the same coordinates are taken as one point; points are the
/// same only where their coordinates are equal, not where they are close.
/// Edges cannot be required: there is no way to name edges that the
/// triangles must have.
pub fn triangulate(points: &Vec<Point<2>>) -> (r: Vec<[usize; 3]>)
    ensures
        is_admissible(views(points@), r@),
{
    let ghost pts = views(points@);
    let lattice = Lattice::build(points);
    proof {
        assert forall|i: int| 0 <= i < points@.len() implies (#[trigger] points@[i])@.len() == 2 by {
            assert(pts[i] == points@[i]@);
        }
    }
    let order = sorted_order(points);
    let ghost opts = arranged(pts, order@);
    proof {
        assert forall|i: int, j: int| 0 <= i < j < opts.len() implies before(
            #[trigger] opts[i],
            #[trigger] opts[j],
        ) by {
            assert(lex_less(points@[order@[i] as int]@, points@[order@[j] as int]@));
            assert(pts[order@[i] as int] == points@[order@[i] as int]@);
            assert(pts[order@[j] as int] == points@[order@[j] as int]@);
            lemma_lex_plane(opts[i], opts[j]);
        }
        assert forall|i: int| 0 <= i < pts.len() implies #[trigger] placed(pts, order@, i) by {
            assert(covered(points@, order@, i));
            let j = choose|j: int|
                0 <= j < order@.len() && points@[(#[trigger] order@[j]) as int]@ == points@[i]@;
            assert(pts[order@[j] as int] == pts[i]);
        }
    }
    let front = sweep(&lattice, &order, Ghost(pts));
    let mut out: Vec<[usize; 3]> = Vec::new();
    let mut k: usize = 0;
    while k < front.tris.len()
        invariant
            k <= front.tris@.len(),
            out@.len() == k,
            chain_within(order@, pts.len()),
            all_within(front.tris@, order@.len()),
            all_counter_clockwise(arranged(pts, order@), front.tris@),
            forall|i: int| 0 <= i < k ==> mapped(order@, #[trigger] front.tris@[i], out@[i]),
            all_within(out@, pts.len()),
            all_counter_clockwise(pts, out@),
        decreases front.tris@.len() - k,
    {
        let t = &front.tris[k];
        assert(tri_within(front.tris@[k as int], order@.len()));
        assert(tri_area(arranged(pts, order@), front.tris@[k as int]) > 0real);
        let u: [usize; 3] = [order[t[0]], order[t[1]], order[t[2]]];
        let ghost before_out = out@;
        out.push(u);
        proof {
            assert forall|i: int| 0 <= i < k + 1 implies mapped(
                order@,
                #[trigger] front.tris@[i],
                out@[i],
            ) by {
                if i < k {
                    assert(out@[i] == before_out[i]);
                }
            }
            assert forall|i: int| 0 <= i < out@.len() implies tri_within(
                #[trigger] out@[i],
                pts.len(),
            ) && tri_area(pts, out@[i]) > 0real by {
                if i < k {
                    assert(out@[i] == before_out[i]);
                }
            }
        }
        k = k + 1;
    }
    proof {
        if pts.len() > 0 {
            assert(covered(points@, order@, 0));
            lemma_swept(pts, order@, front.lower@, front.upper@, front.tris@, out@);
        }
        if out@.len() == 0 {
            lemma_one_line(pts, order@);
        }
    }
    let ghost swept = out@;
    let out = legalize(out, &lattice, Ghost(pts));
    proof {
        if pts.len() > 0 {
            let (lower, upper) = choose|lower: Seq<usize>, upper: Seq<usize>| #[trigger]
                is_hull(pts, lower, upper) && area_sum(pts, swept) == hull_area(pts, lower, upper)
                    && swept.len() + lower.len() + upper.len() == 2 * distinct(pts);
            assert(is_hull(pts, lower, upper) && area_sum(pts, out@) == hull_area(pts, lower, upper)
                && out@.len() + lower.len() + upper.len() == 2 * distinct(pts));
        }
        if out@.len() > 0 {
            let t = out@[0];
            assert(tri_within(t, pts.len()) && tri_area(pts, t) > 0real);
            assert forall|i: int| 0 <= i < pts.len() implies #[trigger] reached(pts, out@, i) by {
                assert(placed(pts, order@, i));
                let j = choose|j: int|
                    0 <= j < order@.len() && pts[(#[trigger] order@[j]) as int] == pts[i];
                assert(used(front.tris@, j));
                let (t, c) = choose|t: int, c: int|
                    0 <= t < front.tris@.len() && 0 <= c < 3 && #[trigger] front.tris@[t]@[c] == j;
                assert(mapped(order@, front.tris@[t], swept[t]));
                assert(swept[t]@[c] == order@[j]);
                assert(used(swept, order@[j] as int));
                assert(used(out@, order@[j] as int));
                let (t2, c2) = choose|t2: int, c2: int|
                    0 <= t2 < out@.len() && 0 <= c2 < 3 && #[trigger] out@[t2]@[c2] == order@[j];
                assert(pts[out@[t2]@[c2] as int] == pts[i]);
            }
        }
    }
    out
}

/// The parameters of a sequence of surface points.
pub open spec fn surface_views(points: Seq<TriangulationPoint>) -> Seq<Seq<real>> {
    Seq::new(points.len(), |i: int| points[i].point_surface@)
}

/// The triangles `out` hold the points of `all` at the places `idx`.
pub open spec fn picked(
    all: Seq<TriangulationPoint>,
    idx: Seq<[usize; 3]>,
    out: Seq<[TriangulationPoint; 3]>,
) -> bool {
    &&& idx.len() == out.len()
    &&& forall|k: int, c: int|
        0 <= k < out.len() && 0 <= c < 3 ==> (#[trigger] out[k]@[c])@ == all[idx[k]@[c] as int]@
}

/// `out` holds triangles between the points `all` that are admissible for
/// their parameters.
pub open spec fn triangulated(all: Seq<TriangulationPoint>, out: Seq<[TriangulationPoint; 3]>) -> bool {
    exists|idx: Seq<[usize; 3]>|
        is_admissible(surface_views(all), idx) && #[trigger] picked(all, idx, out)
}

/// The triangles of a triangulation of the points by their parameters on the
/// surface, each as its three corners.
pub fn triangles(points: &Vec<TriangulationPoint>) -> (r: Vec<[TriangulationPoint; 3]>)
    ensures
        triangulated(points@, r@),
{
    let mut params: Vec<Point<2>> = Vec::new();
    let mut i: usize = 0;
    while i < points.len()
        invariant
            i <= points@.len(),
            params@.len() == i,
            forall|k: int| 0 <= k < i ==> (#[trigger] params@[k])@ == points@[k].point_surface@,
        decreases points@.len() - i,
    {
        params.push(points[i].point_surface.copy());
        i = i + 1;
    }
    assert(views(params@) =~= surface_views(points@));
    let idx = triangulate(&params);
    let mut out: Vec<[TriangulationPoint; 3]> = Vec::new();
    let mut k: usize = 0;
    while k < idx.len()
        invariant
            k <= idx@.len(),
            params@.len() == points@.len(),
            is_admissible(surface_views(points@), idx@),
            picked(points@, idx@.take(k as int), out@),
        decreases idx@.len() - k,
    {
        let t = &idx[k];
        assert(tri_within(idx@[k as int], points@.len() as nat));
        let corners = [points[t[0]].copy(), points[t[1]].copy(), points[t[2]].copy()];
        let ghost before = out@;
        out.push(corners);
        proof {
            let taken = idx@.take(k + 1);
            assert forall|j: int, c: int| 0 <= j < out@.len() && 0 <= c < 3 implies (
            #[trigger] out@[j]@[c])@ == points@[taken[j]@[c] as int]@ by {
                if j < k {
                    assert(out@[j] == before[j]);
                    assert(taken[j] == idx@.take(k as int)[j]);
                }
            }
        }
        k = k + 1;
    }
    assert(idx@.take(idx@.len() as int) =~= idx@);
    out
}

} // verus!
