//! Triangulation of points in the plane by a sweep over them in their order.
//!
//! The points are taken in the order of points. Two chains bound what has
//! been triangulated so far: the lower and the upper chain of the convex hull
//! of the points taken, each running from the first point to the last. A
//! new point is joined to every edge of a chain that it lies beyond.

use vstd::prelude::*;
use crate::lattice::Lattice;
use crate::plane::{
    before, cross2, lemma_between, lemma_beyond, lemma_monotone, lemma_on_line, lemma_orient_cross,
    lemma_orient_turns, lemma_same_side, lemma_tangent_after, lemma_tangent_before, sided,
};
use crate::triangle::orient2d;

verus! {

/// The points at the places `order`, in that order.
pub open spec fn arranged(pts: Seq<Seq<real>>, order: Seq<usize>) -> Seq<Seq<real>> {
    Seq::new(order.len(), |j: int| pts[order[j] as int])
}

/// Each point comes before all that follow it.
pub open spec fn ascending(pts: Seq<Seq<real>>) -> bool {
    forall|i: int, j: int| 0 <= i < j < pts.len() ==> before(#[trigger] pts[i], #[trigger] pts[j])
}

/// The chain is made of points of the set.
pub open spec fn chain_within(chain: Seq<usize>, n: nat) -> bool {
    forall|k: int| 0 <= k < chain.len() ==> (#[trigger] chain[k]) < n
}

/// The places in the chain grow.
pub open spec fn climbing(chain: Seq<usize>) -> bool {
    forall|e: int, f: int| 0 <= e < f < chain.len() ==> (#[trigger] chain[e]) < (#[trigger] chain[f])
}

/// Sum of the cross products of each point of the chain with the next one.
pub open spec fn chain_sum(pts: Seq<Seq<real>>, chain: Seq<usize>) -> real
    decreases chain.len(),
{
    if chain.len() < 2 {
        0real
    } else {
        chain_sum(pts, chain.drop_last()) + cross2(
            pts[chain[chain.len() - 2] as int],
            pts[chain.last() as int],
        )
    }
}

/// The cross product of the last point of the chain with `p`, or zero for an
/// empty chain: what `p` adds to the sum of the chain when it is put at its end.
pub open spec fn chain_tip(pts: Seq<Seq<real>>, chain: Seq<usize>, p: usize) -> real {
    if chain.len() == 0 {
        0real
    } else {
        cross2(pts[chain.last() as int], pts[p as int])
    }
}

/// Twice the signed area of the triangle whose corners are the points at the
/// indices `t`.
pub open spec fn tri_area(pts: Seq<Seq<real>>, t: [usize; 3]) -> real {
    orient2d(pts[t@[0] as int], pts[t@[1] as int], pts[t@[2] as int])
}

/// Sum of the doubled signed areas of the triangles.
pub open spec fn area_sum(pts: Seq<Seq<real>>, tris: Seq<[usize; 3]>) -> real
    decreases tris.len(),
{
    if tris.len() == 0 {
        0real
    } else {
        area_sum(pts, tris.drop_last()) + tri_area(pts, tris.last())
    }
}

/// The corners of the triangle are points of the set.
pub open spec fn tri_within(t: [usize; 3], n: nat) -> bool {
    t@[0] < n && t@[1] < n && t@[2] < n
}

/// The triangles are made of points of the set.
pub open spec fn all_within(tris: Seq<[usize; 3]>, n: nat) -> bool {
    forall|k: int| 0 <= k < tris.len() ==> tri_within(#[trigger] tris[k], n)
}

/// Every triangle turns counter-clockwise: none is degenerate.
pub open spec fn all_counter_clockwise(pts: Seq<Seq<real>>, tris: Seq<[usize; 3]>) -> bool {
    forall|k: int| 0 <= k < tris.len() ==> tri_area(pts, #[trigger] tris[k]) > 0real
}

/// Where the point `j` lies of the edge `e` of the chain: positive on the
/// side of the chain, where the other chain is.
pub open spec fn edge_side(lower: bool, pts: Seq<Seq<real>>, chain: Seq<usize>, e: int, j: int) -> real {
    sided(lower, orient2d(pts[chain[e] as int], pts[chain[e + 1] as int], pts[j]))
}

/// Each of the first `k` points lies on the side of every edge of the chain,
/// or on the edge's line.
pub open spec fn bounds(lower: bool, pts: Seq<Seq<real>>, chain: Seq<usize>, k: int) -> bool {
    forall|e: int, j: int|
        0 <= e < chain.len() - 1 && 0 <= j < k ==> #[trigger] edge_side(lower, pts, chain, e, j)
            >= 0real
}

/// The first `k` points lie on the line through the first two.
pub open spec fn on_first_line(pts: Seq<Seq<real>>, k: int) -> bool {
    forall|j: int| 0 <= j < k ==> orient2d(pts[0], pts[1], #[trigger] pts[j]) == 0real
}

/// The point at the place `j` is a corner of one of the triangles.
pub open spec fn used(tris: Seq<[usize; 3]>, j: int) -> bool {
    exists|t: int, c: int| 0 <= t < tris.len() && 0 <= c < 3 && #[trigger] tris[t]@[c] == j
}

/// The chain holds the first `k` places, each once, in their order.
pub open spec fn counts_up(chain: Seq<usize>, k: int) -> bool {
    chain.len() == k && forall|e: int| 0 <= e < k ==> #[trigger] chain[e] == e
}

/// A corner of the triangles is a corner of the triangles when more are put
/// behind them.
pub proof fn lemma_used_still(tris: Seq<[usize; 3]>, more: Seq<[usize; 3]>, j: int)
    requires
        tris.len() <= more.len(),
        more.take(tris.len() as int) == tris,
        used(tris, j),
    ensures
        used(more, j),
{
    let (t, c) = choose|t: int, c: int| 0 <= t < tris.len() && 0 <= c < 3 && #[trigger] tris[t]@[c] == j;
    assert(more.take(tris.len() as int)[t] == more[t]);
    assert(more[t]@[c] == j);
}

pub proof fn lemma_chain_push(pts: Seq<Seq<real>>, chain: Seq<usize>, p: usize)
    ensures
        chain_sum(pts, chain.push(p)) == chain_sum(pts, chain) + chain_tip(pts, chain, p),
{
    let c = chain.push(p);
    assert(c.drop_last() =~= chain);
    if chain.len() == 0 {
        assert(c.len() == 1);
    }
}

pub proof fn lemma_area_push(pts: Seq<Seq<real>>, tris: Seq<[usize; 3]>, t: [usize; 3])
    ensures
        area_sum(pts, tris.push(t)) == area_sum(pts, tris) + tri_area(pts, t),
{
    assert(tris.push(t).drop_last() =~= tris);
}

/// Where the last edge of a chain has `k` on its side, every edge has.
proof fn lemma_sees(lower: bool, pts: Seq<Seq<real>>, chain: Seq<usize>, k: int, e: int)
    requires
        ascending(pts),
        climbing(chain),
        chain_within(chain, k as nat),
        0 <= k < pts.len(),
        bounds(lower, pts, chain, k),
        chain.len() >= 2,
        0 <= e <= chain.len() - 2,
        edge_side(lower, pts, chain, chain.len() - 2, k) >= 0real,
    ensures
        edge_side(lower, pts, chain, e, k) >= 0real,
    decreases chain.len() - e,
{
    if e < chain.len() - 2 {
        lemma_sees(lower, pts, chain, k, e + 1);
        let x = chain[e];
        let a = chain[e + 1];
        let b = chain[e + 2];
        assert(x < a && a < b && b < k);
        assert(edge_side(lower, pts, chain, e, b as int) >= 0real);
        assert(before(pts[x as int], pts[a as int]));
        assert(before(pts[a as int], pts[b as int]));
        assert(before(pts[b as int], pts[k]));
        lemma_monotone(lower, pts[x as int], pts[a as int], pts[b as int], pts[k]);
    }
}

/// A chain that ends where the points beyond its last point lie on the side
/// of the edge to `k`, and whose last edge has `k` on its side, bounds `k`
/// and the points before it when `k` is put at its end.
proof fn lemma_extend(lower: bool, pts: Seq<Seq<real>>, chain: Seq<usize>, k: usize)
    requires
        ascending(pts),
        climbing(chain),
        chain_within(chain, k as nat),
        k < pts.len(),
        chain.len() >= 1,
        chain[0] == 0,
        bounds(lower, pts, chain, k as int),
        chain.len() >= 2 ==> edge_side(lower, pts, chain, chain.len() - 2, k as int) >= 0real,
        forall|j: int|
            chain.last() < j < k ==> sided(
                lower,
                orient2d(pts[chain.last() as int], pts[k as int], #[trigger] pts[j]),
            ) >= 0real,
    ensures
        bounds(lower, pts, chain.push(k), k + 1),
{
    let next = chain.push(k);
    let a = chain.last();
    let p = pts[k as int];
    assert forall|e: int, j: int| 0 <= e < next.len() - 1 && 0 <= j < k + 1 implies #[trigger] edge_side(
        lower,
        pts,
        next,
        e,
        j,
    ) >= 0real by {
        if e < chain.len() - 1 {
            assert(next[e] == chain[e] && next[e + 1] == chain[e + 1]);
            if j < k {
                assert(edge_side(lower, pts, chain, e, j) >= 0real);
            } else {
                lemma_sees(lower, pts, chain, k as int, e);
            }
        } else {
            assert(next[e] == a && next[e + 1] == k);
            let q = pts[j];
            lemma_orient_turns(pts[a as int], p, q);
            if j == k || j == a {
            } else if j > a {
                assert(sided(lower, orient2d(pts[a as int], p, pts[j])) >= 0real);
            } else {
                // some point of the chain comes before `a`, as the chain starts at the first point
                assert(chain.len() >= 2);
                let x = chain[chain.len() - 2];
                assert(x < a);
                assert(before(pts[x as int], pts[a as int]));
                assert(before(pts[j], pts[a as int]));
                assert(before(pts[a as int], p));
                assert(edge_side(lower, pts, chain, chain.len() - 2, j) >= 0real);
                lemma_tangent_before(lower, pts[x as int], pts[a as int], p, q);
            }
        }
    }
}

/// What it does to the areas and to the chain to take the last of the first
/// `len` points off a chain that bends away from its side there towards the
/// point `k`, and to make a triangle of it.
proof fn lemma_take_off(
    lower: bool,
    pts: Seq<Seq<real>>,
    start: Seq<usize>,
    len: int,
    k: usize,
    tris: Seq<[usize; 3]>,
    triangle: [usize; 3],
)
    requires
        ascending(pts),
        climbing(start),
        chain_within(start, k as nat),
        k < pts.len(),
        bounds(lower, pts, start, k as int),
        2 <= len <= start.len(),
        edge_side(lower, pts, start.take(len), len - 2, k as int) < 0real,
        triangle@[1] == k,
        lower ==> triangle@[0] == start[len - 2] && triangle@[2] == start[len - 1],
        !lower ==> triangle@[2] == start[len - 2] && triangle@[0] == start[len - 1],
    ensures
        tri_area(pts, triangle) > 0real,
        tri_within(triangle, (k + 1) as nat),
        area_sum(pts, tris.push(triangle)) - sided(
            lower,
            chain_sum(pts, start.take(len - 1)) + chain_tip(pts, start.take(len - 1), k),
        ) == area_sum(pts, tris) - sided(
            lower,
            chain_sum(pts, start.take(len)) + chain_tip(pts, start.take(len), k),
        ),
        start.take(len - 1).last() == start[len - 2],
        forall|j: int|
            start[len - 2] < j < k ==> sided(
                lower,
                orient2d(pts[start[len - 2] as int], pts[k as int], #[trigger] pts[j]),
            ) >= 0real,
{
    let a = start[len - 2];
    let b = start[len - 1];
    let before_chain = start.take(len);
    let after = start.take(len - 1);
    let (pa, pb, pk) = (pts[a as int], pts[b as int], pts[k as int]);
    assert(before_chain[len - 2] == a && before_chain[len - 1] == b);
    assert(a < b && b < k);
    lemma_orient_turns(pa, pb, pk);
    lemma_orient_cross(pa, pb, pk);
    lemma_orient_cross(pa, pk, pb);
    lemma_area_push(pts, tris, triangle);
    assert(after =~= before_chain.drop_last());
    assert(after.last() == a);
    assert(tri_area(pts, triangle) == -sided(lower, orient2d(pa, pb, pk)));
    assert forall|j: int| a < j < k implies sided(lower, orient2d(pa, pk, #[trigger] pts[j]))
        >= 0real by {
        assert(before(pa, pb) && before(pa, pk) && before(pa, pts[j]));
        assert(edge_side(lower, pts, start, len - 2, j) >= 0real);
        lemma_tangent_after(lower, pa, pb, pk, pts[j]);
    }
}

/// The points that have been taken off a chain are corners of the
/// triangles made of them, and so are the last point left and the point `k`.
proof fn lemma_take_off_used(
    start: Seq<usize>,
    len: int,
    k: usize,
    tris: Seq<[usize; 3]>,
    triangle: [usize; 3],
)
    requires
        2 <= len <= start.len(),
        triangle@[1] == k,
        triangle@[0] == start[len - 2] && triangle@[2] == start[len - 1] || triangle@[2] == start[len
            - 2] && triangle@[0] == start[len - 1],
        forall|e: int| len <= e < start.len() ==> used(tris, (#[trigger] start[e]) as int),
    ensures
        used(tris.push(triangle), k as int),
        used(tris.push(triangle), start[len - 2] as int),
        forall|e: int|
            len - 1 <= e < start.len() ==> used(tris.push(triangle), (#[trigger] start[e]) as int),
{
    let more = tris.push(triangle);
    let at = tris.len() as int;
    assert(more[at] == triangle);
    assert(more.take(at) =~= tris);
    assert(more[at]@[1] == k);
    assert(more[at]@[0] == start[len - 2] || more[at]@[2] == start[len - 2]);
    assert(more[at]@[0] == start[len - 1] || more[at]@[2] == start[len - 1]);
    assert forall|e: int| len - 1 <= e < start.len() implies used(
        more,
        (#[trigger] start[e]) as int,
    ) by {
        if e >= len {
            lemma_used_still(tris, more, start[e] as int);
        }
    }
}

/// Takes the last point off the chain while the chain bends away from its
/// side towards the point `k` there, and makes a triangle of each point
/// taken with its neighbour and `k`.
#[verifier::rlimit(40)]
pub(crate) fn close(
    chain: Vec<usize>,
    tris: Vec<[usize; 3]>,
    lower: bool,
    lattice: &Lattice,
    order: &Vec<usize>,
    k: usize,
    Ghost(all): Ghost<Seq<Seq<real>>>,
) -> (r: (Vec<usize>, Vec<[usize; 3]>))
    requires
        lattice.models(all),
        chain_within(order@, all.len()),
        k < order@.len(),
        ascending(arranged(all, order@)),
        climbing(chain@),
        chain_within(chain@, k as nat),
        chain@.len() >= 1 ==> chain@[0] == 0 && chain@.last() == k - 1,
        all_within(tris@, (k + 1) as nat),
        all_counter_clockwise(arranged(all, order@), tris@),
        bounds(lower, arranged(all, order@), chain@, k as int),
    ensures
        r.0@.len() <= chain@.len(),
        r.0@ == chain@.take(r.0@.len() as int),
        chain@.len() >= 1 ==> r.0@.len() >= 1,
        all_within(r.1@, (k + 1) as nat),
        all_counter_clockwise(arranged(all, order@), r.1@),
        r.1@.len() >= tris@.len(),
        r.1@.len() == tris@.len() ==> r.0@ == chain@,
        r.0@.len() >= 2 ==> edge_side(lower, arranged(all, order@), r.0@, r.0@.len() - 2, k as int)
            >= 0real,
        area_sum(arranged(all, order@), r.1@) - sided(
            lower,
            chain_sum(arranged(all, order@), r.0@) + chain_tip(arranged(all, order@), r.0@, k),
        ) == area_sum(arranged(all, order@), tris@) - sided(
            lower,
            chain_sum(arranged(all, order@), chain@) + chain_tip(arranged(all, order@), chain@, k),
        ),
        r.0@.len() >= 1 ==> bounds(lower, arranged(all, order@), r.0@.push(k), k + 1),
        r.1@.take(tris@.len() as int) == tris@,
        r.1@.len() + r.0@.len() == tris@.len() + chain@.len(),
        forall|e: int| r.0@.len() <= e < chain@.len() ==> used(r.1@, (#[trigger] chain@[e]) as int),
        r.1@.len() > tris@.len() ==> used(r.1@, k as int) && used(r.1@, r.0@.last() as int)
            && chain@.len() >= 2 && edge_side(
            lower,
            arranged(all, order@),
            chain@,
            chain@.len() - 2,
            k as int,
        ) < 0real,
{
    let ghost pts = arranged(all, order@);
    let ghost start = chain@;
    let ghost start_tris = tris@;
    let mut chain = chain;
    let mut tris = tris;
    let mut go = false;
    if chain.len() >= 2 {
        let t = lattice.turn(
            order[chain[chain.len() - 2]],
            order[chain[chain.len() - 1]],
            order[k],
            Ghost(all),
        );
        go = if lower { t < 0 } else { t > 0 };
    }
    while go
        invariant
            lattice.models(all),
            chain_within(order@, all.len()),
            k < order@.len(),
            pts == arranged(all, order@),
            ascending(pts),
            climbing(start),
            chain_within(start, k as nat),
            bounds(lower, pts, start, k as int),
            start.len() >= 1 ==> chain@.len() >= 1,
            chain@.len() <= start.len(),
            chain@ == start.take(chain@.len() as int),
            all_within(tris@, (k + 1) as nat),
            all_counter_clockwise(pts, tris@),
            tris@.len() >= start_tris.len(),
            tris@.len() == start_tris.len() ==> chain@ == start,
            tris@.take(start_tris.len() as int) == start_tris,
            tris@.len() + chain@.len() == start_tris.len() + start.len(),
            forall|e: int| chain@.len() <= e < start.len() ==> used(tris@, (#[trigger] start[e]) as int),
            tris@.len() > start_tris.len() ==> used(tris@, k as int) && used(
                tris@,
                chain@.last() as int,
            ) && start.len() >= 2 && edge_side(lower, pts, start, start.len() - 2, k as int) < 0real,
            go ==> chain@.len() >= 2 && edge_side(lower, pts, chain@, chain@.len() - 2, k as int)
                < 0real,
            !go && chain@.len() >= 2 ==> edge_side(lower, pts, chain@, chain@.len() - 2, k as int)
                >= 0real,
            chain@.len() >= 1 ==> forall|j: int|
                chain@.last() < j < k ==> sided(
                    lower,
                    orient2d(pts[chain@.last() as int], pts[k as int], #[trigger] pts[j]),
                ) >= 0real,
            area_sum(pts, tris@) - sided(lower, chain_sum(pts, chain@) + chain_tip(pts, chain@, k))
                == area_sum(pts, start_tris) - sided(
                lower,
                chain_sum(pts, start) + chain_tip(pts, start, k),
            ),
        decreases chain@.len(),
    {
        let len = chain.len();
        let a = chain[len - 2];
        let b = chain[len - 1];
        let triangle: [usize; 3] = if lower { [a, k, b] } else { [b, k, a] };
        let ghost tris_before = tris@;
        proof {
            assert(chain@[len - 2] == start[len - 2] && chain@[len - 1] == start[len - 1]);
            lemma_take_off(lower, pts, start, len as int, k, tris_before, triangle);
            lemma_take_off_used(start, len as int, k, tris_before, triangle);
        }
        tris.push(triangle);
        chain.pop();
        proof {
            assert(chain@ =~= start.take(len - 1));
            assert(tris@.take(start_tris.len() as int) =~= start_tris);
        }
        go = false;
        if chain.len() >= 2 {
            let t = lattice.turn(
                order[chain[chain.len() - 2]],
                order[chain[chain.len() - 1]],
                order[k],
                Ghost(all),
            );
            go = if lower { t < 0 } else { t > 0 };
        }
    }
    proof {
        if chain@.len() >= 1 {
            assert forall|e: int, j: int| 0 <= e < chain@.len() - 1 && 0 <= j < k implies #[trigger] edge_side(
                lower,
                pts,
                chain@,
                e,
                j,
            ) >= 0real by {
                assert(edge_side(lower, pts, start, e, j) >= 0real);
            }
            lemma_extend(lower, pts, chain@, k);
        }
    }
    (chain, tris)
}

/// What the sweep has made of the first `k` points: triangles, and the two
/// chains around them.
pub(crate) struct Front {
    pub(crate) tris: Vec<[usize; 3]>,
    pub(crate) lower: Vec<usize>,
    pub(crate) upper: Vec<usize>,
}

impl Front {
    /// What holds of the front when the first `k` of the points `pts`, which
    /// stand in their order, have been taken.
    pub(crate) open spec fn covers(&self, pts: Seq<Seq<real>>, k: int) -> bool {
        &&& climbing(self.lower@)
        &&& climbing(self.upper@)
        &&& chain_within(self.lower@, k as nat)
        &&& chain_within(self.upper@, k as nat)
        &&& (k == 0 ==> self.lower@.len() == 0 && self.upper@.len() == 0)
        &&& (k > 0 ==> self.lower@.len() >= 1 && self.upper@.len() >= 1 && self.lower@[0] == 0
            && self.upper@[0] == 0 && self.lower@.last() == k - 1 && self.upper@.last() == k - 1)
        &&& bounds(true, pts, self.lower@, k)
        &&& bounds(false, pts, self.upper@, k)
        &&& all_within(self.tris@, k as nat)
        &&& all_counter_clockwise(pts, self.tris@)
        &&& area_sum(pts, self.tris@) == chain_sum(pts, self.lower@) - chain_sum(pts, self.upper@)
        &&& (self.tris@.len() == 0 ==> counts_up(self.lower@, k) && counts_up(self.upper@, k)
            && on_first_line(pts, k))
        &&& (self.tris@.len() > 0 ==> forall|j: int| 0 <= j < k ==> #[trigger] used(self.tris@, j))
        &&& self.tris@.len() + self.lower@.len() + self.upper@.len() == 2 * k
    }
}

/// Sweeps over the points in their order and triangulates what lies between
/// the two chains.
#[verifier::rlimit(60)]
pub(crate) fn sweep(lattice: &Lattice, order: &Vec<usize>, Ghost(all): Ghost<Seq<Seq<real>>>) -> (front:
    Front)
    requires
        lattice.models(all),
        chain_within(order@, all.len()),
        ascending(arranged(all, order@)),
    ensures
        front.covers(arranged(all, order@), order@.len() as int),
{
    let ghost pts = arranged(all, order@);
    let mut front = Front { tris: Vec::new(), lower: Vec::new(), upper: Vec::new() };
    let mut k: usize = 0;
    while k < order.len()
        invariant
            k <= order@.len(),
            lattice.models(all),
            chain_within(order@, all.len()),
            pts == arranged(all, order@),
            ascending(pts),
            front.covers(pts, k as int),
        decreases order@.len() - k,
    {
        let Front { tris, lower, upper } = front;
        let ghost old_lower = lower@;
        let ghost old_upper = upper@;
        let ghost old_tris = tris@;
        let (mut lower, tris) = close(lower, tris, true, lattice, order, k, Ghost(all));
        let ghost mid_tris = tris@;
        let (mut upper, tris) = close(upper, tris, false, lattice, order, k, Ghost(all));
        proof {
            lemma_chain_push(pts, lower@, k);
            lemma_chain_push(pts, upper@, k);
            if k > 0 {
                assert(lower@.last() == lower@[lower@.len() - 1]);
                assert(upper@.last() == upper@[upper@.len() - 1]);
            }
            if tris@.len() == 0 {
                assert(lower@ == old_lower && upper@ == old_upper);
                lemma_first_line(pts, lower@, k);
            } else if old_tris.len() == 0 {
                if mid_tris.len() > 0 {
                    lemma_first_triangles(true, pts, old_lower, lower@, mid_tris, k);
                    assert forall|j: int| 0 <= j < k + 1 implies #[trigger] used(tris@, j) by {
                        lemma_used_still(mid_tris, tris@, j);
                    }
                } else {
                    lemma_first_triangles(false, pts, old_upper, upper@, tris@, k);
                }
            } else {
                if mid_tris.len() == old_tris.len() && tris@.len() == mid_tris.len() {
                    lemma_no_standstill(pts, old_lower, old_upper, old_tris, k);
                    assert(false);
                }
                assert(used(tris@, k as int)) by {
                    if mid_tris.len() > old_tris.len() {
                        lemma_used_still(mid_tris, tris@, k as int);
                    }
                }
                assert forall|j: int| 0 <= j < k + 1 implies #[trigger] used(tris@, j) by {
                    if j < k {
                        lemma_used_still(old_tris, mid_tris, j);
                        lemma_used_still(mid_tris, tris@, j);
                    }
                }
            }
        }
        lower.push(k);
        upper.push(k);
        proof {
            if tris@.len() == 0 {
                assert(counts_up(lower@, k + 1));
                assert(counts_up(upper@, k + 1));
            }
        }
        proof {
            if k == 0 {
                assert(bounds(true, pts, lower@, 1)) by {
                    assert(lower@.len() == 1);
                }
                assert(bounds(false, pts, upper@, 1)) by {
                    assert(upper@.len() == 1);
                }
            }
        }
        front = Front { tris, lower, upper };
        k = k + 1;
    }
    front
}

/// Where the first `k` points lie on the line through the first two, and the
/// last two of them lie on one line with the point `k`, that point lies on
/// the line through the first two as well.
proof fn lemma_first_line(pts: Seq<Seq<real>>, chain: Seq<usize>, k: usize)
    requires
        ascending(pts),
        k < pts.len(),
        climbing(chain),
        chain_within(chain, k as nat),
        k > 0 ==> chain.len() >= 1 && chain[0] == 0 && chain.last() == k - 1,
        on_first_line(pts, k as int),
        chain.len() >= 2 ==> edge_side(true, pts, chain, chain.len() - 2, k as int) >= 0real
            && edge_side(false, pts, chain, chain.len() - 2, k as int) >= 0real,
    ensures
        on_first_line(pts, k + 1),
{
    let p = pts[k as int];
    if k < 2 {
        lemma_orient_turns(pts[0], pts[1], pts[0]);
    } else {
        assert(chain.len() >= 2) by {
            if chain.len() < 2 {
                assert(chain[0] == chain.last());
            }
        }
        let a = chain[chain.len() - 2];
        let b = chain[chain.len() - 1];
        assert(a < b);
        let (o0, o1, pa, pb) = (pts[0], pts[1], pts[a as int], pts[b as int]);
        assert(before(o0, o1));
        assert(before(pa, pb));
        assert(orient2d(pa, pb, p) == 0real);
        assert(orient2d(o0, o1, pts[a as int]) == 0real);
        assert(orient2d(o0, o1, pts[b as int]) == 0real);
        lemma_orient_turns(o0, o1, o0);
        lemma_on_line(o0, o1, pa, pb, o0);
        lemma_on_line(o0, o1, pa, pb, o1);
        lemma_on_line(pa, pb, o0, o1, p);
    }
    assert forall|j: int| 0 <= j < k + 1 implies orient2d(pts[0], pts[1], #[trigger] pts[j])
        == 0real by {
        if j == k {
            if k < 2 {
                lemma_orient_turns(pts[0], pts[1], pts[0]);
            }
        }
    }
}

/// A point that comes after the points of a hull with triangles lies
/// beyond the last edge of one of the two chains: where it is on the side of
/// the last edge of the lower chain, it lies beyond that of the upper chain.
proof fn lemma_no_standstill(
    pts: Seq<Seq<real>>,
    lower: Seq<usize>,
    upper: Seq<usize>,
    tris: Seq<[usize; 3]>,
    k: usize,
)
    requires
        ascending(pts),
        0 < k < pts.len(),
        climbing(lower),
        climbing(upper),
        chain_within(lower, k as nat),
        chain_within(upper, k as nat),
        lower.len() >= 1 && upper.len() >= 1 && lower[0] == 0 && upper[0] == 0,
        lower.last() == k - 1 && upper.last() == k - 1,
        bounds(true, pts, lower, k as int),
        bounds(false, pts, upper, k as int),
        all_within(tris, k as nat),
        all_counter_clockwise(pts, tris),
        tris.len() > 0,
        lower.len() >= 2 ==> edge_side(true, pts, lower, lower.len() - 2, k as int) >= 0real,
    ensures
        upper.len() >= 2,
        edge_side(false, pts, upper, upper.len() - 2, k as int) < 0real,
{
    if upper.len() >= 2 && edge_side(false, pts, upper, upper.len() - 2, k as int) < 0real {
        return ;
    }
    let t = tris[0];
    assert(tri_within(t, k as nat) && tri_area(pts, t) > 0real);
    let (c0, c1, c2) = (t@[0] as int, t@[1] as int, t@[2] as int);
    if k == 1 {
        lemma_orient_turns(pts[0], pts[0], pts[0]);
    } else {
        assert(lower.len() >= 2) by {
            if lower.len() < 2 {
                assert(lower[0] == lower.last());
            }
        }
        assert(upper.len() >= 2) by {
            if upper.len() < 2 {
                assert(upper[0] == upper.last());
            }
        }
        let a = lower[lower.len() - 2];
        let b = upper[upper.len() - 2];
        let m = (k - 1) as int;
        assert(a < lower[lower.len() - 1] && b < upper[upper.len() - 1]);
        let (pa, pb, pm, p) = (pts[a as int], pts[b as int], pts[m], pts[k as int]);
        assert(before(pa, pm) && before(pb, pm) && before(pm, p));
        assert(edge_side(true, pts, lower, lower.len() - 2, b as int) >= 0real);
        lemma_beyond(pa, pb, pm, p);
        assert(edge_side(true, pts, lower, lower.len() - 2, c0) >= 0real);
        assert(edge_side(true, pts, lower, lower.len() - 2, c1) >= 0real);
        assert(edge_side(true, pts, lower, lower.len() - 2, c2) >= 0real);
        assert(edge_side(false, pts, upper, upper.len() - 2, c0) >= 0real);
        assert(edge_side(false, pts, upper, upper.len() - 2, c1) >= 0real);
        assert(edge_side(false, pts, upper, upper.len() - 2, c2) >= 0real);
        lemma_between(pa, pb, pm, pts[c0]);
        lemma_between(pa, pb, pm, pts[c1]);
        lemma_between(pa, pb, pm, pts[c2]);
        lemma_on_line(pa, pm, pts[c0], pts[c1], pts[c2]);
    }
}

/// Where the first points lie on one line and the point `k` lies off it,
/// the chain that bends away from its side is taken off down to its first
/// point, and every point becomes the corner of a triangle.
proof fn lemma_first_triangles(
    lower: bool,
    pts: Seq<Seq<real>>,
    chain: Seq<usize>,
    rest: Seq<usize>,
    tris: Seq<[usize; 3]>,
    k: usize,
)
    requires
        ascending(pts),
        k < pts.len(),
        counts_up(chain, k as int),
        on_first_line(pts, k as int),
        1 <= rest.len() <= chain.len(),
        rest == chain.take(rest.len() as int),
        rest.len() >= 2 ==> edge_side(lower, pts, rest, rest.len() - 2, k as int) >= 0real,
        forall|e: int| rest.len() <= e < chain.len() ==> used(tris, (#[trigger] chain[e]) as int),
        used(tris, k as int),
        used(tris, rest.last() as int),
        chain.len() >= 2,
        edge_side(lower, pts, chain, chain.len() - 2, k as int) < 0real,
    ensures
        forall|j: int| 0 <= j < k + 1 ==> #[trigger] used(tris, j),
{
    let p = pts[k as int];
    if rest.len() >= 2 {
        let x = (rest.len() - 2) as int;
        let a = (rest.len() - 1) as int;
        let y = (k - 2) as int;
        let z = (k - 1) as int;
        assert(rest[x] == chain[x] && rest[a] == chain[a]);
        assert(chain[x] == x && chain[a] == a && chain[y] == y && chain[z] == z);
        assert(before(pts[0], pts[1]));
        assert(before(pts[x], pts[a]));
        assert(before(pts[y], pts[z]));
        assert(orient2d(pts[0], pts[1], pts[x]) == 0real);
        assert(orient2d(pts[0], pts[1], pts[a]) == 0real);
        assert(orient2d(pts[0], pts[1], pts[y]) == 0real);
        assert(orient2d(pts[0], pts[1], pts[z]) == 0real);
        lemma_on_line(pts[0], pts[1], pts[x], pts[a], pts[y]);
        lemma_on_line(pts[0], pts[1], pts[x], pts[a], pts[z]);
        lemma_same_side(pts[x], pts[a], pts[y], pts[z], p);
        assert(false);
    }
    assert(rest.last() == rest[0] && rest[0] == chain[0]);
    assert forall|j: int| 0 <= j < k + 1 implies #[trigger] used(tris, j) by {
        if 0 < j < k {
            assert(chain[j] == j);
        }
    }
}

} // verus!
