//! Triangle meshes of surfaces.

use vstd::prelude::*;
use crate::aabb::{rectangle_corners, Aabb};
use crate::delaunay::{triangles, triangulated};
use crate::point::Point;
use crate::surface::{on_surface, Surface, SurfaceGeometry, Tolerance, TriangulationPoint};

verus! {

/// A triangle of a surface mesh.
#[derive(Clone, Debug)]
pub struct MeshTriangle {
    /// The corners of the triangle.
    pub points: [TriangulationPoint; 3],
}

/// The triangle mesh of a surface within a rectangle of its parameters.
#[derive(Clone, Debug)]
pub struct SurfaceMesh {
    /// The points sampled on the surface, without the corners of the
    /// rectangle.
    pub points: Vec<TriangulationPoint>,
    /// The triangles between the sampled points and the corners of the
    /// rectangle.
    pub triangles: Vec<MeshTriangle>,
}

/// The corners of the triangles of a mesh.
pub open spec fn corners_of(triangles: Seq<MeshTriangle>) -> Seq<[TriangulationPoint; 3]> {
    Seq::new(triangles.len(), |k: int| triangles[k].points)
}

/// The points `boundary` lie at the corners of the rectangle from `min` to
/// `max`, in the order min/min, min/max, max/min, max/max.
pub open spec fn at_corners(boundary: Seq<TriangulationPoint>, min: Seq<real>, max: Seq<real>) -> bool {
    &&& boundary.len() == 4
    &&& forall|k: int|
        0 <= k < 4 ==> (#[trigger] boundary[k]).point_surface@ == rectangle_corners(min, max)[k]
}

/// No point before the point `i` has its parameters.
pub open spec fn first_at(given: Seq<TriangulationPoint>, i: int) -> bool {
    forall|j: int| 0 <= j < i ==> (#[trigger] given[j]).point_surface@ != given[i].point_surface@
}

/// The parameters of the point `i` are those of one of the points picked.
pub open spec fn occurs(given: Seq<TriangulationPoint>, idx: Seq<int>, i: int) -> bool {
    exists|k: int|
        0 <= k < idx.len() && given[#[trigger] idx[k]].point_surface@ == given[i].point_surface@
}

/// `out` holds the points of `given` at the places `idx`, which are the
/// places at which parameters occur for the first time, in their order.
pub open spec fn picks_firsts(
    given: Seq<TriangulationPoint>,
    idx: Seq<int>,
    out: Seq<TriangulationPoint>,
) -> bool {
    &&& idx.len() == out.len()
    &&& forall|k: int|
        0 <= k < idx.len() ==> 0 <= #[trigger] idx[k] < given.len() && out[k]@ == given[idx[k]]@
            && first_at(given, idx[k])
    &&& forall|a: int, b: int| 0 <= a < b < idx.len() ==> #[trigger] idx[a] < #[trigger] idx[b]
    &&& forall|i: int| 0 <= i < given.len() ==> #[trigger] occurs(given, idx, i)
}

/// `out` is `given` with the points of the same parameters merged: of each
/// such, the first is kept, in its place among the others.
pub open spec fn merged(given: Seq<TriangulationPoint>, out: Seq<TriangulationPoint>) -> bool {
    exists|idx: Seq<int>| #[trigger] picks_firsts(given, idx, out)
}

/// No two of the points have the same parameters.
pub open spec fn no_repeats(points: Seq<TriangulationPoint>) -> bool {
    forall|a: int, b: int|
        0 <= a < b < points.len() ==> (#[trigger] points[a]).point_surface@ != (
        #[trigger] points[b]).point_surface@
}

/// `given` are the points of the surface at the parameters `samples`.
pub open spec fn sampled<G: SurfaceGeometry>(
    samples: Seq<Point<2>>,
    geometry: &G,
    given: Seq<TriangulationPoint>,
) -> bool {
    &&& given.len() == samples.len()
    &&& forall|i: int|
        0 <= i < given.len() ==> (#[trigger] given[i]).point_surface@ == samples[i]@ && on_surface(
            geometry,
            given[i],
        )
}

/// All the points lie on the surface.
pub open spec fn all_on_surface<G: SurfaceGeometry>(
    geometry: &G,
    points: Seq<TriangulationPoint>,
) -> bool {
    forall|k: int| 0 <= k < points.len() ==> on_surface(geometry, #[trigger] points[k])
}

/// The points with those of the same parameters merged: of each such, the
/// first is kept.
fn merge(given: &Vec<TriangulationPoint>) -> (out: Vec<TriangulationPoint>)
    ensures
        merged(given@, out@),
        no_repeats(out@),
{
    let mut out: Vec<TriangulationPoint> = Vec::new();
    let ghost mut idx: Seq<int> = Seq::empty();
    let mut i: usize = 0;
    while i < given.len()
        invariant
            i <= given@.len(),
            idx.len() == out@.len(),
            forall|k: int|
                0 <= k < idx.len() ==> 0 <= #[trigger] idx[k] < i && out@[k]@ == given@[idx[k]]@
                    && first_at(given@, idx[k]),
            forall|a: int, b: int| 0 <= a < b < idx.len() ==> #[trigger] idx[a] < #[trigger] idx[b],
            forall|j: int| 0 <= j < i ==> #[trigger] occurs(given@, idx, j),
        decreases given@.len() - i,
    {
        let mut k: usize = 0;
        let mut found = false;
        while k < out.len() && !found
            invariant
                k <= out@.len(),
                i < given@.len(),
                found ==> k < out@.len() && out@[k as int].point_surface@ == given@[i as int].point_surface@,
                forall|e: int|
                    0 <= e < k && !found ==> (#[trigger] out@[e]).point_surface@ != given@[i as int].point_surface@,
            decreases out@.len() - k + (if found { 0int } else { 1int }),
        {
            if out[k].point_surface.same(&given[i].point_surface) {
                found = true;
            } else {
                k = k + 1;
            }
        }
        let ghost old_idx = idx;
        if found {
            proof {
                assert(given@[idx[k as int]].point_surface@ == given@[i as int].point_surface@);
                assert(occurs(given@, idx, i as int));
            }
        } else {
            proof {
                assert forall|j: int| 0 <= j < i implies (#[trigger] given@[j]).point_surface@
                    != given@[i as int].point_surface@ by {
                    assert(occurs(given@, idx, j));
                    let e = choose|e: int|
                        0 <= e < idx.len() && given@[#[trigger] idx[e]].point_surface@
                            == given@[j].point_surface@;
                    assert(out@[e]@ == given@[idx[e]]@);
                }
                idx = idx.push(i as int);
            }
            out.push(given[i].copy());
            proof {
                assert(idx[idx.len() - 1] == i);
                assert(occurs(given@, idx, i as int));
            }
        }
        proof {
            assert forall|j: int| 0 <= j < i + 1 implies #[trigger] occurs(given@, idx, j) by {
                if j < i {
                    assert(occurs(given@, old_idx, j));
                    let e = choose|e: int|
                        0 <= e < old_idx.len() && given@[#[trigger] old_idx[e]].point_surface@
                            == given@[j].point_surface@;
                    assert(idx[e] == old_idx[e]);
                }
            }
        }
        i = i + 1;
    }
    proof {
        assert(picks_firsts(given@, idx, out@));
        assert forall|a: int, b: int| 0 <= a < b < out@.len() implies (#[trigger] out@[a]).point_surface@
            != (#[trigger] out@[b]).point_surface@ by {
            assert(idx[a] < idx[b]);
            assert(first_at(given@, idx[b]));
            assert(out@[a]@ == given@[idx[a]]@ && out@[b]@ == given@[idx[b]]@);
        }
    }
    out
}

impl SurfaceMesh {
    /// The mesh of the sampled points `surface_points` and the corners
    /// `boundary_points`. The points of the mesh are the sampled points, of
    /// which those with the same parameters are merged; its triangles are
    /// those of a triangulation of these points followed by the corners.
    pub fn from_points(
        surface_points: Vec<TriangulationPoint>,
        boundary_points: [TriangulationPoint; 4],
    ) -> (r: SurfaceMesh)
        ensures
            merged(surface_points@, r.points@),
            no_repeats(r.points@),
            triangulated(r.points@ + boundary_points@, corners_of(r.triangles@)),
    {
        let kept = merge(&surface_points);
        Self::assemble(kept, boundary_points)
    }

    /// The mesh of the surface's points at the parameters `samples` and at
    /// the corners of `boundary`. Samples with the same parameters are
    /// merged; the corners are left out of the points of the mesh.
    pub fn from_samples<G: SurfaceGeometry>(
        samples: Vec<Point<2>>,
        geometry: &G,
        boundary: &Aabb<2>,
    ) -> (r: SurfaceMesh)
        ensures
            exists|given: Seq<TriangulationPoint>| #[trigger]
                sampled(samples@, geometry, given) && merged(given, r.points@),
            no_repeats(r.points@),
            all_on_surface(geometry, r.points@),
            exists|boundary_points: Seq<TriangulationPoint>| #[trigger]
                at_corners(boundary_points, boundary.min@, boundary.max@) && all_on_surface(
                    geometry,
                    boundary_points,
                ) && triangulated(r.points@ + boundary_points, corners_of(r.triangles@)),
    {
        let mut surface_points: Vec<TriangulationPoint> = Vec::new();
        let mut i: usize = 0;
        while i < samples.len()
            invariant
                i <= samples@.len(),
                surface_points@.len() == i,
                forall|k: int|
                    0 <= k < i ==> (#[trigger] surface_points@[k]).point_surface@ == samples@[k]@
                        && on_surface(geometry, surface_points@[k]),
            decreases samples@.len() - i,
        {
            surface_points.push(TriangulationPoint::from_surface_point(samples[i].copy(), geometry));
            i = i + 1;
        }
        let corners = boundary.corners();
        let boundary_points = [
            TriangulationPoint::from_surface_point(corners[0].copy(), geometry),
            TriangulationPoint::from_surface_point(corners[1].copy(), geometry),
            TriangulationPoint::from_surface_point(corners[2].copy(), geometry),
            TriangulationPoint::from_surface_point(corners[3].copy(), geometry),
        ];
        let ghost given = surface_points@;
        let r = Self::from_points(surface_points, boundary_points);
        proof {
            assert(sampled(samples@, geometry, given));
            assert(at_corners(boundary_points@, boundary.min@, boundary.max@));
            assert(all_on_surface(geometry, boundary_points@));
            let idx = choose|idx: Seq<int>| #[trigger] picks_firsts(given, idx, r.points@);
            assert forall|k: int| 0 <= k < r.points@.len() implies on_surface(
                geometry,
                #[trigger] r.points@[k],
            ) by {
                assert(r.points@[k]@ == given[idx[k]]@);
                assert(on_surface(geometry, given[idx[k]]));
            }
        }
        r
    }

    fn assemble(
        surface_points: Vec<TriangulationPoint>,
        boundary_points: [TriangulationPoint; 4],
    ) -> (r: SurfaceMesh)
        ensures
            r.points == surface_points,
            triangulated(surface_points@ + boundary_points@, corners_of(r.triangles@)),
    {
        let mut all_points: Vec<TriangulationPoint> = Vec::new();
        let mut i: usize = 0;
        while i < surface_points.len()
            invariant
                i <= surface_points@.len(),
                all_points@.len() == i,
                forall|k: int| 0 <= k < i ==> (#[trigger] all_points@[k])@ == surface_points@[k]@,
            decreases surface_points@.len() - i,
        {
            all_points.push(surface_points[i].copy());
            i = i + 1;
        }
        let mut j: usize = 0;
        while j < 4
            invariant
                j <= 4,
                all_points@.len() == surface_points@.len() + j,
                forall|k: int|
                    0 <= k < surface_points@.len() ==> (#[trigger] all_points@[k])@
                        == surface_points@[k]@,
                forall|k: int|
                    0 <= k < j ==> (#[trigger] all_points@[surface_points@.len() + k])@
                        == boundary_points@[k]@,
            decreases 4 - j,
        {
            all_points.push(boundary_points[j].copy());
            j = j + 1;
        }
        let found = triangles(&all_points);
        let ghost wanted = surface_points@ + boundary_points@;
        proof {
            assert forall|k: int| 0 <= k < wanted.len() implies (#[trigger] all_points@[k])@
                == wanted[k]@ by {
                if k >= surface_points@.len() {
                    assert(all_points@[surface_points@.len() + (k - surface_points@.len())]@
                        == boundary_points@[k - surface_points@.len()]@);
                }
            }
            lemma_triangulated_same(all_points@, wanted, found@);
        }
        let mut mesh: Vec<MeshTriangle> = Vec::new();
        let mut found = found;
        let ghost all_found = found@;
        while found.len() > 0
            invariant
                found@.len() <= all_found.len(),
                found@ == all_found.take(found@.len() as int),
                mesh@.len() == all_found.len() - found@.len(),
                forall|k: int|
                    0 <= k < mesh@.len() ==> (#[trigger] mesh@[k]).points == all_found[all_found.len()
                        - 1 - k],
            decreases found@.len(),
        {
            let ghost before = mesh@;
            let ghost at = found@.len() - 1;
            let corners = found.pop().unwrap();
            assert(corners == all_found[at]);
            mesh.push(MeshTriangle { points: corners });
            assert forall|k: int| 0 <= k < mesh@.len() implies (#[trigger] mesh@[k]).points
                == all_found[all_found.len() - 1 - k] by {
                if k < before.len() {
                    assert(mesh@[k] == before[k]);
                }
            }
        }
        let mut ordered: Vec<MeshTriangle> = Vec::new();
        let ghost reversed = mesh@;
        while mesh.len() > 0
            invariant
                reversed.len() == all_found.len(),
                mesh@.len() <= reversed.len(),
                mesh@ == reversed.take(mesh@.len() as int),
                ordered@.len() == reversed.len() - mesh@.len(),
                forall|k: int|
                    0 <= k < reversed.len() ==> (#[trigger] reversed[k]).points == all_found[
                        all_found.len() - 1 - k],
                forall|k: int| 0 <= k < ordered@.len() ==> (#[trigger] ordered@[k]).points == all_found[k],
            decreases mesh@.len(),
        {
            let ghost before = ordered@;
            let ghost at = mesh@.len() - 1;
            let triangle = mesh.pop().unwrap();
            assert(triangle == reversed[at]);
            ordered.push(triangle);
            assert forall|k: int| 0 <= k < ordered@.len() implies (#[trigger] ordered@[k]).points
                == all_found[k] by {
                if k < before.len() {
                    assert(ordered@[k] == before[k]);
                }
            }
        }
        assert(corners_of(ordered@) =~= all_found);
        SurfaceMesh { points: surface_points, triangles: ordered }
    }

    /// The mesh of `surface` within the rectangle `boundary` of its
    /// parameters. The surface chooses the sample points, for the given
    /// tolerance; samples with the same parameters are merged. The corners
    /// of the rectangle are added to them for the triangles, and left out of
    /// the points of the mesh.
    pub fn from_surface<G: SurfaceGeometry>(
        surface: &Surface<G>,
        boundary: &Aabb<2>,
        tolerance: Tolerance,
    ) -> (r: SurfaceMesh)
        ensures
            no_repeats(r.points@),
            all_on_surface(&surface.geometry, r.points@),
            exists|boundary_points: Seq<TriangulationPoint>| #[trigger]
                at_corners(boundary_points, boundary.min@, boundary.max@) && all_on_surface(
                    &surface.geometry,
                    boundary_points,
                ) && triangulated(r.points@ + boundary_points, corners_of(r.triangles@)),
    {
        let samples = surface.geometry.approximate(boundary, &tolerance);
        Self::from_samples(samples, &surface.geometry, boundary)
    }
}

/// A triangulation of points is a triangulation of any points with the same
/// parameters and positions.
proof fn lemma_triangulated_same(
    a: Seq<TriangulationPoint>,
    b: Seq<TriangulationPoint>,
    out: Seq<[TriangulationPoint; 3]>,
)
    requires
        a.len() == b.len(),
        forall|k: int| 0 <= k < a.len() ==> (#[trigger] a[k])@ == b[k]@,
        triangulated(a, out),
    ensures
        triangulated(b, out),
{
    let idx = choose|idx: Seq<[usize; 3]>|
        crate::delaunay::is_admissible(crate::delaunay::surface_views(a), idx)
            && #[trigger] crate::delaunay::picked(a, idx, out);
    assert(crate::delaunay::surface_views(a) =~= crate::delaunay::surface_views(b));
    assert forall|k: int, c: int| 0 <= k < out.len() && 0 <= c < 3 implies (#[trigger] out[k]@[c])@
        == b[idx[k]@[c] as int]@ by {
        assert(crate::sweep::tri_within(idx[k], a.len()));
    }
    assert(crate::delaunay::picked(b, idx, out));
}

} // verus!
