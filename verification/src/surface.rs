//! Surfaces and the points sampled on them.

use vstd::prelude::*;
use crate::aabb::Aabb;
use crate::point::Point;
use crate::scalar::Scalar;
use crate::vector::{vec_add, vec_scale, Vector};

verus! {

/// The largest distance that an approximation may keep from what it
/// approximates: a scalar greater than zero.
#[derive(Debug)]
pub struct Tolerance {
    value: Scalar,
}

/// A tolerance must be greater than zero.
#[derive(Clone, Copy, Debug, PartialEq, Eq, Structural)]
pub struct InvalidTolerance;

impl View for Tolerance {
    type V = real;

    closed spec fn view(&self) -> real {
        self.value@
    }
}

impl Tolerance {
    #[verifier::type_invariant]
    spec fn positive(&self) -> bool {
        self.value@ > 0real
    }

    /// The tolerance of the given size, where that is greater than zero.
    pub fn from_scalar(scalar: Scalar) -> (r: Result<Tolerance, InvalidTolerance>)
        ensures
            r is Ok <==> scalar@ > 0real,
            r matches Ok(t) ==> t@ == scalar@,
    {
        if scalar.signum() > 0 {
            Ok(Tolerance { value: scalar })
        } else {
            Err(InvalidTolerance)
        }
    }

    /// The size of the tolerance.
    pub fn inner(&self) -> (r: Scalar)
        ensures
            r@ == self@,
            r@ > 0real,
    {
        proof {
            use_type_invariant(self);
        }
        self.value.copy()
    }
}

impl Clone for Tolerance {
    fn clone(&self) -> (r: Tolerance)
        ensures
            r@ == self@,
    {
        proof {
            use_type_invariant(self);
        }
        Tolerance { value: self.value.copy() }
    }
}

/// The geometry of a surface: a map from the plane of its parameters into
/// space, and a choice of sample points.
pub trait SurfaceGeometry {
    /// The position in space of the point of the surface with the
    /// parameters `point`. A geometry says here what `point_from_local`
    /// computes; one that does not say it leaves the position open.
    open spec fn local_to_space(&self, point: Seq<real>) -> Seq<real> {
        arbitrary()
    }

    /// The point in space that the surface has at the parameters `point`.
    fn point_from_local(&self, point: &Point<2>) -> (r: Point<3>)
        ensures
            r@ == self.local_to_space(point@),
    ;

    /// Parameters at which to sample the surface within `boundary`, so that
    /// triangles between the samples stay within `tolerance` of the surface.
    fn approximate(&self, boundary: &Aabb<2>, tolerance: &Tolerance) -> Vec<Point<2>>;
}

/// A surface.
pub struct Surface<G: SurfaceGeometry> {
    /// The geometry of the surface.
    pub geometry: G,
}

/// A point of a surface, as its parameters on the surface and as its
/// position in space.
#[derive(Clone, Debug)]
pub struct TriangulationPoint {
    /// The parameters of the point on the surface.
    pub point_surface: Point<2>,
    /// The position of the point in space.
    pub point_vertex: Point<3>,
}

impl View for TriangulationPoint {
    type V = (Seq<real>, Seq<real>);

    open spec fn view(&self) -> (Seq<real>, Seq<real>) {
        (self.point_surface@, self.point_vertex@)
    }
}

/// The point lies on the surface: its position in space is the one that the
/// surface has at its parameters.
pub open spec fn on_surface<G: SurfaceGeometry>(geometry: &G, point: TriangulationPoint) -> bool {
    point.point_vertex@ == geometry.local_to_space(point.point_surface@)
}

impl TriangulationPoint {
    /// The point that the surface has at the parameters `point_surface`.
    pub fn from_surface_point<G: SurfaceGeometry>(point_surface: Point<2>, geometry: &G) -> (r:
        TriangulationPoint)
        ensures
            r.point_surface == point_surface,
            on_surface(geometry, r),
    {
        let point_vertex = geometry.point_from_local(&point_surface);
        TriangulationPoint { point_surface, point_vertex }
    }

    /// A second point with the same parameters and position.
    pub fn copy(&self) -> (r: TriangulationPoint)
        ensures
            r@ == self@,
    {
        TriangulationPoint {
            point_surface: self.point_surface.copy(),
            point_vertex: self.point_vertex.copy(),
        }
    }
}

/// A plane in space: the points `origin + u * a + v * b`.
#[derive(Clone, Debug)]
pub struct Plane {
    /// The point at the parameters `(0, 0)`.
    pub origin: Point<3>,
    /// The step in space for one unit of the first parameter.
    pub u: Vector<3>,
    /// The step in space for one unit of the second parameter.
    pub v: Vector<3>,
}

/// The point of a plane at the parameters `p`.
pub open spec fn plane_point(origin: Seq<real>, u: Seq<real>, v: Seq<real>, p: Seq<real>) -> Seq<
    real,
> {
    vec_add(vec_add(origin, vec_scale(u, p[0])), vec_scale(v, p[1]))
}

impl SurfaceGeometry for Plane {
    open spec fn local_to_space(&self, point: Seq<real>) -> Seq<real> {
        plane_point(self.origin@, self.u@, self.v@, point)
    }

    fn point_from_local(&self, point: &Point<2>) -> (r: Point<3>) {
        let a = point.coordinate(0);
        let b = point.coordinate(1);
        let along_u = self.u.scale(&a);
        let along_v = self.v.scale(&b);
        Point::from_vector(self.origin.to_vector().add(&along_u).add(&along_v))
    }

    /// A plane needs no samples: triangles between any of its points lie in it.
    fn approximate(&self, boundary: &Aabb<2>, tolerance: &Tolerance) -> (r: Vec<Point<2>>)
        ensures
            r@.len() == 0,
    {
        Vec::new()
    }
}

} // verus!
