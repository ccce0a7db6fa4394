use fj_math::aabb::Aabb;
use fj_math::delaunay::{triangles, triangulate};
use fj_math::mesh::SurfaceMesh;
use fj_math::point::Point;
use fj_math::render::{index_count, Geometry, UnsupportedIndexCount};
use fj_math::scalar::Scalar;
use fj_math::surface::{
    InvalidTolerance, Plane, Surface, SurfaceGeometry, Tolerance, TriangulationPoint,
};
use fj_math::triangle::{Triangle, Winding};
use fj_math::vector::Vector;

fn num(v: i64) -> Scalar {
    Scalar::from_i64(v)
}

fn at2(x: i64, y: i64) -> Point<2> {
    Point::from_coords([num(x), num(y)])
}

fn at3(x: i64, y: i64, z: i64) -> Point<3> {
    Point::from_coords([num(x), num(y), num(z)])
}

/// Twice the area of the triangles, and a check that each turns
/// counter-clockwise.
fn doubled_area(points: &[Point<2>], found: &[[usize; 3]]) -> Scalar {
    let mut total = Scalar::zero();
    for t in found {
        let [a, b, c] = [&points[t[0]], &points[t[1]], &points[t[2]]];
        let triangle = Triangle::from_points([a.copy(), b.copy(), c.copy()]);
        assert_eq!(triangle.winding(), Some(Winding::Ccw));
        let u = b.sub(a);
        let v = c.sub(a);
        let area = u.component(0).mul(&v.component(1)).sub(&u.component(1).mul(&v.component(0)));
        total = total.add(&area);
    }
    total
}

#[test]
fn a_rectangle_takes_two_triangles() {
    let points = vec![at2(0, 0), at2(0, 1), at2(2, 0), at2(2, 1)];
    let found = triangulate(&points);
    assert_eq!(found.len(), 2);
    assert_eq!(doubled_area(&points, &found), num(4));
}

#[test]
fn a_grid_is_covered_once() {
    let mut points = Vec::new();
    for x in 0..4 {
        for y in 0..3 {
            points.push(at2(x, y));
        }
    }
    let found = triangulate(&points);
    assert_eq!(found.len(), 12);
    assert_eq!(doubled_area(&points, &found), num(12));
    for i in 0..points.len() {
        assert!(found.iter().any(|t| t.contains(&i)));
    }
}

#[test]
fn scattered_points_are_covered_to_their_hull() {
    // The hull is the square from (-5, -5) to (5, 5).
    let points = vec![
        at2(1, 2),
        at2(-5, -5),
        at2(0, 0),
        at2(5, 5),
        at2(3, -1),
        at2(-5, 5),
        at2(-2, 4),
        at2(5, -5),
        at2(0, -5),
        at2(-3, -3),
    ];
    let found = triangulate(&points);
    assert_eq!(doubled_area(&points, &found), num(200));
    // 2 n - 2 - h triangles, with n = 10 points of which h = 5 lie on the hull
    assert_eq!(found.len(), 13);
}

#[test]
fn the_same_points_give_the_same_triangles() {
    let make = || vec![at2(0, 0), at2(3, 1), at2(1, 4), at2(-2, 2), at2(1, 1), at2(0, 3)];
    assert_eq!(triangulate(&make()), triangulate(&make()));
}

#[test]
fn points_given_twice_are_used_once() {
    let points =
        vec![at2(0, 0), at2(2, 0), at2(0, 0), at2(2, 1), at2(0, 1), at2(2, 1), at2(0, 0), at2(0, 1)];
    let found = triangulate(&points);
    assert_eq!(found.len(), 2);
    assert_eq!(doubled_area(&points, &found), num(4));
}

#[test]
fn points_on_one_line_give_no_triangle() {
    assert!(triangulate(&vec![at2(0, 0), at2(1, 1), at2(2, 2), at2(5, 5)]).is_empty());
    assert!(triangulate(&vec![at2(1, 0), at2(1, 7), at2(1, -2)]).is_empty());
}

#[test]
fn fewer_than_three_points_give_no_triangle() {
    assert!(triangulate(&vec![]).is_empty());
    assert!(triangulate(&vec![at2(1, 1)]).is_empty());
    assert!(triangulate(&vec![at2(1, 1), at2(2, 3)]).is_empty());
    assert!(triangulate(&vec![at2(1, 1), at2(2, 3), at2(1, 1)]).is_empty());
}

#[test]
fn a_point_off_a_line_of_points_reaches_each_of_them() {
    let points = vec![at2(0, 0), at2(1, 0), at2(2, 0), at2(3, 0), at2(1, 5)];
    let found = triangulate(&points);
    assert_eq!(found.len(), 3);
    assert_eq!(doubled_area(&points, &found), num(15));
}

#[test]
fn fractions_are_triangulated_exactly() {
    let f = |n: i64, d: i64| Scalar::ratio(n, d).unwrap();
    let points = vec![
        Point::from_coords([f(1, 3), f(1, 7)]),
        Point::from_coords([f(2, 3), f(1, 7)]),
        Point::from_coords([f(1, 3), f(3, 7)]),
        Point::from_coords([f(2, 3), f(3, 7)]),
        Point::from_coords([f(1, 2), f(2, 7)]),
    ];
    let found = triangulate(&points);
    assert_eq!(found.len(), 4);
    assert_eq!(doubled_area(&points, &found), f(4, 21));
}

fn sample(x: i64, y: i64) -> TriangulationPoint {
    TriangulationPoint { point_surface: at2(x, y), point_vertex: at3(x, y, 7) }
}

#[test]
fn triangles_carry_their_points() {
    let points = vec![sample(0, 0), sample(4, 0), sample(0, 4), sample(1, 1)];
    let found = triangles(&points);
    assert_eq!(found.len(), 3);
    for triangle in &found {
        for corner in triangle {
            assert!(points.iter().any(|p| p.point_surface == corner.point_surface
                && p.point_vertex == corner.point_vertex));
        }
    }
}

fn xy_plane(height: i64) -> Plane {
    Plane {
        origin: at3(0, 0, height),
        u: Vector::from_components([num(1), num(0), num(0)]),
        v: Vector::from_components([num(0), num(1), num(0)]),
    }
}

#[test]
fn a_plane_maps_parameters_into_space() {
    let plane = Plane {
        origin: at3(1, 2, 3),
        u: Vector::from_components([num(1), num(1), num(0)]),
        v: Vector::from_components([num(0), num(0), num(2)]),
    };
    assert_eq!(plane.point_from_local(&at2(0, 0)), at3(1, 2, 3));
    assert_eq!(plane.point_from_local(&at2(3, -1)), at3(4, 5, 1));
    let boundary = Aabb { min: at2(0, 0), max: at2(1, 1) };
    let tolerance = Tolerance::from_scalar(num(1)).unwrap();
    assert!(plane.approximate(&boundary, &tolerance).is_empty());
}

#[test]
fn a_plane_without_samples_takes_two_triangles() {
    let surface = Surface { geometry: xy_plane(5) };
    let boundary = Aabb { min: at2(-1, -2), max: at2(3, 4) };
    let tolerance = Tolerance::from_scalar(Scalar::ratio(1, 1000).unwrap()).unwrap();
    let mesh = SurfaceMesh::from_surface(&surface, &boundary, tolerance);
    assert!(mesh.points.is_empty());
    assert_eq!(mesh.triangles.len(), 2);
    let corners = [at2(-1, -2), at2(-1, 4), at2(3, -2), at2(3, 4)];
    for corner in &corners {
        assert!(mesh
            .triangles
            .iter()
            .any(|t| t.points.iter().any(|p| &p.point_surface == corner)));
    }
    let mut area = Scalar::zero();
    for triangle in &mesh.triangles {
        let [a, b, c] = &triangle.points;
        for p in [a, b, c] {
            assert!(corners.contains(&p.point_surface));
            assert_eq!(
                p.point_vertex,
                Point::from_coords([p.point_surface.coordinate(0), p.point_surface.coordinate(1), num(5)])
            );
        }
        let u = b.point_surface.sub(&a.point_surface);
        let v = c.point_surface.sub(&a.point_surface);
        area = area.add(&u.component(0).mul(&v.component(1)).sub(&u.component(1).mul(&v.component(0))));
    }
    assert_eq!(area, num(48));
}

/// A surface that asks for samples on the diagonal of the rectangle.
struct Ramp;

impl SurfaceGeometry for Ramp {
    fn point_from_local(&self, point: &Point<2>) -> Point<3> {
        let u = point.coordinate(0);
        let v = point.coordinate(1);
        Point::from_coords([u.copy(), v.copy(), u.mul(&v)])
    }

    fn approximate(&self, boundary: &Aabb<2>, _: &Tolerance) -> Vec<Point<2>> {
        let half = Scalar::ratio(1, 2).unwrap();
        let mid = |i: usize| boundary.min.coordinate(i).add(&boundary.max.coordinate(i)).mul(&half);
        vec![Point::from_coords([mid(0), mid(1)])]
    }
}

#[test]
fn samples_are_kept_apart_from_the_corners() {
    let surface = Surface { geometry: Ramp };
    let boundary = Aabb { min: at2(0, 0), max: at2(2, 2) };
    let tolerance = Tolerance::from_scalar(num(1)).unwrap();
    let mesh = SurfaceMesh::from_surface(&surface, &boundary, tolerance);
    assert_eq!(mesh.points.len(), 1);
    assert_eq!(mesh.points[0].point_surface, at2(1, 1));
    assert_eq!(mesh.points[0].point_vertex, at3(1, 1, 1));
    assert_eq!(mesh.triangles.len(), 4);
    for triangle in &mesh.triangles {
        assert!(triangle.points.iter().any(|p| p.point_surface == at2(1, 1)));
    }
}

#[test]
fn a_mesh_of_given_points() {
    let surface = vec![sample(1, 1)];
    let boundary = [sample(0, 0), sample(0, 3), sample(3, 0), sample(3, 3)];
    let mesh = SurfaceMesh::from_points(surface, boundary);
    assert_eq!(mesh.points.len(), 1);
    assert_eq!(mesh.points[0].point_surface, at2(1, 1));
    assert_eq!(mesh.triangles.len(), 4);
}

#[test]
fn a_tolerance_is_greater_than_zero() {
    assert_eq!(Tolerance::from_scalar(num(0)).unwrap_err(), InvalidTolerance);
    assert_eq!(Tolerance::from_scalar(num(-1)).unwrap_err(), InvalidTolerance);
    let t = Tolerance::from_scalar(Scalar::ratio(1, 8).unwrap()).unwrap();
    assert_eq!(t.inner(), Scalar::ratio(1, 8).unwrap());
}

#[test]
fn the_corners_of_a_box() {
    let boundary = Aabb { min: at2(1, 2), max: at2(3, 4) };
    assert_eq!(boundary.corners(), [at2(1, 2), at2(1, 4), at2(3, 2), at2(3, 4)]);
}

#[test]
fn geometry_has_three_vertices_for_each_triangle() {
    let triangles = vec![
        Triangle::from_points([at3(0, 0, 0), at3(2, 1, 0), at3(2, 0, 0)]),
        Triangle::from_points([at3(0, 0, 0), at3(1, 0, 0), at3(0, 1, 0)]),
    ];
    let geometry = Geometry::new(&triangles).unwrap();
    assert_eq!(geometry.num_indices, 6);
    assert_eq!(geometry.indices, vec![0, 1, 2, 3, 4, 5]);
    assert_eq!(geometry.vertices.len(), 6);
    let down = Vector::from_components([num(0), num(0), num(-1)]);
    let up = Vector::from_components([num(0), num(0), num(1)]);
    for (i, vertex) in geometry.vertices.iter().enumerate() {
        assert_eq!(vertex.position, triangles[i / 3].points[i % 3]);
        assert_eq!(vertex.normal, if i < 3 { down.copy() } else { up.copy() });
    }
}

#[test]
fn geometry_of_nothing_is_empty() {
    let geometry = Geometry::new(&Vec::new()).unwrap();
    assert_eq!(geometry.num_indices, 0);
    assert!(geometry.indices.is_empty());
    assert!(geometry.vertices.is_empty());
}

#[test]
fn indices_are_counted_in_32_bits() {
    assert_eq!(index_count(0), Ok(0));
    assert_eq!(index_count(2), Ok(6));
    assert_eq!(index_count(1_431_655_765), Ok(u32::MAX));
    assert_eq!(
        index_count(1_431_655_766),
        Err(UnsupportedIndexCount { triangles: 1_431_655_766 })
    );
    assert_eq!(index_count(usize::MAX), Err(UnsupportedIndexCount { triangles: usize::MAX }));
}

/// The determinant that is positive where `d` lies inside the circle
/// through `a`, `b`, `c`, which turn counter-clockwise.
fn circle_test(a: &Point<2>, b: &Point<2>, c: &Point<2>, d: &Point<2>) -> Scalar {
    let row = |p: &Point<2>| {
        let x = p.coordinate(0).sub(&d.coordinate(0));
        let y = p.coordinate(1).sub(&d.coordinate(1));
        let q = x.mul(&x).add(&y.mul(&y));
        (x, y, q)
    };
    let (ax, ay, aq) = row(a);
    let (bx, by, bq) = row(b);
    let (cx, cy, cq) = row(c);
    let minor = |x1: &Scalar, y1: &Scalar, x2: &Scalar, y2: &Scalar| x1.mul(y2).sub(&y1.mul(x2));
    aq.mul(&minor(&bx, &by, &cx, &cy))
        .sub(&bq.mul(&minor(&ax, &ay, &cx, &cy)))
        .add(&cq.mul(&minor(&ax, &ay, &bx, &by)))
}

fn assert_delaunay(points: &[Point<2>], found: &[[usize; 3]]) {
    for t in found {
        for d in points {
            let inside = circle_test(&points[t[0]], &points[t[1]], &points[t[2]], d);
            assert!(inside.signum() <= 0, "a point lies inside the circle of {:?}", t);
        }
    }
}

#[test]
fn no_point_lies_inside_the_circle_of_a_triangle() {
    // The sweep alone joins (0, 0) to (10, 1); the other diagonal is right.
    let points = vec![at2(0, 0), at2(5, -4), at2(5, 4), at2(10, 1)];
    let found = triangulate(&points);
    assert_eq!(found.len(), 2);
    assert_delaunay(&points, &found);
    for t in &found {
        assert!(t.contains(&1) && t.contains(&2));
    }

    let points = vec![
        at2(0, 0),
        at2(7, 1),
        at2(3, 9),
        at2(-4, 5),
        at2(2, 3),
        at2(5, 5),
        at2(-1, 8),
        at2(6, -3),
        at2(1, -2),
        at2(-3, 1),
        at2(4, 2),
    ];
    let found = triangulate(&points);
    assert_delaunay(&points, &found);
    for i in 0..points.len() {
        assert!(found.iter().any(|t| t.contains(&i)));
    }
}

#[test]
fn geometry_of_a_degenerate_triangle_carries_the_cross_product() {
    let triangles = vec![Triangle::from_points([at3(0, 0, 0), at3(1, 1, 1), at3(2, 2, 2)])];
    let geometry = Geometry::new(&triangles).unwrap();
    assert_eq!(geometry.num_indices, 3);
    for vertex in &geometry.vertices {
        assert_eq!(vertex.normal, Vector::from_components([num(0), num(0), num(0)]));
    }
}

#[test]
fn points_on_a_circle_and_inside_it() {
    // Twelve points with whole coordinates on the circle of radius 25, and
    // points inside it.
    let rim = [
        (25, 0),
        (24, 7),
        (20, 15),
        (15, 20),
        (7, 24),
        (0, 25),
        (-7, 24),
        (-15, 20),
        (-20, 15),
        (-24, 7),
        (-25, 0),
        (0, -25),
    ];
    let inner = [(0, 0), (3, 4), (-6, 2), (10, -9), (-11, -5), (1, 13)];
    let mut points: Vec<Point<2>> = rim.iter().map(|(x, y)| at2(*x, *y)).collect();
    points.extend(inner.iter().map(|(x, y)| at2(*x, *y)));
    let found = triangulate(&points);
    // 2 n - 2 - h triangles, with n = 18 points of which h = 12 lie on the hull
    assert_eq!(found.len(), 22);
    assert_delaunay(&points, &found);
    for i in 0..points.len() {
        assert!(found.iter().any(|t| t.contains(&i)));
    }
    // the area of the hull, by the cross products along it
    let hull: Vec<&Point<2>> = vec![
        &points[11], &points[0], &points[1], &points[2], &points[3], &points[4], &points[5],
        &points[6], &points[7], &points[8], &points[9], &points[10],
    ];
    let mut area = Scalar::zero();
    for i in 0..hull.len() {
        let (a, b) = (hull[i], hull[(i + 1) % hull.len()]);
        area = area.add(
            &a.coordinate(0).mul(&b.coordinate(1)).sub(&a.coordinate(1).mul(&b.coordinate(0))),
        );
    }
    assert_eq!(doubled_area(&points, &found), area);
}

#[test]
fn samples_given_twice_are_kept_once() {
    let surface = vec![sample(1, 1), sample(2, 1), sample(1, 1), sample(1, 2), sample(2, 1)];
    let boundary = [sample(0, 0), sample(0, 3), sample(3, 0), sample(3, 3)];
    let mesh = SurfaceMesh::from_points(surface, boundary);
    let kept: Vec<&Point<2>> = mesh.points.iter().map(|p| &p.point_surface).collect();
    assert_eq!(kept, vec![&at2(1, 1), &at2(2, 1), &at2(1, 2)]);
}

#[test]
fn a_mesh_of_samples_lies_on_the_surface() {
    let plane = Plane {
        origin: at3(1, 2, 3),
        u: Vector::from_components([num(1), num(1), num(0)]),
        v: Vector::from_components([num(0), num(0), num(2)]),
    };
    let boundary = Aabb { min: at2(0, 0), max: at2(4, 4) };
    let samples = vec![at2(1, 1), at2(3, 2), at2(1, 1)];
    let mesh = SurfaceMesh::from_samples(samples, &plane, &boundary);
    assert_eq!(mesh.points.len(), 2);
    assert_eq!(mesh.points[0].point_surface, at2(1, 1));
    assert_eq!(mesh.points[0].point_vertex, at3(2, 3, 5));
    assert_eq!(mesh.points[1].point_surface, at2(3, 2));
    assert_eq!(mesh.points[1].point_vertex, at3(4, 5, 7));
    assert_eq!(mesh.triangles.len(), 6);
    for triangle in &mesh.triangles {
        for point in &triangle.points {
            assert_eq!(point.point_vertex, plane.point_from_local(&point.point_surface));
        }
    }
}
