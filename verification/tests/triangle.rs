use fj_math::{Point, Scalar, Triangle, Vector, Winding};

fn s(v: i64) -> Scalar {
    Scalar::from_i64(v)
}

fn q(n: i64, d: i64) -> Scalar {
    Scalar::ratio(n, d).unwrap()
}

fn flat(x: i64, y: i64) -> Point<2> {
    Point::from_coords([s(x), s(y)])
}

fn solid(x: i64, y: i64, z: i64) -> Point<3> {
    Point::from_coords([s(x), s(y), s(z)])
}

#[test]
fn valid_triangle_2d() {
    let a = flat(0, 0);
    let b = flat(1, 0);
    let c = flat(0, 1);

    assert!(Triangle::from_points([a, b, c]).is_valid());
}

#[test]
fn valid_triangle_3d() {
    let a = solid(0, 0, 0);
    let b = solid(0, 1, 0);
    let c = solid(1, 0, 0);

    assert!(Triangle::from_points([a, b, c]).is_valid());
}

#[test]
fn invalid_triangle_2d() {
    let a = flat(0, 0);
    let b = flat(1, 0);
    let c = flat(2, 0);

    assert!(!Triangle::from_points([a, b, c]).is_valid());
}

#[test]
fn invalid_triangle_3d() {
    let a = solid(0, 0, 0);
    let b = solid(1, 0, 0);
    let c = solid(2, 0, 0);

    assert!(!Triangle::from_points([a, b, c]).is_valid());
}

#[test]
fn coincident_points_are_invalid() {
    assert!(!Triangle::from_points([flat(3, 4), flat(3, 4), flat(3, 4)]).is_valid());
    assert!(!Triangle::from_points([flat(3, 4), flat(3, 4), flat(0, 1)]).is_valid());
    assert!(!Triangle::from_points([solid(1, 2, 3), solid(1, 2, 3), solid(1, 2, 3)]).is_valid());
}

#[test]
fn validity_is_decided_at_epsilon() {
    // The area spanned by the edges is the height here, the base being one.
    let at = |height: Scalar| {
        Triangle::from_points([flat(0, 0), flat(1, 0), Point::from_coords([s(0), height])])
    };
    let eps = Scalar::default_epsilon();
    assert_eq!(eps, q(1, 1 << 52));
    assert!(!at(q(1, 1 << 53)).is_valid());
    assert!(!at(q(1, 1 << 52)).is_valid());
    assert!(at(q(1, 1 << 51)).is_valid());
    // The winding is exact and does not know of epsilon.
    assert_eq!(at(q(1, 1 << 53)).winding(), Some(Winding::Ccw));
    assert_eq!(at(q(-1, 1 << 53)).winding(), Some(Winding::Cw));
}

#[test]
fn center_is_the_mean_of_the_points() {
    let t = Triangle::from_points([flat(0, 0), flat(1, 0), flat(0, 1)]);
    assert_eq!(t.center(), Point::from_coords([q(1, 3), q(1, 3)]));

    let t = Triangle::from_points([solid(1, 2, 3), solid(4, -5, 6), solid(-7, 8, 10)]);
    assert_eq!(t.center(), Point::from_coords([q(-2, 3), q(5, 3), q(19, 3)]));
}

#[test]
fn barycentric_coordinates_give_points() {
    let t = Triangle::from_points([flat(0, 0), flat(4, 0), flat(0, 8)]);
    assert_eq!(t.point_from_barycentric_coords([s(1), s(0), s(0)]), flat(0, 0));
    assert_eq!(t.point_from_barycentric_coords([s(0), s(1), s(0)]), flat(4, 0));
    assert_eq!(t.point_from_barycentric_coords([s(0), s(0), s(1)]), flat(0, 8));
    assert_eq!(t.point_from_barycentric_coords([q(1, 2), q(1, 4), q(1, 4)]), flat(1, 2));
    // Weights need not add up to one.
    assert_eq!(t.point_from_barycentric_coords([s(5), s(2), s(3)]), flat(8, 24));
}

#[test]
fn points_give_barycentric_coordinates() {
    let t = Triangle::from_points([flat(0, 0), flat(4, 0), flat(0, 8)]);
    assert_eq!(t.point_to_barycentric_coords(flat(1, 2)), [q(1, 2), q(1, 4), q(1, 4)]);
    assert_eq!(t.point_to_barycentric_coords(flat(0, 0)), [s(1), s(0), s(0)]);
    // A point outside the triangle has a negative weight.
    assert_eq!(t.point_to_barycentric_coords(flat(4, 8)), [s(-1), s(1), s(1)]);
}

#[test]
fn barycentric_coordinates_sum_to_one() {
    let t = Triangle::from_points([solid(1, 2, 3), solid(4, -5, 6), solid(-7, 8, 10)]);
    let [u, v, w] = t.point_to_barycentric_coords(solid(9, 9, 9));
    assert_eq!(u.add(&v).add(&w), s(1));
}

#[test]
fn barycentric_round_trip() {
    let triangles = [
        Triangle::from_points([solid(1, 2, 3), solid(4, -5, 6), solid(-7, 8, 10)]),
        Triangle::from_points([solid(0, 0, 0), solid(1, 0, 0), solid(0, 1, 0)]),
        Triangle::from_points([solid(5, 5, 5), solid(6, 5, 5), solid(5, 5, 9)]),
    ];
    let weights = [
        [q(1, 3), q(1, 3), q(1, 3)],
        [q(1, 2), q(1, 4), q(1, 4)],
        [q(-3, 7), q(9, 7), q(1, 7)],
        [s(0), s(0), s(1)],
    ];
    for t in &triangles {
        for w in &weights {
            let point = t.point_from_barycentric_coords(w.clone());
            assert_eq!(&t.point_to_barycentric_coords(point), w);
        }
    }
}

#[test]
fn barycentric_round_trip_in_the_plane() {
    let t = Triangle::from_points([flat(-1, -1), flat(7, 2), flat(3, 11)]);
    let w = [q(2, 9), q(4, 9), q(3, 9)];
    let point = t.point_from_barycentric_coords(w.clone());
    assert_eq!(t.point_to_barycentric_coords(point), w);
}

#[test]
fn winding_follows_the_order_of_the_points() {
    let ccw = Triangle::from_points([flat(0, 0), flat(1, 0), flat(0, 1)]);
    assert_eq!(ccw.winding(), Some(Winding::Ccw));

    let cw = Triangle::from_points([flat(0, 1), flat(1, 0), flat(0, 0)]);
    assert_eq!(cw.winding(), Some(Winding::Cw));

    let line = Triangle::from_points([flat(0, 0), flat(1, 0), flat(2, 0)]);
    assert_eq!(line.winding(), None);

    let point = Triangle::from_points([flat(1, 1), flat(1, 1), flat(1, 1)]);
    assert_eq!(point.winding(), None);
}

#[test]
fn winding_tells_its_direction() {
    assert!(Winding::Ccw.is_ccw());
    assert!(!Winding::Ccw.is_cw());
    assert!(Winding::Cw.is_cw());
    assert!(!Winding::Cw.is_ccw());
}

#[test]
fn normalize_orders_the_points() {
    let t = Triangle::from_points([flat(1, 5), flat(0, 7), flat(1, -2)]);
    let n = t.normalize();
    assert_eq!(n, Triangle::from_points([flat(0, 7), flat(1, -2), flat(1, 5)]));
}

#[test]
fn normalize_is_idempotent() {
    let t = Triangle::from_points([solid(2, 0, 0), solid(0, 0, 1), solid(0, 0, 0)]);
    let once = t.normalize();
    let twice = once.copy().normalize();
    assert_eq!(once, twice);
}

#[test]
fn normalize_ignores_the_order_of_the_points() {
    let a = || flat(3, 1);
    let b = || flat(-4, 1);
    let c = || flat(3, 0);
    let expected = Triangle::from_points([b(), c(), a()]);
    let orders = [
        [a(), b(), c()],
        [a(), c(), b()],
        [b(), a(), c()],
        [b(), c(), a()],
        [c(), a(), b()],
        [c(), b(), a()],
    ];
    for points in orders {
        assert_eq!(Triangle::from_points(points).normalize(), expected);
    }
}

#[test]
fn normalize_keeps_equal_points() {
    let t = Triangle::from_points([flat(1, 1), flat(0, 0), flat(1, 1)]);
    assert_eq!(t.normalize(), Triangle::from_points([flat(0, 0), flat(1, 1), flat(1, 1)]));
}

#[test]
fn normalize_may_change_the_winding() {
    let t = Triangle::from_points([flat(0, 1), flat(1, 0), flat(0, 0)]);
    assert_eq!(t.winding(), Some(Winding::Cw));
    assert_eq!(t.normalize().winding(), Some(Winding::Cw));
    let t = Triangle::from_points([flat(0, 0), flat(1, 0), flat(0, 1)]);
    assert_eq!(t.winding(), Some(Winding::Ccw));
    assert_eq!(t.normalize().winding(), Some(Winding::Cw));
}

#[test]
fn from_points_keeps_the_points() {
    let t = Triangle::from_points([flat(1, 2), flat(3, 4), flat(5, 6)]);
    assert_eq!(t.points[0], flat(1, 2));
    assert_eq!(t.points[1], flat(3, 4));
    assert_eq!(t.points[2], flat(5, 6));
}

#[test]
fn vectors_add_scale_and_multiply() {
    let u = Vector::from_components([s(1), s(2), s(3)]);
    let v = Vector::from_components([s(-4), s(5), q(1, 2)]);
    assert_eq!(u.add(&v), Vector::from_components([s(-3), s(7), q(7, 2)]));
    assert_eq!(u.sub(&v), Vector::from_components([s(5), s(-3), q(5, 2)]));
    assert_eq!(u.scale(&q(1, 2)), Vector::from_components([q(1, 2), s(1), q(3, 2)]));
    assert_eq!(u.divide(&s(2)), Vector::from_components([q(1, 2), s(1), q(3, 2)]));
    assert_eq!(u.dot(&v), q(15, 2));
    assert_eq!(u.cross(&v), Vector::from_components([s(-14), q(-25, 2), s(13)]));
    // |u|^2 |v|^2 - (u.v)^2 = |u x v|^2
    let c = u.cross(&v);
    assert_eq!(u.outer_squared(&v), c.dot(&c));
}

#[test]
fn points_are_ordered_by_their_coordinates_in_turn() {
    assert!(flat(0, 9).precedes(&flat(1, 0)));
    assert!(flat(1, 0).precedes(&flat(1, 1)));
    assert!(!flat(1, 1).precedes(&flat(1, 1)));
    assert!(!flat(1, 1).precedes(&flat(1, 0)));
    assert!(solid(1, 1, 1).precedes(&solid(1, 1, 2)));
    assert_eq!(flat(6, 2).sub(&flat(1, 5)), Vector::from_components([s(5), s(-3)]));
}

#[test]
fn normal() {
    let triangle = Triangle::from([solid(0, 0, 0), solid(2, 1, 0), solid(2, 0, 0)]);
    assert_eq!(triangle.normal(), Vector::from_components([s(0), s(0), s(-1)]));
}

#[test]
fn normal_follows_the_order_of_the_points() {
    let up = Triangle::from_points([solid(0, 0, 0), solid(1, 0, 0), solid(0, 1, 0)]);
    assert_eq!(up.normal(), Vector::from_components([s(0), s(0), s(1)]));
    let down = Triangle::from_points([solid(0, 1, 0), solid(1, 0, 0), solid(0, 0, 0)]);
    assert_eq!(down.normal(), Vector::from_components([s(0), s(0), s(-1)]));
    let side = Triangle::from_points([solid(5, 0, 0), solid(5, 3, 0), solid(5, 0, 4)]);
    assert_eq!(side.normal(), Vector::from_components([s(1), s(0), s(0)]));
    let slanted = Triangle::from_points([solid(0, 0, 0), solid(4, 0, 3), solid(0, 1, 0)]);
    assert_eq!(slanted.normal(), Vector::from_components([q(-3, 5), s(0), q(4, 5)]));
}

#[test]
fn normal_has_length_one_to_within_epsilon() {
    // The cross product of the edges is (1, 1, 1), of length sqrt(3).
    let t = Triangle::from_points([solid(1, 0, 0), solid(0, 1, 0), solid(0, 0, 1)]);
    let n = t.normal();
    assert_eq!(n.component(0), n.component(1));
    assert_eq!(n.component(1), n.component(2));
    assert_eq!(n.component(0).signum(), 1);
    let length_squared = n.dot(&n);
    assert!(s(1).le(&length_squared));
    assert!(length_squared.lt(&s(1).add(&q(1, 1 << 50))));
    // The length of the cross product was rounded down to a multiple of epsilon.
    let length = s(1).div(&n.component(0));
    assert_eq!(length, s(3).root());
    assert!(length.mul(&length).le(&s(3)));
    let next = length.add(&Scalar::default_epsilon());
    assert!(s(3).lt(&next.mul(&next)));
}

#[test]
fn roots_are_rounded_down_by_less_than_epsilon() {
    assert_eq!(s(0).root(), s(0));
    assert_eq!(s(4).root(), s(2));
    assert_eq!(q(9, 16).root(), q(3, 4));
    assert_eq!(s(1 << 40).root(), s(1 << 20));
    // The step is a part of the root: a small root is as exact as a large one.
    assert_eq!(q(1, 1 << 60).mul(&q(1, 1 << 60)).root(), q(1, 1 << 60));
    let r = s(2).root();
    assert_eq!(r, q(12738103345051545, 1 << 53));
    assert!(r.mul(&r).le(&s(2)));
    let above = r.add(&r.mul(&Scalar::default_epsilon()));
    assert!(s(2).lt(&above.mul(&above)));
    // The step is a part of the root, not a fixed size.
    let tiny = q(2, 1 << 60).mul(&q(1, 1 << 60));
    let r = tiny.root();
    assert!(r.signum() > 0);
    assert!(r.mul(&r).le(&tiny));
    let above = r.add(&r.mul(&Scalar::default_epsilon()));
    assert!(tiny.lt(&above.mul(&above)));
}

#[test]
fn normal_of_a_thin_triangle_has_length_one() {
    // The cross product of the edges has the length 3 / 2^53.
    let t = Triangle::from_points([
        solid(0, 0, 0),
        Point::from_coords([q(3, 1 << 53), s(0), s(0)]),
        solid(0, 1, 0),
    ]);
    assert!(t.is_valid());
    assert_eq!(t.normal(), Vector::from_components([s(0), s(0), s(1)]));

    // The cross product of the edges is (h, h, h) with h = 2^-50.
    let h = || q(1, 1 << 50);
    let t = Triangle::from_points([
        Point::from_coords([h(), s(0), s(0)]),
        Point::from_coords([s(0), s(1), s(0)]),
        Point::from_coords([s(0), s(0), h()]),
    ]);
    assert!(t.is_valid());
    let n = t.normal();
    let length_squared = n.dot(&n);
    assert!(s(1).le(&length_squared));
    assert!(length_squared.lt(&s(1).add(&q(1, 1 << 50))));
    let u = t.points[1].sub(&t.points[0]);
    let v = t.points[2].sub(&t.points[0]);
    assert_eq!(n.dot(&u), s(0));
    assert_eq!(n.dot(&v), s(0));
    assert_eq!(n.dot(&u.cross(&v)).signum(), 1);
}

#[test]
fn points_compare_with_operators() {
    assert!(flat(0, 9) < flat(1, 0));
    assert!(flat(1, 1) > flat(1, 0));
    assert!(flat(1, 1) <= flat(1, 1));
    assert!(solid(1, 2, 3) < solid(1, 2, 4));
    assert_eq!(flat(2, 2).partial_cmp(&flat(2, 2)), Some(std::cmp::Ordering::Equal));
    let mut points = vec![flat(3, 1), flat(-4, 1), flat(3, 0)];
    points.sort_by(|a, b| a.partial_cmp(b).unwrap());
    assert_eq!(points, vec![flat(-4, 1), flat(3, 0), flat(3, 1)]);
}

#[test]
fn barycentric_coordinates_tell_the_side_of_each_edge() {
    let t = Triangle::from_points([flat(0, 0), flat(4, 0), flat(0, 4)]);
    let signs = |x: i64, y: i64| {
        let [u, v, w] = t.point_to_barycentric_coords(flat(x, y));
        [u.signum(), v.signum(), w.signum()]
    };
    assert_eq!(signs(1, 1), [1, 1, 1]);
    assert_eq!(signs(2, 2), [0, 1, 1]);
    assert_eq!(signs(3, 3), [-1, 1, 1]);
    assert_eq!(signs(-1, 2), [1, -1, 1]);
    assert_eq!(signs(2, -1), [1, 1, -1]);
    assert_eq!(signs(0, 0), [1, 0, 0]);
    assert_eq!(signs(5, -5), [1, 1, -1]);
    // each weight is the area over the opposite edge, as a part of the whole
    let [u, v, w] = t.point_to_barycentric_coords(flat(1, 2));
    assert_eq!([u, v, w], [q(1, 4), q(1, 4), q(1, 2)]);
}
