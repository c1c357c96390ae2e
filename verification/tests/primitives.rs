use std::cmp::Ordering;
use std::collections::HashSet;

use geomutil::wide::{mul_wide, product_le};
use geomutil::{
    points_max, points_min, BoundingBox, Edge, Point, RationalPoint, Ratio, Shape2D, Triangle,
};

#[test]
fn test_xy_fields() {
    let p = Point::new(1, 2);
    assert_eq!(p.x, 1);
    assert_eq!(p.y, 2);
}

#[test]
fn test_point2d_new() {
    let p = Point::new(1, 2);
    assert_eq!(p.x, 1);
    assert_eq!(p.y, 2);
}

#[test]
fn test_unique() {
    let points = vec![
        Point::new(1, 2),
        Point::new(3, 2),
        Point::new(1, 2),
        Point::new(4, 5),
    ];
    let unique = Point::unique(&points);
    assert_eq!(unique.len(), 3);
    assert!(unique.contains(&Point::new(1, 2)));
    assert!(unique.contains(&Point::new(3, 2)));
    assert!(unique.contains(&Point::new(4, 5)));
}

#[test]
fn test_points_unique() {
    let points = vec![
        Point::new(1, 1),
        Point::new(2, 2),
        Point::new(1, 1),
        Point::new(3, 3),
    ];
    let unique_points = Point::unique(&points);
    assert_eq!(unique_points.len(), 3);
    assert!(unique_points.contains(&Point::new(1, 1)));
    assert!(unique_points.contains(&Point::new(2, 2)));
    assert!(unique_points.contains(&Point::new(3, 3)));
}

#[test]
fn unique_sorts_by_x_then_y() {
    let points = vec![
        Point::new(2, -1),
        Point::new(1, 5),
        Point::new(2, -3),
        Point::new(1, 5),
        Point::new(-7, 0),
        Point::new(1, 4),
        Point::new(2, -1),
    ];
    assert_eq!(
        Point::unique(&points),
        vec![
            Point::new(-7, 0),
            Point::new(1, 4),
            Point::new(1, 5),
            Point::new(2, -3),
            Point::new(2, -1),
        ]
    );
    assert!(Point::unique(&Vec::new()).is_empty());
}

#[test]
fn test_point2d_distance_squared() {
    let p1 = Point::new(0, 0);
    let p2 = Point::new(3, 4);
    assert_eq!(p1.distance_squared(p2), 25);
}

#[test]
fn squared_lengths_and_products() {
    assert_eq!(Point::new(3, 4).length_squared(), 25);
    assert_eq!(Point::new(-3, -4).length_squared(), 25);
    assert_eq!(Point::zero().length_squared(), 0);
    assert_eq!(Point::one(), Point::new(1, 1));
    assert_eq!(Point::new(2, 7).dot(Point::new(8, 2)), 30);
    assert_eq!(Point::new(1, 2).distance_squared(Point::new(4, 6)), 25);
    let far = Point::new(524288, -524288);
    assert_eq!(far.length_squared(), 549755813888);
    assert_eq!(far.distance_squared(Point::new(-524288, 524288)), 2199023255552);
}

#[test]
fn min_and_max_follow_the_order_on_points() {
    let a = Point::new(1, 5);
    let b = Point::new(1, 6);
    let c = Point::new(0, 9);
    assert!(a.lt(b));
    assert!(!b.lt(a));
    assert!(!a.lt(a));
    assert!(c.lt(a));
    assert_eq!(a.min(b), a);
    assert_eq!(b.min(a), a);
    assert_eq!(a.max(b), b);
    assert_eq!(b.max(a), b);
    assert_eq!(a.min(c), c);
    assert_eq!(a.max(c), a);
    assert_eq!(a.max(a), a);
}

#[test]
fn canonical_edge_does_not_depend_on_direction() {
    let a = Point::new(3, 1);
    let b = Point::new(2, 8);
    let e = Edge::new(a, b);
    assert_eq!(e.a, a);
    assert_eq!(e.b, b);
    assert_eq!(e.flip(), Edge::new(b, a));
    assert_eq!(e.canonical(), Edge::new(b, a));
    assert_eq!(e.flip().canonical(), Edge::new(b, a));
    assert_eq!(e.canonical().canonical(), e.canonical());
    assert_eq!(e.length_squared(), 50);
    let loop_edge = Edge::new(a, a);
    assert_eq!(loop_edge.canonical(), loop_edge);
}

#[test]
fn collinear_points_make_no_triangle() {
    assert!(Triangle::new(Point::new(0, 0), Point::new(1, 1), Point::new(2, 2)).is_none());
    assert!(Triangle::new(Point::new(0, 0), Point::new(0, 0), Point::new(2, 5)).is_none());
    assert!(Triangle::new(Point::new(4, 4), Point::new(4, 4), Point::new(4, 4)).is_none());
    assert!(Triangle::new(Point::new(-5, 1), Point::new(0, 1), Point::new(7, 1)).is_none());
    assert!(Triangle::new(Point::new(0, 0), Point::new(1, 1), Point::new(2, 3)).is_some());
}

#[test]
fn circumcircle_of_a_right_triangle() {
    let t = Triangle::new(Point::new(0, 0), Point::new(4, 0), Point::new(0, 2)).unwrap();
    // d = 2 * (0 * (0 - 2) + 4 * (2 - 0) + 0 * (0 - 0)) = 16
    // ux = 0 + 16 * 2 + 4 * 0 = 32, uy = 0 + 16 * 0 + 4 * 4 = 16
    assert_eq!(
        t.circumcenter(),
        RationalPoint { x_num: 32, y_num: 16, den: 16 }
    );
    // center (2, 1), squared radius 5, scaled by 16^2
    assert_eq!(
        t.circumcircle_radius_squared(),
        Ratio { num: 5 * 256, den: 256 }
    );
    assert_eq!(t.a, Point::new(0, 0));
    assert_eq!(t.b, Point::new(4, 0));
    assert_eq!(t.c, Point::new(0, 2));
}

#[test]
fn circumcircle_does_not_depend_on_orientation() {
    let t = Triangle::new(Point::new(0, 0), Point::new(0, 2), Point::new(4, 0)).unwrap();
    assert_eq!(
        t.circumcenter(),
        RationalPoint { x_num: -32, y_num: -16, den: -16 }
    );
    assert_eq!(
        t.circumcircle_radius_squared(),
        Ratio { num: 5 * 256, den: 256 }
    );
}

#[test]
fn points_on_the_circumcircle_count_as_inside() {
    let t = Triangle::new(Point::new(0, 0), Point::new(4, 0), Point::new(0, 2)).unwrap();
    // On the circle: the three vertices and the fourth corner.
    assert!(t.is_inside_circumcircle(Point::new(0, 0)));
    assert!(t.is_inside_circumcircle(Point::new(4, 0)));
    assert!(t.is_inside_circumcircle(Point::new(0, 2)));
    assert!(t.is_inside_circumcircle(Point::new(4, 2)));
    assert!(t.is_inside_circumcircle(Point::new(3, 3)));
    // Inside.
    assert!(t.is_inside_circumcircle(Point::new(2, 1)));
    assert!(t.is_inside_circumcircle(Point::new(1, 3)));
    // Outside.
    assert!(!t.is_inside_circumcircle(Point::new(5, 1)));
    assert!(!t.is_inside_circumcircle(Point::new(4, 3)));
    assert!(!t.is_inside_circumcircle(Point::new(-1, 1)));
    assert!(!t.is_inside_circumcircle(Point::new(2, 4)));
    let back = Triangle::new(Point::new(0, 2), Point::new(4, 0), Point::new(0, 0)).unwrap();
    assert!(back.is_inside_circumcircle(Point::new(4, 2)));
    assert!(!back.is_inside_circumcircle(Point::new(4, 3)));
}

#[test]
fn triangle_at_the_limit_of_the_range() {
    let m = geomutil::COORD_LIMIT;
    let t = Triangle::new(Point::new(-m, -m), Point::new(m, -m), Point::new(-m, m)).unwrap();
    let u = t.circumcenter();
    assert_eq!(u.x_num, 0);
    assert_eq!(u.y_num, 0);
    assert_eq!(u.den, 8 * (m as i128) * (m as i128));
    assert!(t.is_inside_circumcircle(Point::new(m, m)));
    assert!(t.is_inside_circumcircle(Point::new(0, 0)));
    let r = t.circumcircle_radius_squared();
    assert_eq!(r.num, 2 * (m as i128) * (m as i128) * r.den);
}

#[test]
fn sides_and_vertices_of_a_triangle() {
    let a = Point::new(0, 0);
    let b = Point::new(4, 0);
    let c = Point::new(0, 2);
    let t = Triangle::new(a, b, c).unwrap();
    assert_eq!(t.edges(), [Edge::new(a, b), Edge::new(b, c), Edge::new(c, a)]);
    assert!(t.has_point(&a));
    assert!(t.has_point(&b));
    assert!(t.has_point(&c));
    assert!(!t.has_point(&Point::new(4, 2)));
    assert!(!t.has_point(&Point::new(0, 4)));
}

#[test]
fn bounding_box_of_six_points() {
    let points = vec![
        Point::new(1, 5),
        Point::new(4, 2),
        Point::new(2, 8),
        Point::new(0, 0),
        Point::new(6, 1),
        Point::new(3, 9),
    ];
    let bbox = Point::bounding_box(&points);
    assert!(bbox.is_some());
    let bbox = bbox.unwrap();
    assert_eq!(bbox.lower, Point::new(0, 0));
    assert_eq!(bbox.upper, Point::new(6, 9));
}

#[test]
fn bounding_box_of_nothing_and_of_one_point() {
    assert!(Point::bounding_box(&Vec::new()).is_none());
    let p = Point::new(-3, 7);
    assert_eq!(
        Point::bounding_box(&vec![p]),
        Some(BoundingBox { lower: p, upper: p })
    );
}

#[test]
fn bounding_box_measures() {
    let bbox = BoundingBox::new(Point::new(4, -1), Point::new(1, 6));
    assert_eq!(bbox.lower, Point::new(1, -1));
    assert_eq!(bbox.upper, Point::new(4, 6));
    assert_eq!(bbox.dimensions(), Point::new(3, 7));
    assert_eq!(bbox.center(), Point::new(2, 2));
    assert_eq!(bbox.volume(), 21);
    assert_eq!(BoundingBox::from((Point::new(4, -1), Point::new(1, 6))), bbox);
    assert_eq!(BoundingBox::from((Point::new(1, 6), Point::new(4, -1))), bbox);
    assert!(bbox.contains(Point::new(1, -1)));
    assert!(bbox.contains(Point::new(4, 6)));
    assert!(bbox.contains(Point::new(2, 0)));
    assert!(!bbox.contains(Point::new(0, 0)));
    assert!(!bbox.contains(Point::new(2, 7)));
    assert!(!bbox.contains(Point::new(5, 0)));
    assert!(!bbox.contains(Point::new(2, -2)));
}

#[test]
fn wide_products_are_exact() {
    assert_eq!(mul_wide(0, 0), (0, 0));
    assert_eq!(mul_wide(7, 6), (0, 42));
    assert_eq!(mul_wide(1 << 64, 3), (0, 3 << 64));
    assert_eq!(mul_wide(1 << 64, 1 << 64), (1, 0));
    assert_eq!(mul_wide(1 << 127, 2), (1, 0));
    assert_eq!(mul_wide(1 << 127, 6), (3, 0));
    assert_eq!(mul_wide(u128::MAX, 1), (0, u128::MAX));
    assert_eq!(mul_wide(u128::MAX, 2), (1, u128::MAX - 1));
    // (2^128 - 1)^2 = (2^128 - 2) * 2^128 + 1
    assert_eq!(mul_wide(u128::MAX, u128::MAX), (u128::MAX - 1, 1));
    // (2^64 + 5) * (2^127 + 2^63) = 2^191 + 2^127 + 5 * 2^127 + 5 * 2^63
    assert_eq!(
        mul_wide((1 << 64) + 5, (1 << 127) + (1 << 63)),
        ((1 << 63) + 3, 5 << 63)
    );
    // Carries out of the middle limbs: (2^64 - 1) * 2^64 + (2^64 - 1), squared.
    assert_eq!(
        mul_wide(u64::MAX as u128 * ((1 << 64) + 1), 1 << 64),
        (u64::MAX as u128, (u64::MAX as u128) << 64)
    );
}

#[test]
fn wide_products_are_compared_exactly() {
    assert!(product_le(1 << 100, 1 << 40, 1 << 101, 1 << 39));
    assert!(product_le(u128::MAX, 2, u128::MAX, 2));
    assert!(!product_le(u128::MAX, 3, u128::MAX, 2));
    assert!(product_le(u128::MAX - 1, u128::MAX, u128::MAX, u128::MAX));
    assert!(!product_le(u128::MAX, u128::MAX, u128::MAX - 1, u128::MAX));
    assert!(product_le(u128::MAX, u128::MAX - 1, u128::MAX - 1, u128::MAX));
    assert!(product_le(0, u128::MAX, 0, 0));
    assert!(!product_le(1, 1, u128::MAX, 0));
    // Equal high halves, different low halves.
    assert!(product_le(1 << 127, 2, (1 << 127) + 1, 2));
    assert!(!product_le((1 << 127) + 1, 2, 1 << 127, 2));
    // 3 * 2^127 against 2^128 + 2^126: the high halves decide.
    assert!(!product_le(1 << 127, 3, (1 << 126) + (1 << 124), 4));
}

#[test]
fn test_default() {
    let a = Point::default();
    assert_eq!([a.x, a.y], [0, 0]);
}

#[test]
fn test_point2d_default() {
    let p = Point::default();
    assert_eq!(p.x, 0);
    assert_eq!(p.y, 0);
}

#[test]
fn test_point2d_hash_eq() {
    let p1 = Point::new(1, 2);
    let p2 = Point::new(1, 2);
    let p3 = Point::new(3, 4);

    let mut set = HashSet::new();
    set.insert(p1);
    assert!(set.contains(&p2));
    assert!(!set.contains(&p3));
    assert_eq!(set.len(), 1);

    set.insert(p3);
    assert_eq!(set.len(), 2);
}

#[test]
fn test_point2d_ord() {
    let p1 = Point::new(1, 2);
    let p2 = Point::new(1, 3);
    let p3 = Point::new(2, 1);
    let p4 = Point::new(1, 2);

    assert!(p1 < p2);
    assert!(p1 < p3);
    assert!(p2 > p1);
    assert!(p3 > p1);
    assert_eq!(p1, p4);
    assert!(p1 <= p4);
    assert!(p1 >= p4);
}

#[test]
fn total_cmp_orders_by_x_then_y() {
    let p = Point::new(1, 2);
    assert_eq!(p.total_cmp(&Point::new(1, 3)), Ordering::Less);
    assert_eq!(p.total_cmp(&Point::new(2, 1)), Ordering::Less);
    assert_eq!(p.total_cmp(&Point::new(1, 2)), Ordering::Equal);
    assert_eq!(p.total_cmp(&Point::new(1, 1)), Ordering::Greater);
    assert_eq!(p.total_cmp(&Point::new(0, 9)), Ordering::Greater);
    assert_eq!(p.partial_cmp(&Point::new(0, 9)), Some(Ordering::Greater));
}

#[test]
fn test_points_min_non_empty() {
    let points = vec![
        Point::new(5, 5),
        Point::new(1, 10),
        Point::new(1, 5),
        Point::new(10, 1),
    ];
    let min_point = points_min(&points);
    assert_eq!(min_point, Some(Point::new(1, 5)));
}

#[test]
fn test_points_min_empty() {
    let points: Vec<Point> = Vec::new();
    let min_point = points_min(&points);
    assert!(min_point.is_none(),);
}

#[test]
fn test_points_max_non_empty() {
    let points = vec![
        Point::new(5, 5),
        Point::new(1, 10),
        Point::new(10, 1),
        Point::new(9, 100),
    ];
    let max_point = points_max(&points);
    assert_eq!(max_point, Some(Point::new(10, 1)));
}

#[test]
fn test_points_max_empty() {
    let points: Vec<Point> = Vec::new();
    let max_point = points_max(&points);
    assert!(max_point.is_none(),);
}

#[test]
fn point_from_its_coordinates() {
    assert_eq!(Point::from([1, 2]), Point::new(1, 2));
    assert_eq!(Point::from([-7, 0]), Point::new(-7, 0));
    let p: Point = [3, -4].into();
    assert_eq!(p.x, 3);
    assert_eq!(p.y, -4);
}

fn scaled_distance_squared(t: &Triangle, p: Point) -> i128 {
    let u = t.circumcenter();
    let dx = u.x_num - (p.x as i128) * u.den;
    let dy = u.y_num - (p.y as i128) * u.den;
    dx * dx + dy * dy
}

#[test]
fn circumcenter_is_equally_far_from_the_vertices() {
    let triangles = [
        [(0, 0), (4, 0), (0, 2)],
        [(1, 7), (-3, 2), (10, 8)],
        [(0, 0), (1, 1), (3, 2)],
        [(524288, -524288), (-524288, 524287), (-524288, 524288)],
        [(5, 5), (6, 5), (5, 6)],
    ];
    for [a, b, c] in triangles {
        let t = Triangle::new(Point::new(a.0, a.1), Point::new(b.0, b.1), Point::new(c.0, c.1))
            .unwrap();
        let r = t.circumcircle_radius_squared();
        assert_eq!(scaled_distance_squared(&t, t.a), r.num);
        assert_eq!(scaled_distance_squared(&t, t.b), r.num);
        assert_eq!(scaled_distance_squared(&t, t.c), r.num);
        assert_eq!(r.den, t.circumcenter().den * t.circumcenter().den);
    }
}

#[test]
fn area_of_a_triangle() {
    let t = Triangle::new(Point::new(0, 0), Point::new(4, 0), Point::new(0, 2)).unwrap();
    assert_eq!(t.area(), Ratio { num: 16, den: 4 });
    let back = Triangle::new(Point::new(0, 2), Point::new(4, 0), Point::new(0, 0)).unwrap();
    assert_eq!(back.area(), Ratio { num: 16, den: 4 });
    let thin = Triangle::new(Point::new(0, 0), Point::new(1, 1), Point::new(3, 2)).unwrap();
    assert_eq!(thin.area(), Ratio { num: 2, den: 4 });
    // Heron's formula on the side lengths 3, 4 and 5 gives 6.
    let t = Triangle::new(Point::new(1, 1), Point::new(4, 1), Point::new(4, 5)).unwrap();
    let (a, b, c) = (3.0_f64, 4.0_f64, 5.0_f64);
    let s = 0.5 * (a + b + c);
    let heron = (s * (s - a) * (s - b) * (s - c)).sqrt();
    let area = t.area();
    assert_eq!(area.num as f64 / area.den as f64, heron);
    assert_eq!(area, Ratio { num: 24, den: 4 });
}

#[test]
fn area_of_a_shape_is_the_sum_of_its_triangles() {
    let a = Triangle::new(Point::new(0, 0), Point::new(4, 0), Point::new(0, 2)).unwrap();
    let b = Triangle::new(Point::new(4, 2), Point::new(4, 0), Point::new(0, 2)).unwrap();
    let c = Triangle::new(Point::new(0, 0), Point::new(1, 1), Point::new(3, 2)).unwrap();
    assert_eq!(Shape2D::new(Vec::new()).area(), Ratio { num: 0, den: 4 });
    assert_eq!(Shape2D::new(vec![a]).area(), Ratio { num: 16, den: 4 });
    assert_eq!(Shape2D::new(vec![a, b]).area(), Ratio { num: 32, den: 4 });
    assert_eq!(Shape2D::new(vec![a, b, c]).area(), Ratio { num: 34, den: 4 });
    let shape = Shape2D::new(vec![a, b]);
    assert_eq!(shape.triangles, vec![a, b]);
}
