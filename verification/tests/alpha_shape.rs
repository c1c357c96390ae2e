use geomutil::{alpha_shape_2d, triangulate, Alpha, AlphaShape2D, Point, Triangle};

#[test]
fn test_single_square() {
    let points = vec![
        Point::new(0, 0),
        Point::new(1, 0),
        Point::new(1, 1),
        Point::new(0, 1),
    ];
    let shapes = alpha_shape_2d(&points, Alpha::new(5, 4));
    assert!(shapes.is_some());
    let shapes = shapes.unwrap();
    assert_eq!(shapes.len(), 1);
    assert_eq!(shapes[0].triangles.len(), 2);
}

fn two_squares() -> Vec<Point> {
    vec![
        Point::new(0, 0),
        Point::new(1, 0),
        Point::new(1, 1),
        Point::new(0, 1),
        Point::new(3, 0),
        Point::new(4, 0),
        Point::new(4, 1),
        Point::new(3, 1),
    ]
}

#[test]
fn test_two_disconnected_squares() {
    let points = two_squares();
    let shapes = alpha_shape_2d(&points, Alpha::new(5, 4));
    assert!(shapes.is_some());
    let shapes = shapes.unwrap();
    assert_eq!(shapes.len(), 2);
    assert_eq!(shapes[0].triangles.len(), 2);
    assert_eq!(shapes[1].triangles.len(), 2);
}

#[test]
fn test_two_disconnected_rectangles() {
    // Triangles inside a square have a squared circumradius of 1/2, the
    // triangles that bridge the gap one of 5/4. With alpha = 1 the
    // threshold is 1: the former stay, the latter go.
    let points = two_squares();
    let alpha = Alpha::new(1, 1);

    let result = alpha_shape_2d(&points, alpha);

    assert!(
        result.is_some(),
        "alpha_shape_2d should return Some for valid input."
    );
    let shapes = result.unwrap();
    assert_eq!(shapes.len(), 2, "Expected 2 disconnected shapes.");
    for shape in &shapes {
        assert_eq!(shape.triangles.len(), 2);
    }
    let left: Vec<i64> = shapes[0].triangles.iter().map(|t| t.a.x.max(t.b.x).max(t.c.x)).collect();
    let right: Vec<i64> = shapes[1].triangles.iter().map(|t| t.a.x.min(t.b.x).min(t.c.x)).collect();
    assert!(left.iter().all(|&x| x <= 1));
    assert!(right.iter().all(|&x| x >= 3));
}

#[test]
fn small_alpha_keeps_every_triangle_in_one_shape() {
    let points = two_squares();
    let all = triangulate(&points).unwrap().triangles;
    assert_eq!(all.len(), 6);
    let shapes = alpha_shape_2d(&points, Alpha::new(1, 1000)).unwrap();
    assert_eq!(shapes.len(), 1);
    assert_eq!(shapes[0].triangles.len(), 6);
}

#[test]
fn large_alpha_keeps_no_triangle() {
    let points = two_squares();
    let shapes = alpha_shape_2d(&points, Alpha::new(1000, 1)).unwrap();
    assert!(shapes.is_empty());
}

#[test]
fn the_threshold_itself_is_kept() {
    let points = two_squares();
    // The bridging triangles have a squared circumradius of exactly 5/4,
    // which is (1 / alpha)^2 for alpha^2 = 4/5. With alpha = 2/3 the
    // threshold is 9/4 and they stay; with alpha = 8/9 it is 81/64 and they
    // stay; with alpha = 9/10 it is 100/81 and they go.
    assert_eq!(alpha_shape_2d(&points, Alpha::new(2, 3)).unwrap().len(), 1);
    assert_eq!(alpha_shape_2d(&points, Alpha::new(8, 9)).unwrap().len(), 1);
    assert_eq!(alpha_shape_2d(&points, Alpha::new(9, 10)).unwrap().len(), 2);
    // Inside a square the squared circumradius is exactly 1/2 = (1 / alpha)^2
    // for no fraction alpha; just above and just below:
    assert_eq!(alpha_shape_2d(&points, Alpha::new(141, 100)).unwrap().len(), 2);
    assert_eq!(alpha_shape_2d(&points, Alpha::new(142, 100)).unwrap().len(), 0);
}

#[test]
fn count_of_triangles_grows_as_alpha_shrinks() {
    let points = two_squares();
    let mut last = 0;
    for alpha in [
        Alpha::new(3, 1),
        Alpha::new(142, 100),
        Alpha::new(141, 100),
        Alpha::new(1, 1),
        Alpha::new(9, 10),
        Alpha::new(8, 9),
        Alpha::new(1, 2),
        Alpha::new(1, 50),
    ] {
        let shapes = alpha_shape_2d(&points, alpha).unwrap();
        let count: usize = shapes.iter().map(|s| s.triangles.len()).sum();
        assert!(count >= last);
        last = count;
    }
    assert_eq!(last, 6);
}

#[test]
fn slivers_are_kept_for_the_smallest_alpha() {
    // A triangle of area one and sides of about 65536, 65535 and 131071: its
    // squared circumradius is about 8 * 10^28.
    let sliver = Triangle::new(Point::new(0, 0), Point::new(65536, 1), Point::new(-65535, -1))
        .unwrap();
    let kept = |alpha: Alpha| {
        let mut shape = AlphaShape2D::new(vec![sliver], alpha);
        shape.prune();
        shape.triangles.len()
    };
    assert_eq!(kept(Alpha::new(1, 1 << 31)), 0);
    assert_eq!(kept(Alpha::new(1, 1 << 47)), 0);
    assert_eq!(kept(Alpha::new(1, 1 << 48)), 1);
    assert_eq!(kept(Alpha::new(1, 1 << 62)), 1);
    assert_eq!(kept(Alpha::new(1, i64::MAX)), 1);
    assert_eq!(kept(Alpha::new(i64::MAX, i64::MAX)), 0);
    assert_eq!(kept(Alpha::new(i64::MAX, 1)), 0);
    // At the limit of the range.
    let m = geomutil::COORD_LIMIT;
    let widest = Triangle::new(Point::new(-m, -m), Point::new(m, m - 1), Point::new(m, m)).unwrap();
    let mut shape = AlphaShape2D::new(vec![widest], Alpha::new(1, 1 << 62));
    shape.prune();
    assert_eq!(shape.triangles, vec![widest]);
    let mut shape = AlphaShape2D::new(vec![widest], Alpha::new(i64::MAX, 1 << 62));
    shape.prune();
    assert!(shape.triangles.is_empty());
}

#[test]
fn alpha_that_is_not_positive_is_rejected() {
    let points = two_squares();
    assert!(alpha_shape_2d(&points, Alpha::new(0, 1)).is_none());
    assert!(alpha_shape_2d(&points, Alpha::new(-1, 1)).is_none());
    assert!(alpha_shape_2d(&points, Alpha::new(1, 0)).is_none());
    assert!(alpha_shape_2d(&points, Alpha::new(1, -1)).is_none());
    assert!(alpha_shape_2d(&points, Alpha::new(-1, -1)).is_none());
}

#[test]
fn too_few_points_have_no_alpha_shape() {
    let points = vec![Point::new(0, 0), Point::new(1, 0), Point::new(1, 0)];
    assert!(alpha_shape_2d(&points, Alpha::new(1, 1)).is_none());
}

#[test]
fn repeated_points_do_not_change_the_shapes() {
    let points = two_squares();
    let expected = alpha_shape_2d(&points, Alpha::new(1, 1)).unwrap();
    let mut doubled = points.clone();
    doubled.extend_from_slice(&points);
    doubled.reverse();
    let got = alpha_shape_2d(&doubled, Alpha::new(1, 1)).unwrap();
    assert_eq!(got, expected);
}

fn strip() -> Vec<Triangle> {
    // Five triangles: 0, 2 and 4 form a strip, 1 and 3 stand apart from it
    // and from each other.
    vec![
        Triangle::new(Point::new(0, 0), Point::new(1, 0), Point::new(0, 1)).unwrap(),
        Triangle::new(Point::new(10, 10), Point::new(11, 10), Point::new(10, 11)).unwrap(),
        Triangle::new(Point::new(1, 1), Point::new(1, 0), Point::new(0, 1)).unwrap(),
        Triangle::new(Point::new(20, 20), Point::new(21, 20), Point::new(20, 21)).unwrap(),
        Triangle::new(Point::new(1, 1), Point::new(2, 1), Point::new(1, 0)).unwrap(),
    ]
}

#[test]
fn connections_list_the_triangles_that_share_a_side() {
    let mut shape = AlphaShape2D::new(strip(), Alpha::new(1, 10));
    assert!(shape.connections.is_empty());
    shape.build_connections_graph();
    assert_eq!(
        shape.connections,
        vec![vec![2], vec![], vec![0, 4], vec![], vec![2]]
    );
}

#[test]
fn components_come_in_the_order_of_their_first_triangle() {
    let mut shape = AlphaShape2D::new(strip(), Alpha::new(1, 10));
    shape.build_connections_graph();
    assert_eq!(shape.components(), vec![vec![0, 2, 4], vec![1], vec![3]]);
}

#[test]
fn shapes_hold_the_triangles_of_their_component() {
    let triangles = strip();
    let mut shape = AlphaShape2D::new(triangles.clone(), Alpha::new(1, 10));
    let shapes = shape.shapes();
    assert_eq!(shapes.len(), 3);
    assert_eq!(
        shapes[0].triangles,
        vec![triangles[0], triangles[2], triangles[4]]
    );
    assert_eq!(shapes[1].triangles, vec![triangles[1]]);
    assert_eq!(shapes[2].triangles, vec![triangles[3]]);
}

#[test]
fn prune_keeps_the_order_of_the_triangles() {
    let small = Triangle::new(Point::new(0, 0), Point::new(1, 0), Point::new(0, 1)).unwrap();
    let large = Triangle::new(Point::new(0, 0), Point::new(10, 0), Point::new(0, 10)).unwrap();
    // Squared circumradius 1/2 and 50.
    let mut shape = AlphaShape2D::new(vec![large, small, large, small], Alpha::new(1, 1));
    shape.prune();
    assert_eq!(shape.triangles, vec![small, small]);
    let mut shape = AlphaShape2D::new(vec![large, small, large], Alpha::new(1, 8));
    shape.prune();
    assert_eq!(shape.triangles, vec![large, small, large]);
    let mut shape = AlphaShape2D::new(vec![large, small], Alpha::new(3, 2));
    shape.prune();
    assert!(shape.triangles.is_empty());
}

#[test]
fn a_triangle_touching_at_a_corner_only_is_not_adjacent() {
    let a = Triangle::new(Point::new(0, 0), Point::new(1, 0), Point::new(0, 1)).unwrap();
    let b = Triangle::new(Point::new(0, 0), Point::new(-1, 0), Point::new(0, -1)).unwrap();
    assert!(!a.shares_edge_with(&b));
    assert!(a.shares_edge_with(&a));
    let c = Triangle::new(Point::new(1, 0), Point::new(0, 0), Point::new(0, -1)).unwrap();
    assert!(a.shares_edge_with(&c));
    assert!(c.shares_edge_with(&a));
    assert!(b.shares_edge_with(&c));
}

#[test]
fn a_component_lists_its_triangles_in_the_order_of_discovery() {
    // A strip of four triangles a, b, c, d, each adjacent to the next,
    // stored as a, d, b, c: the walk from a finds b, then c, then d.
    let a = Triangle::new(Point::new(0, 0), Point::new(1, 0), Point::new(0, 1)).unwrap();
    let b = Triangle::new(Point::new(1, 0), Point::new(1, 1), Point::new(0, 1)).unwrap();
    let c = Triangle::new(Point::new(1, 0), Point::new(2, 0), Point::new(1, 1)).unwrap();
    let d = Triangle::new(Point::new(2, 0), Point::new(2, 1), Point::new(1, 1)).unwrap();
    let mut shape = AlphaShape2D::new(vec![a, d, b, c], Alpha::new(1, 10));
    shape.build_connections_graph();
    assert_eq!(shape.connections, vec![vec![2], vec![3], vec![0, 3], vec![1, 2]]);
    assert_eq!(shape.components(), vec![vec![0, 2, 3, 1]]);
    let mut shape = AlphaShape2D::new(vec![a, d, b, c], Alpha::new(1, 10));
    let shapes = shape.shapes();
    assert_eq!(shapes.len(), 1);
    assert_eq!(shapes[0].triangles, vec![a, b, c, d]);
}

#[test]
fn triangles_found_from_the_same_triangle_come_by_index() {
    // The middle triangle is adjacent to the three around it.
    let middle = Triangle::new(Point::new(0, 0), Point::new(4, 0), Point::new(0, 4)).unwrap();
    let below = Triangle::new(Point::new(0, 0), Point::new(4, 0), Point::new(2, -3)).unwrap();
    let left = Triangle::new(Point::new(0, 0), Point::new(0, 4), Point::new(-3, 2)).unwrap();
    let above = Triangle::new(Point::new(4, 0), Point::new(0, 4), Point::new(5, 5)).unwrap();
    let far = Triangle::new(Point::new(2, -3), Point::new(4, 0), Point::new(6, -3)).unwrap();
    let mut shape = AlphaShape2D::new(vec![far, above, middle, left, below], Alpha::new(1, 10));
    shape.build_connections_graph();
    assert_eq!(
        shape.connections,
        vec![vec![4], vec![2], vec![1, 3, 4], vec![2], vec![0, 2]]
    );
    // From `far` to `below`, to `middle`, then to `above` and `left`.
    assert_eq!(shape.components(), vec![vec![0, 4, 2, 1, 3]]);
}

#[test]
fn shapes_of_the_unit_square_have_its_area() {
    let points = vec![
        Point::new(0, 0),
        Point::new(1, 0),
        Point::new(1, 1),
        Point::new(0, 1),
    ];
    let shapes = alpha_shape_2d(&points, Alpha::new(1, 1)).unwrap();
    assert_eq!(shapes.len(), 1);
    let area = shapes[0].area();
    assert_eq!(area.num, 4);
    assert_eq!(area.den, 4);
}

#[test]
fn a_triangle_at_the_threshold_is_kept() {
    // Sides 3, 4 and 5: the circumradius is 5/2, which is 1 / alpha for
    // alpha = 2/5.
    let t = Triangle::new(Point::new(0, 0), Point::new(4, 0), Point::new(0, 3)).unwrap();
    let kept = |alpha: Alpha| {
        let mut shape = AlphaShape2D::new(vec![t], alpha);
        shape.prune();
        shape.triangles.len()
    };
    assert_eq!(kept(Alpha::new(2, 5)), 1);
    assert_eq!(kept(Alpha::new(4, 10)), 1);
    assert_eq!(kept(Alpha::new(399, 1000)), 1);
    assert_eq!(kept(Alpha::new(401, 1000)), 0);
    assert_eq!(kept(Alpha::new(2_000_000_001, 5_000_000_000)), 0);
    assert_eq!(kept(Alpha::new(1_999_999_999, 5_000_000_000)), 1);
}

#[test]
fn a_regular_grid_is_one_shape() {
    let mut points = Vec::new();
    for x in 0..5 {
        for y in 0..5 {
            points.push(Point::new(x, y));
        }
    }
    let shapes = alpha_shape_2d(&points, Alpha::new(1, 1)).unwrap();
    assert_eq!(shapes.len(), 1);
    assert_eq!(shapes[0].triangles.len(), 32);
    assert_eq!(shapes[0].area().num, 4 * 16);
}
