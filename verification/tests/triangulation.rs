use std::collections::{HashMap, HashSet};

use geomutil::{triangulate, Edge, Point, Triangle, Triangulation2};

#[test]
fn test_triangulate_rectangle() {
    // Define the four corners of a rectangle
    let p1 = Point::new(0, 0);
    let p2 = Point::new(10, 0);
    let p3 = Point::new(10, 10);
    let p4 = Point::new(0, 10);

    let points = vec![p1, p2, p3, p4];

    // Perform the triangulation
    let result = triangulate(&points);

    // Assert that a triangulation was returned
    assert!(result.is_some(), "Triangulation should not be None");

    let triangulation = result.unwrap();

    // A rectangle should be triangulated into exactly two triangles
    assert_eq!(
        triangulation.triangles.len(),
        2,
        "A rectangle should be triangulated into 2 triangles"
    );

    let t1 = &triangulation.triangles[0];
    let t2 = &triangulation.triangles[1];

    // Check if the two triangles cover all original points
    let mut all_points_in_triangulation = HashSet::new();
    all_points_in_triangulation.insert(t1.a);
    all_points_in_triangulation.insert(t1.b);
    all_points_in_triangulation.insert(t1.c);
    all_points_in_triangulation.insert(t2.a);
    all_points_in_triangulation.insert(t2.b);
    all_points_in_triangulation.insert(t2.c);

    assert!(all_points_in_triangulation.contains(&p1));
    assert!(all_points_in_triangulation.contains(&p2));
    assert!(all_points_in_triangulation.contains(&p3));
    assert!(all_points_in_triangulation.contains(&p4));

    // Check that the two triangles share a common edge (the diagonal)
    let mut all_edges = HashMap::new();
    for t in &triangulation.triangles {
        for edge in t.edges().iter().map(|e| e.canonical()) {
            *all_edges.entry(edge).or_insert(0) += 1;
        }
    }

    // Internal edges appear twice and boundary edges appear once: for a
    // rectangle split into two triangles there are 4 boundary edges and 1
    // internal (shared) edge.
    let boundary_edges_count = all_edges.values().filter(|&&c| c == 1).count();
    let internal_edges_count = all_edges.values().filter(|&&c| c == 2).count();

    assert_eq!(boundary_edges_count, 4, "Expected 4 boundary edges");
    assert_eq!(internal_edges_count, 1, "Expected 1 internal (shared) edge");

    println!(
        "Triangulation successful! Triangles: {:?}",
        triangulation.triangles
    );
}

#[test]
fn unit_rectangle_gives_two_triangles_on_the_four_corners() {
    let corners = vec![
        Point::new(0, 0),
        Point::new(1, 0),
        Point::new(1, 1),
        Point::new(0, 1),
    ];
    let triangulation = triangulate(&corners).unwrap();
    assert_eq!(triangulation.triangles.len(), 2);
    let mut slots: HashMap<Point, usize> = HashMap::new();
    for t in &triangulation.triangles {
        for p in [t.a, t.b, t.c] {
            *slots.entry(p).or_insert(0) += 1;
        }
    }
    assert_eq!(slots.len(), 4);
    for p in &corners {
        assert!(slots.contains_key(p));
    }
    assert_eq!(
        triangulation.triangles,
        vec![
            Triangle::new(Point::new(0, 0), Point::new(0, 1), Point::new(1, 1)).unwrap(),
            Triangle::new(Point::new(0, 0), Point::new(1, 0), Point::new(1, 1)).unwrap(),
        ]
    );
}

#[test]
fn scaffold_follows_the_bounding_box() {
    let points = vec![
        Point::new(0, 0),
        Point::new(10, 0),
        Point::new(10, 10),
        Point::new(0, 10),
    ];
    let scaffold = geomutil::get_bounding_triangle(&points).unwrap();
    // d = 3 * 10 = 30, center (5, 5), 0.866 d rounded is 26, d / 2 is 15.
    assert_eq!(scaffold.a, Point::new(-21, -10));
    assert_eq!(scaffold.b, Point::new(31, -10));
    assert_eq!(scaffold.c, Point::new(5, 35));
    // d = 3, center (0, 0), 0.866 d rounded is 3, d / 2 rounded is 2.
    let unit = vec![Point::new(0, 0), Point::new(1, 1)];
    let scaffold = geomutil::get_bounding_triangle(&unit).unwrap();
    assert_eq!(scaffold.a, Point::new(-3, -2));
    assert_eq!(scaffold.b, Point::new(3, -2));
    assert_eq!(scaffold.c, Point::new(0, 3));
    let scaffold = geomutil::get_bounding_triangle(&points).unwrap();
    let triangulation = triangulate(&points).unwrap();
    assert_eq!(triangulation.bounding_triangle, scaffold);
    assert!(geomutil::get_bounding_triangle(&Vec::new()).is_none());
    assert!(geomutil::get_bounding_triangle(&vec![Point::new(3, 3)]).is_none());
}

#[test]
fn fewer_than_three_distinct_points_have_no_triangulation() {
    assert!(triangulate(&Vec::new()).is_none());
    assert!(triangulate(&vec![Point::new(0, 0)]).is_none());
    assert!(triangulate(&vec![Point::new(0, 0), Point::new(1, 1)]).is_none());
    let repeated = vec![
        Point::new(0, 0),
        Point::new(1, 1),
        Point::new(0, 0),
        Point::new(1, 1),
        Point::new(1, 1),
    ];
    assert!(triangulate(&repeated).is_none());
}

#[test]
fn a_thin_triangle_whose_circumcircle_reaches_the_scaffold_is_lost() {
    // The circumcircle of these three points holds a vertex of the scaffold,
    // so each of them is joined to the scaffold and not to the other two.
    let points = vec![Point::new(0, 0), Point::new(1, 1), Point::new(3, 2)];
    let triangulation = triangulate(&points).unwrap();
    let scaffold = triangulation.bounding_triangle;
    assert_eq!(
        scaffold,
        Triangle::new(Point::new(-7, -4), Point::new(9, -4), Point::new(1, 10)).unwrap()
    );
    assert!(triangulation.triangles.is_empty());
    let thin = Triangle::new(points[0], points[1], points[2]).unwrap();
    assert!([scaffold.a, scaffold.b, scaffold.c]
        .iter()
        .any(|v| thin.is_inside_circumcircle(*v)));
}

#[test]
fn collinear_points_give_no_triangle() {
    let points = vec![Point::new(0, 0), Point::new(1, 1), Point::new(2, 2)];
    let triangulation = triangulate(&points).unwrap();
    assert!(triangulation.triangles.is_empty());
}

fn side(a: Point, b: Point, p: Point) -> i64 {
    (b.x - a.x) * (p.y - a.y) - (b.y - a.y) * (p.x - a.x)
}

fn strictly_within(t: &Triangle, p: Point) -> bool {
    let sides = [side(t.a, t.b, p), side(t.b, t.c, p), side(t.c, t.a, p)];
    sides.iter().all(|s| *s > 0) || sides.iter().all(|s| *s < 0)
}

fn strictly_inside(t: &Triangle, p: Point) -> bool {
    let u = t.circumcenter();
    let r = t.circumcircle_radius_squared();
    let dx = u.x_num - (p.x as i128) * u.den;
    let dy = u.y_num - (p.y as i128) * u.den;
    dx * dx + dy * dy < r.num
}

fn grid_points() -> Vec<Point> {
    let mut points = Vec::new();
    let mut seed: i64 = 12345;
    for _ in 0..40 {
        seed = (seed * 1103515245 + 12345) % 2147483648;
        let x = (seed / 65536) % 50;
        seed = (seed * 1103515245 + 12345) % 2147483648;
        let y = (seed / 65536) % 50;
        points.push(Point::new(x, y));
    }
    points
}

#[test]
fn no_point_lies_strictly_inside_a_circumcircle() {
    let points = grid_points();
    let triangulation = triangulate(&points).unwrap();
    assert!(!triangulation.triangles.is_empty());
    for t in &triangulation.triangles {
        for p in &points {
            if !t.has_point(p) {
                assert!(!strictly_inside(t, *p), "{:?} inside {:?}", p, t);
            }
        }
    }
}

#[test]
fn triangles_use_input_points_only() {
    let points = grid_points();
    let set: HashSet<Point> = points.iter().copied().collect();
    let triangulation = triangulate(&points).unwrap();
    for t in &triangulation.triangles {
        assert!(set.contains(&t.a) && set.contains(&t.b) && set.contains(&t.c));
        assert!(!t.has_point(&triangulation.bounding_triangle.a));
        assert!(!t.has_point(&triangulation.bounding_triangle.b));
        assert!(!t.has_point(&triangulation.bounding_triangle.c));
    }
}

#[test]
fn square_triangles_cover_the_square() {
    let points = vec![
        Point::new(0, 0),
        Point::new(10, 0),
        Point::new(10, 10),
        Point::new(0, 10),
        Point::new(5, 5),
    ];
    let triangulation = triangulate(&points).unwrap();
    assert_eq!(triangulation.triangles.len(), 4);
    // The determinant of the circumcenter system is four times the area.
    let four_areas: i128 = triangulation
        .triangles
        .iter()
        .map(|t| t.circumcenter().den.abs())
        .sum();
    assert_eq!(four_areas, 4 * 100);
}

#[test]
fn order_of_the_input_does_not_matter() {
    let points = grid_points();
    let expected = triangulate(&points).unwrap();
    let mut reversed = points.clone();
    reversed.reverse();
    let mut rotated = points.clone();
    rotated.rotate_left(7);
    for shuffled in [reversed, rotated] {
        let got = triangulate(&shuffled).unwrap();
        assert_eq!(got.bounding_triangle, expected.bounding_triangle);
        assert_eq!(got.triangles, expected.triangles);
    }
}

#[test]
fn repeated_points_do_not_matter() {
    let points = grid_points();
    let expected = triangulate(&points).unwrap();
    let mut doubled = points.clone();
    doubled.extend_from_slice(&points[3..17]);
    doubled.push(points[0]);
    let got = triangulate(&doubled).unwrap();
    assert_eq!(got.bounding_triangle, expected.bounding_triangle);
    assert_eq!(got.triangles, expected.triangles);
}

#[test]
fn add_replaces_the_triangles_around_the_point() {
    let scaffold = Triangle::new(Point::new(-20, -10), Point::new(30, -10), Point::new(5, 35))
        .unwrap();
    let mut triangulation = Triangulation2::new(scaffold);
    assert_eq!(triangulation.triangles, vec![scaffold]);
    let p = Point::new(0, 0);
    triangulation.add(p);
    // The scaffold holds the point in its circumcircle, so it gives way to
    // one triangle on each of its three sides, in the order of the sides.
    let expected: Vec<Triangle> = scaffold
        .edges()
        .iter()
        .map(|e| e.canonical())
        .map(|e| Triangle::new(e.a, e.b, p).unwrap())
        .collect();
    assert_eq!(triangulation.triangles, expected);
    assert_eq!(triangulation.bounding_triangle, scaffold);
    triangulation.finalize();
    assert!(triangulation.triangles.is_empty());
}

#[test]
fn count_occurrences_counts_equal_edges() {
    let a = Edge::new(Point::new(0, 0), Point::new(1, 0));
    let b = Edge::new(Point::new(0, 0), Point::new(0, 1));
    let edges = vec![a, b, a, a.flip()];
    assert_eq!(geomutil::delaunay::count_occurrences(&edges, a), 2);
    assert_eq!(geomutil::delaunay::count_occurrences(&edges, b), 1);
    assert_eq!(geomutil::delaunay::count_occurrences(&edges, b.flip()), 0);
}

#[test]
fn every_point_lies_strictly_inside_the_scaffold_and_its_circumcircle() {
    let mut inputs = vec![
        grid_points(),
        vec![Point::new(0, 0), Point::new(1, 0)],
        vec![Point::new(0, 0), Point::new(0, 1), Point::new(1, 0), Point::new(1, 1)],
        vec![Point::new(-65536, -65536), Point::new(65536, 65536)],
        vec![Point::new(-65536, 65536), Point::new(65536, 65535), Point::new(0, 0)],
        vec![Point::new(7, -3), Point::new(7, 12)],
    ];
    inputs.push((0..30).map(|i| Point::new(i * i - 200, 3 * i)).collect());
    for points in inputs {
        let scaffold = geomutil::get_bounding_triangle(&points).unwrap();
        for p in &points {
            assert!(strictly_inside(&scaffold, *p));
            assert!(strictly_within(&scaffold, *p));
        }
        for v in [scaffold.a, scaffold.b, scaffold.c] {
            assert!(v.x.abs() <= geomutil::COORD_LIMIT && v.y.abs() <= geomutil::COORD_LIMIT);
        }
    }
}

#[test]
fn points_at_the_limit_of_the_range_are_triangulated() {
    let m = geomutil::INPUT_LIMIT;
    let points = vec![
        Point::new(-m, -m),
        Point::new(m, -m),
        Point::new(m, m),
        Point::new(-m, m),
        Point::new(0, 0),
    ];
    let triangulation = triangulate(&points).unwrap();
    assert_eq!(triangulation.triangles.len(), 4);
    let four_areas: i128 = triangulation.triangles.iter().map(|t| t.area().num).sum();
    assert_eq!(four_areas, 4 * 4 * (m as i128) * (m as i128));
    for t in &triangulation.triangles {
        assert!(t.has_point(&Point::new(0, 0)));
    }
}

#[test]
fn no_triangle_occurs_twice() {
    let triangulation = triangulate(&grid_points()).unwrap();
    let distinct: HashSet<Triangle> = triangulation.triangles.iter().copied().collect();
    assert_eq!(distinct.len(), triangulation.triangles.len());
    let corners: HashSet<[Point; 3]> = triangulation
        .triangles
        .iter()
        .map(|t| {
            let mut c = [t.a, t.b, t.c];
            c.sort_by(|p, q| p.total_cmp(q));
            c
        })
        .collect();
    assert_eq!(corners.len(), triangulation.triangles.len());
}

#[test]
fn a_regular_grid_is_triangulated_cell_by_cell() {
    // Every four points around a cell lie on one circle.
    for n in 3..7 {
        let mut points = Vec::new();
        for x in 0..n {
            for y in 0..n {
                points.push(Point::new(x, y));
            }
        }
        let triangulation = triangulate(&points).unwrap();
        let cells = ((n - 1) * (n - 1)) as usize;
        assert_eq!(triangulation.triangles.len(), 2 * cells);
        for t in &triangulation.triangles {
            assert_eq!(t.area().num, 2);
            for p in &points {
                assert!(!strictly_inside(t, *p));
            }
        }
    }
}
