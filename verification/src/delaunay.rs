//! Delaunay triangulation by inserting the points one at a time.
//!
//! The triangulation starts as one large scaffold triangle around all the
//! points. Inserting a point removes every triangle whose circumcircle holds
//! it, which leaves a cavity, and joins the point to each edge on the
//! cavity's boundary. At the end the triangles that still hang on a scaffold
//! vertex are dropped.

use vstd::prelude::*;
use crate::bounding_box::bounding_box_of;
use crate::edge::Edge;
use crate::point::Point;
use crate::scaffold::{
    all_in_input_range, in_input_range, lemma_distinct_points_have_scaffold,
    lemma_scaffold_contains, lemma_scaffold_encloses, lemma_scaffold_exists, scaffold_of,
};
use crate::sequences::lemma_filter_take_step;
use crate::triangle::Triangle;
use crate::unique::sorted_unique;

verus! {

/// A scaffold triangle and the triangles built inside it.
pub struct Triangulation2 {
    pub bounding_triangle: Triangle,
    pub triangles: Vec<Triangle>,
}

/// Every triangle of the sequence is well formed.
pub open spec fn all_wf(ts: Seq<Triangle>) -> bool {
    forall|i: int| 0 <= i < ts.len() ==> (#[trigger] ts[i]).wf()
}

/// The triangles whose circumcircle holds `p`.
pub open spec fn enclosing(p: Point) -> spec_fn(Triangle) -> bool {
    |t: Triangle| t.encloses(p)
}

/// The triangles whose circumcircle does not hold `p`.
pub open spec fn not_enclosing(p: Point) -> spec_fn(Triangle) -> bool {
    |t: Triangle| !t.encloses(p)
}

/// The triangles that share no vertex with `scaffold`.
pub open spec fn clear_of(scaffold: Triangle) -> spec_fn(Triangle) -> bool {
    |t: Triangle| !(t.touches(scaffold.a) || t.touches(scaffold.b) || t.touches(scaffold.c))
}

/// The sides of all the triangles in canonical form, three for each
/// triangle, in the order of the triangles.
pub open spec fn canonical_edges(ts: Seq<Triangle>) -> Seq<Edge>
    decreases ts.len(),
{
    if ts.len() == 0 {
        Seq::empty()
    } else {
        canonical_edges(ts.drop_last()) + ts.last().canonical_edge_seq()
    }
}

/// How often `e` occurs in `es`.
pub open spec fn occurrences(es: Seq<Edge>, e: Edge) -> nat
    decreases es.len(),
{
    if es.len() == 0 {
        0
    } else {
        occurrences(es.drop_last(), e) + if es.last() == e {
            1nat
        } else {
            0nat
        }
    }
}

/// The edges that occur exactly once in `es`.
pub open spec fn occurs_once(es: Seq<Edge>) -> spec_fn(Edge) -> bool {
    |e: Edge| occurrences(es, e) == 1
}

/// The boundary of the cavity that removing `bad` leaves: the sides that
/// belong to one removed triangle only. A side shared by two removed
/// triangles lies inside the cavity.
pub open spec fn cavity_boundary(bad: Seq<Triangle>) -> Seq<Edge> {
    let es = canonical_edges(bad);
    es.filter(occurs_once(es))
}

/// The triangles that join `p` to each of the edges, without those that
/// would be degenerate.
pub open spec fn fan(es: Seq<Edge>, p: Point) -> Seq<Triangle>
    decreases es.len(),
{
    if es.len() == 0 {
        Seq::empty()
    } else {
        let rest = fan(es.drop_last(), p);
        match Triangle::spec_new(es.last().a, es.last().b, p) {
            Some(t) => rest.push(t),
            None => rest,
        }
    }
}

/// The triangles after `p` has been inserted: those that do not hold `p` in
/// their circumcircle, then the new ones around `p`.
pub open spec fn insert_point(ts: Seq<Triangle>, p: Point) -> Seq<Triangle> {
    ts.filter(not_enclosing(p)) + fan(cavity_boundary(ts.filter(enclosing(p))), p)
}

/// Both endpoints of every edge are within range.
pub open spec fn all_in_range(es: Seq<Edge>) -> bool {
    forall|i: int| 0 <= i < es.len() ==> (#[trigger] es[i]).a.valid() && es[i].b.valid()
}

/// Counts how often `e` occurs among `edges`.
pub fn count_occurrences(edges: &Vec<Edge>, e: Edge) -> (r: usize)
    ensures
        r == occurrences(edges@, e),
{
    let n: usize = edges.len();
    let mut count: usize = 0;
    let mut i: usize = 0;
    while i < n
        invariant
            i <= n,
            n == edges@.len(),
            count == occurrences(edges@.take(i as int), e),
            count <= i,
        decreases n - i,
    {
        proof {
            assert(edges@.take(i + 1).drop_last() =~= edges@.take(i as int));
        }
        if edges[i] == e {
            count += 1;
        }
        i += 1;
    }
    proof {
        assert(edges@.take(n as int) =~= edges@);
    }
    count
}

impl Triangulation2 {
    /// The scaffold and all the triangles are well formed.
    pub open spec fn wf(self) -> bool {
        self.bounding_triangle.wf() && all_wf(self.triangles@)
    }

    /// The triangulation that consists of the scaffold alone.
    pub fn new(bounding_triangle: Triangle) -> (r: Triangulation2)
        ensures
            r.bounding_triangle == bounding_triangle,
            r.triangles@ == seq![bounding_triangle],
    {
        let mut triangles: Vec<Triangle> = Vec::new();
        triangles.push(bounding_triangle);
        assert(triangles@ =~= seq![bounding_triangle]);
        Triangulation2 { bounding_triangle, triangles }
    }

    /// Inserts one point: the triangles whose circumcircle holds it give way
    /// to triangles that join it to the boundary of the cavity they leave.
    pub fn add(&mut self, point: Point)
        requires
            old(self).wf(),
            point.valid(),
        ensures
            final(self).wf(),
            final(self).bounding_triangle == old(self).bounding_triangle,
            final(self).triangles@ == insert_point(old(self).triangles@, point),
    {
        let ghost ts = self.triangles@;
        let mut keep: Vec<Triangle> = Vec::new();
        let mut edges: Vec<Edge> = Vec::new();
        let n: usize = self.triangles.len();
        let mut i: usize = 0;
        while i < n
            invariant
                i <= n,
                n == ts.len(),
                self.triangles@ == ts,
                all_wf(ts),
                point.valid(),
                keep@ == ts.take(i as int).filter(not_enclosing(point)),
                edges@ == canonical_edges(ts.take(i as int).filter(enclosing(point))),
                all_wf(keep@),
                all_in_range(edges@),
            decreases n - i,
        {
            let t: Triangle = self.triangles[i];
            proof {
                lemma_filter_take_step(ts, i as int, not_enclosing(point));
                lemma_filter_take_step(ts, i as int, enclosing(point));
                assert(t.wf());
            }
            if t.is_inside_circumcircle(point) {
                let sides = t.edges();
                let ghost bad = ts.take(i as int).filter(enclosing(point));
                let e0 = sides[0].canonical();
                let e1 = sides[1].canonical();
                let e2 = sides[2].canonical();
                edges.push(e0);
                edges.push(e1);
                edges.push(e2);
                proof {
                    assert(bad.push(t).drop_last() =~= bad);
                    assert(edges@ =~= canonical_edges(bad) + t.canonical_edge_seq());
                }
            } else {
                keep.push(t);
            }
            i += 1;
        }
        proof {
            assert(ts.take(n as int) =~= ts);
        }
        let ghost kept = keep@;
        let ghost es = edges@;
        let m: usize = edges.len();
        let mut j: usize = 0;
        while j < m
            invariant
                j <= m,
                m == es.len(),
                edges@ == es,
                all_in_range(es),
                point.valid(),
                keep@ == kept + fan(es.take(j as int).filter(occurs_once(es)), point),
                all_wf(keep@),
            decreases m - j,
        {
            let e: Edge = edges[j];
            let ghost prefix = es.take(j as int).filter(occurs_once(es));
            proof {
                lemma_filter_take_step(es, j as int, occurs_once(es));
            }
            if count_occurrences(&edges, e) == 1 {
                proof {
                    assert(prefix.push(e).drop_last() =~= prefix);
                }
                match Triangle::new(e.a, e.b, point) {
                    Some(t) => {
                        keep.push(t);
                        proof {
                            assert(keep@ =~= kept + fan(prefix, point).push(t));
                        }
                    },
                    None => {},
                }
            }
            j += 1;
        }
        proof {
            assert(es.take(m as int) =~= es);
        }
        self.triangles = keep;
    }

    /// Drops every triangle that has a scaffold vertex among its own.
    pub fn finalize(&mut self)
        requires
            old(self).wf(),
        ensures
            final(self).wf(),
            final(self).bounding_triangle == old(self).bounding_triangle,
            final(self).triangles@ == old(self).triangles@.filter(
                clear_of(old(self).bounding_triangle),
            ),
    {
        let ghost ts = self.triangles@;
        let scaffold: Triangle = self.bounding_triangle;
        let mut keep: Vec<Triangle> = Vec::new();
        let n: usize = self.triangles.len();
        let mut i: usize = 0;
        while i < n
            invariant
                i <= n,
                n == ts.len(),
                self.triangles@ == ts,
                all_wf(ts),
                keep@ == ts.take(i as int).filter(clear_of(scaffold)),
                all_wf(keep@),
            decreases n - i,
        {
            let t: Triangle = self.triangles[i];
            proof {
                lemma_filter_take_step(ts, i as int, clear_of(scaffold));
            }
            if !(t.has_point(&scaffold.a) || t.has_point(&scaffold.b) || t.has_point(&scaffold.c)) {
                keep.push(t);
            }
            i += 1;
        }
        proof {
            assert(ts.take(n as int) =~= ts);
        }
        self.triangles = keep;
    }
}

/// The triangles after all of `ps` have been inserted, first to last.
pub open spec fn insert_all(ts: Seq<Triangle>, ps: Seq<Point>) -> Seq<Triangle>
    decreases ps.len(),
{
    if ps.len() == 0 {
        ts
    } else {
        insert_point(insert_all(ts, ps.drop_last()), ps.last())
    }
}

/// The scaffold and the triangles of the triangulation of `points`, or
/// nothing when fewer than three of them are distinct.
pub open spec fn triangulation_of(points: Seq<Point>) -> Option<(Triangle, Seq<Triangle>)> {
    let u = sorted_unique(points);
    if u.len() < 3 {
        None
    } else {
        match scaffold_of(bounding_box_of(u)) {
            None => None,
            Some(s) => Some((s, insert_all(seq![s], u).filter(clear_of(s)))),
        }
    }
}

/// Builds the scaffold around the points: a triangle so large that they
/// all lie inside it and inside its circumcircle, none of them on the
/// border. There is none around no point and none around points that are
/// all the same.
pub fn get_bounding_triangle(points: &Vec<Point>) -> (r: Option<Triangle>)
    requires
        all_in_input_range(points@),
    ensures
        r == (if points@.len() == 0 {
            None
        } else {
            scaffold_of(bounding_box_of(points@))
        }),
        (r is None) == (points@.len() == 0 || bounding_box_of(points@).lower == bounding_box_of(
            points@,
        ).upper),
        r matches Some(t) ==> t.wf() && forall|i: int|
            0 <= i < points@.len() ==> t.strictly_encloses(#[trigger] points@[i])
                && t.strictly_contains(points@[i]),
{
    match Point::bounding_box(points) {
        None => None,
        Some(bbox) => {
            proof {
                let s = points@;
                let i0 = choose|i: int| 0 <= i < s.len() && (#[trigger] s[i]).x == bbox.lower.x;
                let i1 = choose|i: int| 0 <= i < s.len() && (#[trigger] s[i]).y == bbox.lower.y;
                let i2 = choose|i: int| 0 <= i < s.len() && (#[trigger] s[i]).x == bbox.upper.x;
                let i3 = choose|i: int| 0 <= i < s.len() && (#[trigger] s[i]).y == bbox.upper.y;
                assert(in_input_range(s[i0]) && in_input_range(s[i1]) && in_input_range(s[i2])
                    && in_input_range(s[i3]));
                assert(bbox.holds(s[i0]) && bbox.holds(s[i1]));
            }
            let dim: Point = bbox.dimensions();
            let d: i64 = 3 * if dim.x >= dim.y {
                dim.x
            } else {
                dim.y
            };
            let center: Point = bbox.center();
            let s: i64 = (866 * d + 500) / 1000;
            let t: i64 = (d + 1) / 2;
            let scaffold = Triangle::new(
                Point::new(center.x - s, center.y - t),
                Point::new(center.x + s, center.y - t),
                Point::new(center.x, center.y + d),
            );
            proof {
                if bbox.lower == bbox.upper {
                    assert(d == 0 && s == 0 && t == 0);
                    assert(scaffold is None) by (nonlinear_arith)
                        requires
                            scaffold == Triangle::spec_new(
                                Point { x: center.x, y: center.y },
                                Point { x: center.x, y: center.y },
                                Point { x: center.x, y: center.y },
                            ),
                    ;
                } else {
                    lemma_scaffold_exists(bbox);
                    assert forall|i: int| 0 <= i < points@.len() implies scaffold_of(
                        bbox,
                    )->0.strictly_encloses(#[trigger] points@[i]) && scaffold_of(
                        bbox,
                    )->0.strictly_contains(points@[i]) by {
                        assert(bbox.holds(points@[i]));
                        lemma_scaffold_encloses(bbox, points@[i]);
                        lemma_scaffold_contains(bbox, points@[i]);
                    }
                }
            }
            scaffold
        },
    }
}

/// Triangulates the distinct points of the input. There is no triangulation
/// of fewer than three distinct points.
pub fn triangulate(points: &Vec<Point>) -> (r: Option<Triangulation2>)
    requires
        all_in_input_range(points@),
    ensures
        (r is None) == (sorted_unique(points@).len() < 3),
        match r {
            None => triangulation_of(points@) is None,
            Some(t) => t.wf() && triangulation_of(points@) == Some(
                (t.bounding_triangle, t.triangles@),
            ),
        },
{
    let unique: Vec<Point> = Point::unique(points);
    let ghost u = unique@;
    if unique.len() < 3 {
        return None;
    }
    proof {
        assert forall|i: int| 0 <= i < u.len() implies in_input_range(#[trigger] u[i]) by {
            assert(u.contains(u[i]));
            assert(points@.contains(u[i]));
        }
        lemma_distinct_points_have_scaffold(u);
    }
    match get_bounding_triangle(&unique) {
        None => None,
        Some(bounding_triangle) => {
            let mut triangulation = Triangulation2::new(bounding_triangle);
            let n: usize = unique.len();
            let mut i: usize = 0;
            proof {
                assert(triangulation.triangles@[0] == bounding_triangle);
            }
            while i < n
                invariant
                    i <= n,
                    n == u.len(),
                    unique@ == u,
                    all_in_input_range(u),
                    triangulation.wf(),
                    triangulation.bounding_triangle == bounding_triangle,
                    triangulation.triangles@ == insert_all(
                        seq![bounding_triangle],
                        u.take(i as int),
                    ),
                decreases n - i,
            {
                proof {
                    assert(u.take(i + 1).drop_last() =~= u.take(i as int));
                    assert(in_input_range(u[i as int]));
                }
                triangulation.add(unique[i]);
                i += 1;
            }
            proof {
                assert(u.take(n as int) =~= u);
            }
            triangulation.finalize();
            Some(triangulation)
        },
    }
}

} // verus!
