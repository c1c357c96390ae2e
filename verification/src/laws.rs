//! What holds of the triangulation and of alpha shapes whatever the input.

use vstd::prelude::*;
use crate::algebra::{
    lemma_even_square, lemma_parallelogram, lemma_scaled_step, lemma_square_nonnegative,
    lemma_square_of_opposite, lemma_square_of_product, lemma_sum_times, lemma_unit_steps,
};
use crate::alpha::{alpha_shapes_of, alpha_triangles, radius_within, within_radius, Alpha};
use crate::bounding_box::{bounding_box_of, lemma_bounding_box_is_tight};
use crate::delaunay::{
    canonical_edges, cavity_boundary, clear_of, enclosing, fan, insert_all, insert_point,
    not_enclosing, occurrences, occurs_once, triangulation_of,
};
use crate::edge::Edge;
use crate::point::Point;
use crate::scaffold::{all_in_input_range, in_input_range, lemma_scaffold_encloses};
use crate::sequences::lemma_filter_take_step;
use crate::triangle::{
    circum_det, circum_x, circum_y, lemma_circumcenter_equidistant, lemma_offset_bounds,
    offset_squared, Triangle,
};
use crate::unique::{
    lemma_sorted_unique_exists, lemma_sorted_unique_is_unique, same_points, sorted_unique,
    strictly_increasing,
};

verus! {

/// Two inputs that hold the same points have the same distinct points in
/// increasing order.
pub proof fn lemma_same_points_same_unique(s1: Seq<Point>, s2: Seq<Point>)
    requires
        same_points(s1, s2),
    ensures
        sorted_unique(s1) == sorted_unique(s2),
{
    let u1 = lemma_sorted_unique_exists(s1);
    let u2 = lemma_sorted_unique_exists(s2);
    assert(same_points(u1, u2)) by {
        assert forall|p: Point| u1.contains(p) <==> u2.contains(p) by {
            assert(u1.contains(p) <==> s1.contains(p));
            assert(s1.contains(p) <==> s2.contains(p));
            assert(u2.contains(p) <==> s2.contains(p));
        }
    }
    lemma_sorted_unique_is_unique(u1, u2);
}

/// The order of the input does not matter: a rearrangement of the points
/// has the same scaffold and the same triangles in the same order, and so
/// the same alpha shapes for every alpha.
pub proof fn lemma_triangulation_ignores_order(points: Seq<Point>, shuffled: Seq<Point>)
    requires
        points.to_multiset() == shuffled.to_multiset(),
    ensures
        triangulation_of(shuffled) == triangulation_of(points),
        forall|alpha: Alpha|
            #[trigger] alpha_shapes_of(shuffled, alpha) == alpha_shapes_of(points, alpha),
{
    assert(same_points(points, shuffled)) by {
        points.to_multiset_ensures();
        shuffled.to_multiset_ensures();
        assert forall|p: Point| points.contains(p) <==> shuffled.contains(p) by {
            assert(points.contains(p) <==> points.to_multiset().count(p) > 0);
            assert(shuffled.contains(p) <==> shuffled.to_multiset().count(p) > 0);
        }
    }
    lemma_same_points_same_unique(points, shuffled);
}

/// Repeated points do not matter: appending points that the input already
/// holds changes neither the scaffold nor the triangles nor their order,
/// nor the alpha shapes for any alpha.
pub proof fn lemma_triangulation_ignores_duplicates(points: Seq<Point>, copies: Seq<Point>)
    requires
        forall|i: int| 0 <= i < copies.len() ==> points.contains(#[trigger] copies[i]),
    ensures
        triangulation_of(points + copies) == triangulation_of(points),
        forall|alpha: Alpha|
            #[trigger] alpha_shapes_of(points + copies, alpha) == alpha_shapes_of(points, alpha),
{
    let all = points + copies;
    assert(same_points(points, all)) by {
        assert forall|p: Point| points.contains(p) <==> all.contains(p) by {
            if points.contains(p) {
                let i = choose|i: int| 0 <= i < points.len() && points[i] == p;
                assert(all[i] == p);
            }
            if all.contains(p) {
                let i = choose|i: int| 0 <= i < all.len() && all[i] == p;
                if i < points.len() {
                    assert(points[i] == p);
                } else {
                    assert(copies[i - points.len()] == p);
                }
            }
        }
    }
    lemma_same_points_same_unique(points, all);
}

/// A triangle that is kept for one alpha is kept for every smaller alpha.
pub proof fn lemma_kept_for_smaller_alpha(t: Triangle, smaller: Alpha, larger: Alpha)
    requires
        smaller.is_positive(),
        larger.is_positive(),
        smaller.at_most(larger),
        radius_within(t, larger),
    ensures
        radius_within(t, smaller),
{
    let n = offset_squared(t.a, t.b, t.c, t.a);
    let m = circum_det(t.a, t.b, t.c) * circum_det(t.a, t.b, t.c);
    let d = circum_det(t.a, t.b, t.c);
    let dx = crate::triangle::circum_x(t.a, t.b, t.c) - t.a.x * d;
    let dy = crate::triangle::circum_y(t.a, t.b, t.c) - t.a.y * d;
    lemma_square_nonnegative(dx);
    lemma_square_nonnegative(dy);
    lemma_square_nonnegative(d);
    assert(n >= 0);
    assert(m >= 0);
    lemma_threshold_monotone(
        n,
        m,
        smaller.num as int,
        smaller.den as int,
        larger.num as int,
        larger.den as int,
    );
}

/// With `v1 / w1 <= v2 / w2`, a ratio `n / m` that is at most
/// `(w2 / v2)^2` is at most `(w1 / v1)^2`.
proof fn lemma_threshold_monotone(n: int, m: int, v1: int, w1: int, v2: int, w2: int)
    requires
        n >= 0,
        m >= 0,
        v1 > 0,
        w1 > 0,
        v2 > 0,
        w2 > 0,
        v1 * w2 <= v2 * w1,
        n * (v2 * v2) <= m * (w2 * w2),
    ensures
        n * (v1 * v1) <= m * (w1 * w1),
{
    let a = v1 * w2;
    let b = v2 * w1;
    assert(a > 0 && b > 0) by (nonlinear_arith)
        requires
            a == v1 * w2,
            b == v2 * w1,
            v1 > 0,
            w1 > 0,
            v2 > 0,
            w2 > 0,
    ;
    assert(a * a <= b * b) by (nonlinear_arith)
        requires
            0 < a <= b,
    ;
    // n v1^2 w2^2 <= n v2^2 w1^2 <= m w2^2 w1^2
    assert(n * (a * a) <= n * (b * b)) by (nonlinear_arith)
        requires
            n >= 0,
            a * a <= b * b,
    ;
    assert(n * (b * b) == (n * (v2 * v2)) * (w1 * w1)) by (nonlinear_arith)
        requires
            b == v2 * w1,
    ;
    assert((n * (v2 * v2)) * (w1 * w1) <= (m * (w2 * w2)) * (w1 * w1)) by (nonlinear_arith)
        requires
            n * (v2 * v2) <= m * (w2 * w2),
            w1 > 0,
    ;
    assert(n * (a * a) == (n * (v1 * v1)) * (w2 * w2)) by (nonlinear_arith)
        requires
            a == v1 * w2,
    ;
    assert((m * (w2 * w2)) * (w1 * w1) == (m * (w1 * w1)) * (w2 * w2)) by (nonlinear_arith);
    assert(n * (v1 * v1) <= m * (w1 * w1)) by (nonlinear_arith)
        requires
            (n * (v1 * v1)) * (w2 * w2) <= (m * (w1 * w1)) * (w2 * w2),
            w2 > 0,
    ;
}

/// Where one predicate implies another, filtering by the first keeps no
/// more than filtering by the second.
proof fn lemma_filter_monotone<A>(s: Seq<A>, strict: spec_fn(A) -> bool, lax: spec_fn(A) -> bool)
    requires
        forall|i: int| 0 <= i < s.len() && strict(#[trigger] s[i]) ==> lax(s[i]),
    ensures
        s.filter(strict).len() <= s.filter(lax).len(),
    decreases s.len(),
{
    reveal(Seq::filter);
    if s.len() > 0 {
        let s0 = s.drop_last();
        assert forall|i: int| 0 <= i < s0.len() && strict(#[trigger] s0[i]) implies lax(s0[i]) by {
            assert(s0[i] == s[i]);
        }
        lemma_filter_monotone(s0, strict, lax);
        assert(s.last() == s[s.len() - 1]);
    }
}

/// As alpha gets smaller, the number of triangles that are kept does not
/// get smaller.
pub proof fn lemma_alpha_monotone(ts: Seq<Triangle>, smaller: Alpha, larger: Alpha)
    requires
        smaller.is_positive(),
        larger.is_positive(),
        smaller.at_most(larger),
    ensures
        ts.filter(within_radius(larger)).len() <= ts.filter(within_radius(smaller)).len(),
        forall|points: Seq<Point>|
            (#[trigger] alpha_triangles(points, larger)).len() <= alpha_triangles(
                points,
                smaller,
            ).len(),
{
    lemma_alpha_monotone_for(ts, smaller, larger);
    assert forall|points: Seq<Point>|
        (#[trigger] alpha_triangles(points, larger)).len() <= alpha_triangles(
            points,
            smaller,
        ).len() by {
        match triangulation_of(points) {
            Some(pair) => {
                lemma_alpha_monotone_for(pair.1, smaller, larger);
            },
            None => {},
        }
    }
}

/// The same for one list of triangles.
proof fn lemma_alpha_monotone_for(ts: Seq<Triangle>, smaller: Alpha, larger: Alpha)
    requires
        smaller.is_positive(),
        larger.is_positive(),
        smaller.at_most(larger),
    ensures
        ts.filter(within_radius(larger)).len() <= ts.filter(within_radius(smaller)).len(),
{
    assert forall|i: int|
        0 <= i < ts.len() && within_radius(larger)(#[trigger] ts[i]) implies within_radius(smaller)(
        ts[i],
    ) by {
        lemma_kept_for_smaller_alpha(ts[i], smaller, larger);
    }
    lemma_filter_monotone(ts, within_radius(larger), within_radius(smaller));
}

/// `p` is a vertex of the scaffold or one of the points.
pub open spec fn scaffold_or_point(p: Point, scaffold: Triangle, points: Seq<Point>) -> bool {
    scaffold.touches(p) || points.contains(p)
}

/// The triangle is not degenerate, and each of its vertices is a vertex of
/// the scaffold or one of the points.
pub open spec fn built_on(t: Triangle, scaffold: Triangle, points: Seq<Point>) -> bool {
    &&& circum_det(t.a, t.b, t.c) != 0
    &&& scaffold_or_point(t.a, scaffold, points)
    &&& scaffold_or_point(t.b, scaffold, points)
    &&& scaffold_or_point(t.c, scaffold, points)
}

/// Every edge among the canonical edges of some triangles joins two
/// vertices of one of them.
proof fn lemma_canonical_edges_members(ts: Seq<Triangle>, e: Edge)
    requires
        canonical_edges(ts).contains(e),
    ensures
        exists|i: int|
            0 <= i < ts.len() && (#[trigger] ts[i]).touches(e.a) && ts[i].touches(e.b),
    decreases ts.len(),
{
    if ts.len() > 0 {
        let front = canonical_edges(ts.drop_last());
        let t = ts.last();
        let k = choose|k: int| 0 <= k < canonical_edges(ts).len() && canonical_edges(ts)[k] == e;
        if k < front.len() {
            assert(front[k] == e);
            lemma_canonical_edges_members(ts.drop_last(), e);
            let i = choose|i: int|
                0 <= i < ts.drop_last().len() && (#[trigger] ts.drop_last()[i]).touches(e.a)
                    && ts.drop_last()[i].touches(e.b);
            assert(ts[i].touches(e.a) && ts[i].touches(e.b));
        } else {
            assert(t.canonical_edge_seq()[k - front.len()] == e);
            assert(ts[ts.len() - 1].touches(e.a) && ts[ts.len() - 1].touches(e.b));
        }
    }
}

/// Every triangle of a fan joins the point to one of the edges.
proof fn lemma_fan_members(es: Seq<Edge>, p: Point, t: Triangle)
    requires
        fan(es, p).contains(t),
    ensures
        exists|i: int|
            0 <= i < es.len() && Triangle::spec_new((#[trigger] es[i]).a, es[i].b, p) == Some(t),
    decreases es.len(),
{
    if es.len() > 0 {
        let rest = fan(es.drop_last(), p);
        let e = es.last();
        let k = choose|k: int| 0 <= k < fan(es, p).len() && fan(es, p)[k] == t;
        if k < rest.len() {
            assert(rest[k] == t);
            lemma_fan_members(es.drop_last(), p, t);
            let i = choose|i: int|
                0 <= i < es.drop_last().len() && Triangle::spec_new(
                    (#[trigger] es.drop_last()[i]).a,
                    es.drop_last()[i].b,
                    p,
                ) == Some(t);
            assert(Triangle::spec_new(es[i].a, es[i].b, p) == Some(t));
        } else {
            assert(Triangle::spec_new(es[es.len() - 1].a, es[es.len() - 1].b, p) == Some(t));
        }
    }
}

/// Inserting a point into triangles built on the scaffold and some points
/// gives triangles built on the scaffold, these points and the new one.
pub proof fn lemma_insert_point_builds_on(
    ts: Seq<Triangle>,
    p: Point,
    scaffold: Triangle,
    points: Seq<Point>,
)
    requires
        forall|i: int| 0 <= i < ts.len() ==> built_on(#[trigger] ts[i], scaffold, points),
    ensures
        forall|i: int|
            0 <= i < insert_point(ts, p).len() ==> built_on(
                #[trigger] insert_point(ts, p)[i],
                scaffold,
                points.push(p),
            ),
{
    let kept = ts.filter(not_enclosing(p));
    let bad = ts.filter(enclosing(p));
    let boundary = cavity_boundary(bad);
    let new = fan(boundary, p);
    let grown = points.push(p);
    assert(grown[points.len() as int] == p);
    assert forall|q: Point| points.contains(q) implies grown.contains(q) by {
        let i = choose|i: int| 0 <= i < points.len() && points[i] == q;
        assert(grown[i] == q);
    }
    assert forall|i: int| 0 <= i < insert_point(ts, p).len() implies built_on(
        #[trigger] insert_point(ts, p)[i],
        scaffold,
        grown,
    ) by {
        let t = insert_point(ts, p)[i];
        if i < kept.len() {
            assert(kept.contains(kept[i]));
            ts.lemma_filter_contains_rev(not_enclosing(p), t);
            let j = choose|j: int| 0 <= j < ts.len() && ts[j] == t;
            assert(built_on(ts[j], scaffold, points));
        } else {
            assert(new[i - kept.len()] == t);
            lemma_fan_members(boundary, p, t);
            let k = choose|k: int|
                0 <= k < boundary.len() && Triangle::spec_new(
                    (#[trigger] boundary[k]).a,
                    boundary[k].b,
                    p,
                ) == Some(t);
            let e = boundary[k];
            assert(boundary.contains(e));
            canonical_edges(bad).lemma_filter_contains_rev(
                crate::delaunay::occurs_once(canonical_edges(bad)),
                e,
            );
            lemma_canonical_edges_members(bad, e);
            let m = choose|m: int|
                0 <= m < bad.len() && (#[trigger] bad[m]).touches(e.a) && bad[m].touches(e.b);
            assert(bad.contains(bad[m]));
            ts.lemma_filter_contains_rev(enclosing(p), bad[m]);
            let j = choose|j: int| 0 <= j < ts.len() && ts[j] == bad[m];
            assert(built_on(ts[j], scaffold, points));
        }
    }
}

/// Inserting points one after the other into the scaffold gives triangles
/// built on the scaffold and these points.
pub proof fn lemma_insert_all_builds_on(scaffold: Triangle, points: Seq<Point>)
    requires
        circum_det(scaffold.a, scaffold.b, scaffold.c) != 0,
    ensures
        forall|i: int|
            0 <= i < insert_all(seq![scaffold], points).len() ==> built_on(
                #[trigger] insert_all(seq![scaffold], points)[i],
                scaffold,
                points,
            ),
    decreases points.len(),
{
    if points.len() == 0 {
        assert(insert_all(seq![scaffold], points) =~= seq![scaffold]);
    } else {
        let front = points.drop_last();
        lemma_insert_all_builds_on(scaffold, front);
        lemma_insert_point_builds_on(
            insert_all(seq![scaffold], front),
            points.last(),
            scaffold,
            front,
        );
        assert(front.push(points.last()) =~= points);
    }
}

/// Every triangle of a triangulation is a proper triangle on three of the
/// input points, and none of them is a vertex of the scaffold.
pub proof fn lemma_triangles_join_input_points(points: Seq<Point>)
    ensures
        triangulation_of(points) matches Some(pair) ==> forall|i: int|
            0 <= i < pair.1.len() ==> {
                let t = #[trigger] pair.1[i];
                &&& circum_det(t.a, t.b, t.c) != 0
                &&& points.contains(t.a)
                &&& points.contains(t.b)
                &&& points.contains(t.c)
                &&& !pair.0.touches(t.a)
                &&& !pair.0.touches(t.b)
                &&& !pair.0.touches(t.c)
            },
{
    match triangulation_of(points) {
        None => {},
        Some(pair) => {
            let u = lemma_sorted_unique_exists(points);
            let scaffold = pair.0;
            let all = insert_all(seq![scaffold], u);
            assert(pair.1 == all.filter(clear_of(scaffold)));
            assert(circum_det(scaffold.a, scaffold.b, scaffold.c) != 0);
            lemma_insert_all_builds_on(scaffold, u);
            assert forall|i: int| 0 <= i < pair.1.len() implies {
                let t = #[trigger] pair.1[i];
                &&& circum_det(t.a, t.b, t.c) != 0
                &&& points.contains(t.a)
                &&& points.contains(t.b)
                &&& points.contains(t.c)
                &&& !pair.0.touches(t.a)
                &&& !pair.0.touches(t.b)
                &&& !pair.0.touches(t.c)
            } by {
                let t = pair.1[i];
                assert(pair.1.contains(t));
                all.lemma_filter_contains_rev(clear_of(scaffold), t);
                all.lemma_filter_pred(clear_of(scaffold), i);
                let j = choose|j: int| 0 <= j < all.len() && all[j] == t;
                assert(built_on(all[j], scaffold, u));
                assert(clear_of(scaffold)(t));
                assert(u.contains(t.a) && u.contains(t.b) && u.contains(t.c));
            }
        },
    }
}

/// All three vertices of `t` come before `q` in the order of points.
pub open spec fn older_than(t: Triangle, q: Point) -> bool {
    t.a.precedes(q) && t.b.precedes(q) && t.c.precedes(q)
}

/// After points have been inserted in increasing order, no triangle holds
/// in its circumcircle a point that was inserted after all its vertices:
/// such a point would have removed the triangle.
pub proof fn lemma_insert_all_keeps_later_points_out(
    ts: Seq<Triangle>,
    points: Seq<Point>,
    t: Triangle,
    j: int,
)
    requires
        strictly_increasing(points),
        insert_all(ts, points).contains(t),
        0 <= j < points.len(),
        t.encloses(points[j]),
    ensures
        !older_than(t, points[j]),
    decreases points.len(),
{
    let front = points.drop_last();
    let p = points.last();
    let before = insert_all(ts, front);
    let kept = before.filter(not_enclosing(p));
    let new = fan(cavity_boundary(before.filter(enclosing(p))), p);
    let k = choose|k: int| 0 <= k < insert_all(ts, points).len() && insert_all(ts, points)[k] == t;
    if k < kept.len() {
        assert(kept[k] == t);
        before.lemma_filter_pred(not_enclosing(p), k);
        assert(!t.encloses(p));
        assert(j < points.len() - 1);
        assert(kept.contains(t));
        before.lemma_filter_contains_rev(not_enclosing(p), t);
        assert(strictly_increasing(front)) by {
            assert forall|a: int, b: int| 0 <= a < b < front.len() implies (#[trigger] front[a]).precedes(
                #[trigger] front[b],
            ) by {
                assert(points[a].precedes(points[b]));
            }
        }
        assert(front[j] == points[j]);
        lemma_insert_all_keeps_later_points_out(ts, front, t, j);
    } else {
        assert(new[k - kept.len()] == t);
        assert(new.contains(t));
        lemma_fan_members(cavity_boundary(before.filter(enclosing(p))), p, t);
        assert(t.c == p);
        if j < points.len() - 1 {
            assert(points[j].precedes(points[points.len() - 1]));
        }
    }
}

/// No input point that comes after all three vertices of a triangle of the
/// triangulation, in the order of points, lies inside or on the circumcircle
/// of that triangle.
pub proof fn lemma_later_points_lie_outside(points: Seq<Point>, q: Point)
    requires
        points.contains(q),
    ensures
        triangulation_of(points) matches Some(pair) ==> forall|i: int|
            0 <= i < pair.1.len() && older_than(#[trigger] pair.1[i], q) ==> !pair.1[i].encloses(
                q,
            ),
{
    match triangulation_of(points) {
        None => {},
        Some(pair) => {
            let u = lemma_sorted_unique_exists(points);
            let scaffold = pair.0;
            let all = insert_all(seq![scaffold], u);
            assert(u.contains(q));
            let j = choose|j: int| 0 <= j < u.len() && u[j] == q;
            assert forall|i: int|
                0 <= i < pair.1.len() && older_than(
                    #[trigger] pair.1[i],
                    q,
                ) implies !pair.1[i].encloses(q) by {
                let t = pair.1[i];
                assert(pair.1.contains(t));
                all.lemma_filter_contains_rev(clear_of(scaffold), t);
                if t.encloses(q) {
                    lemma_insert_all_keeps_later_points_out(seq![scaffold], u, t, j);
                }
            }
        },
    }
}

/// The circumradius is at least half of each side: four times its square
/// is at least the squared distance between two points at that distance
/// from the circumcenter. All is scaled by the square of the determinant.
pub proof fn lemma_diameter_spans(a: Point, b: Point, c: Point, p: Point, q: Point)
    requires
        offset_squared(a, b, c, p) == offset_squared(a, b, c, a),
        offset_squared(a, b, c, q) == offset_squared(a, b, c, a),
    ensures
        p.distance_squared_to(q) * (circum_det(a, b, c) * circum_det(a, b, c)) <= 4
            * offset_squared(a, b, c, a),
{
    let d = circum_det(a, b, c);
    let ux = circum_x(a, b, c);
    let uy = circum_y(a, b, c);
    let px = ux - p.x * d;
    let py = uy - p.y * d;
    let qx = ux - q.x * d;
    let qy = uy - q.y * d;
    lemma_parallelogram(qx, px);
    lemma_parallelogram(qy, py);
    lemma_scaled_step(ux, q.x as int, p.x as int, d);
    lemma_scaled_step(uy, q.y as int, p.y as int, d);
    lemma_square_of_product(p.x - q.x, d);
    lemma_square_of_product(p.y - q.y, d);
    lemma_sum_times((p.x - q.x) * (p.x - q.x), (p.y - q.y) * (p.y - q.y), d * d);
}

/// Two unit steps with a cross product that is not zero are perpendicular,
/// so their difference has the squared length two.
proof fn lemma_small_products(v1: int, v2: int, w1: int, w2: int)
    requires
        -1 <= v1 <= 1,
        -1 <= v2 <= 1,
        -1 <= w1 <= 1,
        -1 <= w2 <= 1,
        v1 == 0 || v2 == 0,
        w1 == 0 || w2 == 0,
        v1 * w2 - v2 * w1 != 0,
    ensures
        (v1 - w1) * (v1 - w1) + (v2 - w2) * (v2 - w2) == 2,
{
    if v1 == 0 {
        assert(v1 * w2 == 0);
        if w2 == 0 {
            assert(v2 * w1 != 0);
            assert((v1 - w1) * (v1 - w1) == 1) by (nonlinear_arith)
                requires
                    v1 == 0,
                    -1 <= w1 <= 1,
                    w1 != 0,
            ;
            assert((v2 - w2) * (v2 - w2) == 1) by (nonlinear_arith)
                requires
                    w2 == 0,
                    -1 <= v2 <= 1,
                    v2 != 0,
            ;
        } else {
            assert(w1 == 0);
            assert(v2 * w1 == 0);
        }
    } else {
        assert(v2 == 0);
        assert(v2 * w1 == 0);
        if w1 == 0 {
            assert(v1 * w2 != 0);
            assert((v1 - w1) * (v1 - w1) == 1) by (nonlinear_arith)
                requires
                    w1 == 0,
                    -1 <= v1 <= 1,
                    v1 != 0,
            ;
            assert((v2 - w2) * (v2 - w2) == 1) by (nonlinear_arith)
                requires
                    v2 == 0,
                    -1 <= w2 <= 1,
                    w2 != 0,
            ;
        } else {
            assert(w2 == 0);
            assert(v1 * w2 == 0);
        }
    }
}

/// Half the determinant as the cross product of the two sides from `a`.
proof fn lemma_det_of_steps(ax: int, ay: int, bx: int, by: int, cx: int, cy: int)
    by (nonlinear_arith)
    ensures
        ax * (by - cy) + bx * (cy - ay) + cx * (ay - by) == (bx - ax) * (cy - ay) - (by - ay) * (cx
            - ax),
{
}

/// The difference of the steps from `a` to `b` and from `a` to `c` is the
/// step from `c` to `b`.
proof fn lemma_step_difference(v1: int, w1: int, ax: int, bx: int, cx: int)
    requires
        v1 == bx - ax,
        w1 == cx - ax,
    ensures
        (v1 - w1) * (v1 - w1) == (bx - cx) * (bx - cx),
{
}

/// A triangle on lattice points has a side of squared length two or more.
pub proof fn lemma_lattice_triangle_has_long_side(a: Point, b: Point, c: Point)
    requires
        circum_det(a, b, c) != 0,
    ensures
        a.distance_squared_to(b) >= 2 || a.distance_squared_to(c) >= 2 || b.distance_squared_to(c)
            >= 2,
{
    let v1 = b.x - a.x;
    let v2 = b.y - a.y;
    let w1 = c.x - a.x;
    let w2 = c.y - a.y;
    lemma_det_of_steps(a.x as int, a.y as int, b.x as int, b.y as int, c.x as int, c.y as int);
    assert(v1 * w2 - v2 * w1 != 0);
    lemma_square_of_opposite(a.x - b.x);
    lemma_square_of_opposite(a.y - b.y);
    lemma_square_of_opposite(a.x - c.x);
    lemma_square_of_opposite(a.y - c.y);
    if a.distance_squared_to(b) <= 1 && a.distance_squared_to(c) <= 1 {
        lemma_unit_steps(v1, v2);
        lemma_unit_steps(w1, w2);
        lemma_small_products(v1, v2, w1, w2);
        lemma_step_difference(v1, w1, a.x as int, b.x as int, c.x as int);
        lemma_step_difference(v2, w2, a.y as int, b.y as int, c.y as int);
    }
}

/// From `len m <= 4 n` with `len` two or more follows `m <= 2 n`.
proof fn lemma_long_side_bounds_radius(len: int, m: int, n: int)
    by (nonlinear_arith)
    requires
        len >= 2,
        m >= 0,
        len * m <= 4 * n,
    ensures
        m <= 2 * n,
{
}

/// A ratio `n / m` of a half or more is larger than `(q / p)^2` where
/// `(p / q)^2` is larger than two.
proof fn lemma_above_threshold(n: int, m: int, p: int, q: int)
    requires
        m > 0,
        m <= 2 * n,
        p > 0,
        q > 0,
        p * p > 2 * (q * q),
    ensures
        n * (p * p) > m * (q * q),
{
    assert(m * (q * q) <= (2 * n) * (q * q)) by (nonlinear_arith)
        requires
            m <= 2 * n,
            q > 0,
    ;
    assert((2 * n) * (q * q) == n * (2 * (q * q))) by (nonlinear_arith);
    assert(n * (2 * (q * q)) < n * (p * p)) by (nonlinear_arith)
        requires
            n > 0,
            2 * (q * q) < p * p,
    ;
}

/// The squared circumradius of a triangle on lattice points is a half or
/// more, so for an alpha whose square is larger than two no triangle is
/// kept.
pub proof fn lemma_large_alpha_drops_triangle(t: Triangle, alpha: Alpha)
    requires
        circum_det(t.a, t.b, t.c) != 0,
        alpha.is_positive(),
        alpha.num * alpha.num > 2 * (alpha.den * alpha.den),
    ensures
        !radius_within(t, alpha),
{
    let d = circum_det(t.a, t.b, t.c);
    let n = offset_squared(t.a, t.b, t.c, t.a);
    let m = d * d;
    lemma_circumcenter_equidistant(t.a, t.b, t.c);
    lemma_diameter_spans(t.a, t.b, t.c, t.a, t.b);
    lemma_diameter_spans(t.a, t.b, t.c, t.a, t.c);
    lemma_diameter_spans(t.a, t.b, t.c, t.b, t.c);
    lemma_lattice_triangle_has_long_side(t.a, t.b, t.c);
    assert(m > 0) by (nonlinear_arith)
        requires
            d != 0,
            m == d * d,
    ;
    if t.a.distance_squared_to(t.b) >= 2 {
        lemma_long_side_bounds_radius(t.a.distance_squared_to(t.b), m, n);
    } else if t.a.distance_squared_to(t.c) >= 2 {
        lemma_long_side_bounds_radius(t.a.distance_squared_to(t.c), m, n);
    } else {
        lemma_long_side_bounds_radius(t.b.distance_squared_to(t.c), m, n);
    }
    lemma_above_threshold(n, m, alpha.num as int, alpha.den as int);
}

/// Filtering by a predicate that holds of no element leaves nothing.
proof fn lemma_filter_none<A>(s: Seq<A>, pred: spec_fn(A) -> bool)
    requires
        forall|i: int| 0 <= i < s.len() ==> !pred(#[trigger] s[i]),
    ensures
        s.filter(pred).len() == 0,
    decreases s.len(),
{
    reveal(Seq::filter);
    if s.len() > 0 {
        let s0 = s.drop_last();
        assert forall|i: int| 0 <= i < s0.len() implies !pred(#[trigger] s0[i]) by {
            assert(s0[i] == s[i]);
        }
        lemma_filter_none(s0, pred);
        assert(s.last() == s[s.len() - 1]);
    }
}

/// For an alpha whose square is larger than two, no triangle of any
/// triangulation is kept.
pub proof fn lemma_large_alpha_keeps_nothing(points: Seq<Point>, alpha: Alpha)
    requires
        alpha.is_positive(),
        alpha.num * alpha.num > 2 * (alpha.den * alpha.den),
    ensures
        alpha_triangles(points, alpha).len() == 0,
{
    match triangulation_of(points) {
        None => {},
        Some(pair) => {
            lemma_triangles_join_input_points(points);
            assert forall|i: int| 0 <= i < pair.1.len() implies !within_radius(alpha)(
                #[trigger] pair.1[i],
            ) by {
                lemma_large_alpha_drops_triangle(pair.1[i], alpha);
            }
            lemma_filter_none(pair.1, within_radius(alpha));
        },
    }
}

/// The largest squared circumradius within range is at most the square of
/// two to the power 62.
proof fn lemma_below_threshold(n: int, m: int, q: int)
    by (nonlinear_arith)
    requires
        0 <= n <= 0x1200_0000_0000_0000_0000_0000_0000_0000,
        m >= 4,
        q >= 0x4000_0000_0000_0000,
    ensures
        n * (1 * 1) <= m * (q * q),
{
}

/// Alpha can be so small that a triangle within range is kept whatever its
/// shape.
pub proof fn lemma_small_alpha_keeps_triangle(t: Triangle, alpha: Alpha)
    requires
        t.a.valid(),
        t.b.valid(),
        t.c.valid(),
        circum_det(t.a, t.b, t.c) != 0,
        alpha.num == 1,
        alpha.den >= 0x4000_0000_0000_0000,
    ensures
        radius_within(t, alpha),
{
    let h = t.a.x * (t.b.y - t.c.y) + t.b.x * (t.c.y - t.a.y) + t.c.x * (t.a.y - t.b.y);
    lemma_even_square(h);
    lemma_offset_bounds(t.a, t.b, t.c, t.a);
    lemma_below_threshold(
        offset_squared(t.a, t.b, t.c, t.a),
        circum_det(t.a, t.b, t.c) * circum_det(t.a, t.b, t.c),
        alpha.den as int,
    );
}

/// Filtering by a predicate that holds of every element changes nothing.
proof fn lemma_filter_all<A>(s: Seq<A>, pred: spec_fn(A) -> bool)
    requires
        forall|i: int| 0 <= i < s.len() ==> pred(#[trigger] s[i]),
    ensures
        s.filter(pred) == s,
    decreases s.len(),
{
    reveal(Seq::filter);
    if s.len() > 0 {
        let s0 = s.drop_last();
        assert forall|i: int| 0 <= i < s0.len() implies pred(#[trigger] s0[i]) by {
            assert(s0[i] == s[i]);
        }
        lemma_filter_all(s0, pred);
        assert(s.last() == s[s.len() - 1]);
        assert(s0.push(s.last()) =~= s);
    } else {
        assert(s.filter(pred) =~= s);
    }
}

/// For alpha small enough, every triangle of a triangulation is kept.
pub proof fn lemma_small_alpha_keeps_all(points: Seq<Point>, alpha: Alpha)
    requires
        all_in_input_range(points),
        alpha.num == 1,
        alpha.den >= 0x4000_0000_0000_0000,
    ensures
        triangulation_of(points) matches Some(pair) ==> alpha_triangles(points, alpha) == pair.1,
{
    match triangulation_of(points) {
        None => {},
        Some(pair) => {
            lemma_triangles_join_input_points(points);
            assert forall|i: int| 0 <= i < pair.1.len() implies within_radius(alpha)(
                #[trigger] pair.1[i],
            ) by {
                let t = pair.1[i];
                let ia = choose|k: int| 0 <= k < points.len() && points[k] == t.a;
                let ib = choose|k: int| 0 <= k < points.len() && points[k] == t.b;
                let ic = choose|k: int| 0 <= k < points.len() && points[k] == t.c;
                assert(in_input_range(points[ia]));
                assert(in_input_range(points[ib]));
                assert(in_input_range(points[ic]));
                lemma_small_alpha_keeps_triangle(t, alpha);
            }
            lemma_filter_all(pair.1, within_radius(alpha));
        },
    }
}

/// Appending an element that a sequence without repetition does not hold
/// gives a sequence without repetition.
proof fn lemma_push_distinct<A>(s: Seq<A>, x: A)
    requires
        s.no_duplicates(),
        !s.contains(x),
    ensures
        s.push(x).no_duplicates(),
{
    let w = s.push(x);
    assert forall|i: int, j: int| 0 <= i < w.len() && 0 <= j < w.len() && i != j implies w[i]
        != w[j] by {
        if i < s.len() && j < s.len() {
            assert(s[i] != s[j]);
        } else if i < s.len() {
            assert(s.contains(s[i]));
        } else {
            assert(s.contains(s[j]));
        }
    }
}

/// Filtering a sequence without repetition leaves a sequence without
/// repetition.
proof fn lemma_filter_distinct<A>(s: Seq<A>, pred: spec_fn(A) -> bool)
    requires
        s.no_duplicates(),
    ensures
        s.filter(pred).no_duplicates(),
    decreases s.len(),
{
    reveal(Seq::filter);
    if s.len() > 0 {
        let s0 = s.drop_last();
        let x = s.last();
        assert(s0.no_duplicates()) by {
            assert forall|i: int, j: int|
                0 <= i < s0.len() && 0 <= j < s0.len() && i != j implies s0[i] != s0[j] by {
                assert(s[i] != s[j]);
            }
        }
        lemma_filter_distinct(s0, pred);
        if pred(x) {
            if s0.filter(pred).contains(x) {
                s0.lemma_filter_contains_rev(pred, x);
                let i = choose|i: int| 0 <= i < s0.len() && s0[i] == x;
                assert(s[i] == s[s.len() - 1]);
            }
            lemma_push_distinct(s0.filter(pred), x);
        }
    }
}

/// An edge that a sequence holds occurs in it once or more.
proof fn lemma_member_occurs(es: Seq<Edge>, e: Edge)
    requires
        es.contains(e),
    ensures
        occurrences(es, e) >= 1,
    decreases es.len(),
{
    if es.len() > 0 && es.last() != e {
        let i = choose|i: int| 0 <= i < es.len() && es[i] == e;
        assert(es.drop_last()[i] == e);
        lemma_member_occurs(es.drop_last(), e);
    }
}

/// An edge occurs in the beginning of a sequence no more often than in
/// all of it.
proof fn lemma_occurrences_grow(es: Seq<Edge>, k: int, e: Edge)
    requires
        0 <= k <= es.len(),
    ensures
        occurrences(es.take(k), e) <= occurrences(es, e),
    decreases es.len(),
{
    if k == es.len() {
        assert(es.take(k) =~= es);
    } else {
        assert(es.drop_last().take(k) =~= es.take(k));
        lemma_occurrences_grow(es.drop_last(), k, e);
    }
}

/// The edges that occur once, taken from the beginning of the sequence,
/// are all different.
proof fn lemma_once_filter_distinct(es: Seq<Edge>, k: int)
    requires
        0 <= k <= es.len(),
    ensures
        es.take(k).filter(occurs_once(es)).no_duplicates(),
    decreases k,
{
    if k == 0 {
        assert(es.take(0).filter(occurs_once(es)).len() == 0) by {
            reveal(Seq::filter);
        }
    } else {
        let x = es[k - 1];
        let before = es.take(k - 1).filter(occurs_once(es));
        lemma_once_filter_distinct(es, k - 1);
        lemma_filter_take_step(es, k - 1, occurs_once(es));
        if occurs_once(es)(x) {
            if before.contains(x) {
                es.take(k - 1).lemma_filter_contains_rev(occurs_once(es), x);
                lemma_member_occurs(es.take(k - 1), x);
                assert(es.take(k).drop_last() =~= es.take(k - 1));
                assert(es.take(k).last() == x);
                assert(occurrences(es.take(k), x) >= 2);
                lemma_occurrences_grow(es, k, x);
            }
            lemma_push_distinct(before, x);
        }
    }
}

/// The triangles that join a point to different edges are different.
proof fn lemma_fan_distinct(es: Seq<Edge>, p: Point)
    requires
        es.no_duplicates(),
    ensures
        fan(es, p).no_duplicates(),
    decreases es.len(),
{
    if es.len() > 0 {
        let es0 = es.drop_last();
        let e = es.last();
        assert(es0.no_duplicates()) by {
            assert forall|i: int, j: int|
                0 <= i < es0.len() && 0 <= j < es0.len() && i != j implies es0[i] != es0[j] by {
                assert(es[i] != es[j]);
            }
        }
        lemma_fan_distinct(es0, p);
        match Triangle::spec_new(e.a, e.b, p) {
            None => {},
            Some(t) => {
                if fan(es0, p).contains(t) {
                    lemma_fan_members(es0, p, t);
                    let i = choose|i: int|
                        0 <= i < es0.len() && Triangle::spec_new(
                            (#[trigger] es0[i]).a,
                            es0[i].b,
                            p,
                        ) == Some(t);
                    assert(es0[i].a == e.a && es0[i].b == e.b);
                    assert(es[i] == es[es.len() - 1]);
                }
                lemma_push_distinct(fan(es0, p), t);
            },
        }
    }
}

/// Inserting a new point into different triangles gives different
/// triangles.
proof fn lemma_insert_point_distinct(
    ts: Seq<Triangle>,
    p: Point,
    scaffold: Triangle,
    points: Seq<Point>,
)
    requires
        ts.no_duplicates(),
        forall|i: int| 0 <= i < ts.len() ==> built_on(#[trigger] ts[i], scaffold, points),
        !scaffold.touches(p),
        !points.contains(p),
    ensures
        insert_point(ts, p).no_duplicates(),
{
    let kept = ts.filter(not_enclosing(p));
    let bad = ts.filter(enclosing(p));
    let es = canonical_edges(bad);
    let boundary = cavity_boundary(bad);
    let new = fan(boundary, p);
    lemma_filter_distinct(ts, not_enclosing(p));
    lemma_once_filter_distinct(es, es.len() as int);
    assert(es.take(es.len() as int) =~= es);
    lemma_fan_distinct(boundary, p);
    assert forall|i: int, j: int| 0 <= i < kept.len() && 0 <= j < new.len() implies kept[i]
        != new[j] by {
        assert(new.contains(new[j]));
        lemma_fan_members(boundary, p, new[j]);
        assert(new[j].c == p);
        assert(kept.contains(kept[i]));
        ts.lemma_filter_contains_rev(not_enclosing(p), kept[i]);
        let k = choose|k: int| 0 <= k < ts.len() && ts[k] == kept[i];
        assert(built_on(ts[k], scaffold, points));
    }
    vstd::seq_lib::lemma_no_dup_in_concat(kept, new);
}

/// Inserting different points, none of them a vertex of the scaffold, one
/// after the other gives different triangles.
proof fn lemma_insert_all_distinct(scaffold: Triangle, points: Seq<Point>)
    requires
        circum_det(scaffold.a, scaffold.b, scaffold.c) != 0,
        strictly_increasing(points),
        forall|j: int| 0 <= j < points.len() ==> !scaffold.touches(#[trigger] points[j]),
    ensures
        insert_all(seq![scaffold], points).no_duplicates(),
    decreases points.len(),
{
    if points.len() == 0 {
        assert(insert_all(seq![scaffold], points) =~= seq![scaffold]);
    } else {
        let front = points.drop_last();
        let p = points.last();
        assert(strictly_increasing(front)) by {
            assert forall|a: int, b: int| 0 <= a < b < front.len() implies (#[trigger] front[a]).precedes(
                #[trigger] front[b],
            ) by {
                assert(points[a].precedes(points[b]));
            }
        }
        assert forall|j: int| 0 <= j < front.len() implies !scaffold.touches(
            #[trigger] front[j],
        ) by {
            assert(front[j] == points[j]);
        }
        lemma_insert_all_distinct(scaffold, front);
        lemma_insert_all_builds_on(scaffold, front);
        assert(!front.contains(p)) by {
            if front.contains(p) {
                let i = choose|i: int| 0 <= i < front.len() && front[i] == p;
                assert(points[i].precedes(points[points.len() - 1]));
            }
        }
        assert(!scaffold.touches(points[points.len() - 1]));
        lemma_insert_point_distinct(insert_all(seq![scaffold], front), p, scaffold, front);
    }
}

/// No triangle occurs twice in a triangulation, so no two shapes made of
/// its triangles have a triangle in common.
pub proof fn lemma_triangles_are_distinct(points: Seq<Point>)
    requires
        all_in_input_range(points),
    ensures
        triangulation_of(points) matches Some(pair) ==> pair.1.no_duplicates(),
        forall|alpha: Alpha| (#[trigger] alpha_triangles(points, alpha)).no_duplicates(),
{
    match triangulation_of(points) {
        None => {
            assert forall|alpha: Alpha| (#[trigger] alpha_triangles(
                points,
                alpha,
            )).no_duplicates() by {}
        },
        Some(pair) => {
            let u = lemma_sorted_unique_exists(points);
            let scaffold = pair.0;
            let bb = bounding_box_of(u);
            lemma_bounding_box_is_tight(u);
            assert forall|j: int| 0 <= j < u.len() implies in_input_range(#[trigger] u[j]) by {
                assert(u.contains(u[j]));
                assert(points.contains(u[j]));
                let k = choose|k: int| 0 <= k < points.len() && points[k] == u[j];
                assert(in_input_range(points[k]));
            }
            let i0 = choose|i: int| 0 <= i < u.len() && (#[trigger] u[i]).x == bb.lower.x;
            let i1 = choose|i: int| 0 <= i < u.len() && (#[trigger] u[i]).y == bb.lower.y;
            let i2 = choose|i: int| 0 <= i < u.len() && (#[trigger] u[i]).x == bb.upper.x;
            let i3 = choose|i: int| 0 <= i < u.len() && (#[trigger] u[i]).y == bb.upper.y;
            assert(in_input_range(u[i0]) && in_input_range(u[i1]) && in_input_range(u[i2])
                && in_input_range(u[i3]));
            assert(bb.holds(u[i0]) && bb.holds(u[i3]));
            assert(u[0].precedes(u[1]));
            assert(bb.holds(u[0]) && bb.holds(u[1]));
            lemma_circumcenter_equidistant(scaffold.a, scaffold.b, scaffold.c);
            assert forall|j: int| 0 <= j < u.len() implies !scaffold.touches(#[trigger] u[j]) by {
                assert(bb.holds(u[j]));
                lemma_scaffold_encloses(bb, u[j]);
            }
            lemma_insert_all_distinct(scaffold, u);
            lemma_filter_distinct(insert_all(seq![scaffold], u), clear_of(scaffold));
            assert forall|alpha: Alpha| (#[trigger] alpha_triangles(
                points,
                alpha,
            )).no_duplicates() by {
                lemma_filter_distinct(pair.1, within_radius(alpha));
            }
        },
    }
}

} // verus!
