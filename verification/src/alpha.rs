//! Alpha shapes: the triangles of a Delaunay triangulation whose circumcircle
//! is small enough, grouped into connected shapes.

use vstd::prelude::*;
use crate::delaunay::{all_wf, triangulate, triangulation_of};
use crate::partition::lemma_components_are_unique;
use crate::scaffold::all_in_input_range;
use crate::sequences::lemma_filter_take_step;
use crate::shape::Shape2D;
use crate::point::Point;
use crate::triangle::{circum_det, lemma_offset_bounds, offset_squared, Triangle};
use crate::unique::sorted_unique;
use crate::wide::product_le;

verus! {

/// The parameter of an alpha shape, the fraction `num / den`. A triangle
/// belongs to the shape when its circumradius is at most `den / num`.
#[derive(Debug, Clone, Copy, PartialEq, Eq, Structural)]
pub struct Alpha {
    pub num: i64,
    pub den: i64,
}

impl Alpha {
    /// Numerator and denominator are both positive.
    pub open spec fn is_positive(self) -> bool {
        self.num > 0 && self.den > 0
    }

    /// `self` is at most `other`, both positive.
    pub open spec fn at_most(self, other: Alpha) -> bool {
        self.num * other.den <= other.num * self.den
    }

    /// The fraction `num / den`.
    pub fn new(num: i64, den: i64) -> (r: Alpha)
        ensures
            r.num == num,
            r.den == den,
    {
        Alpha { num, den }
    }
}

/// The squared circumradius of `t` is at most the square of `1 / alpha`.
pub open spec fn radius_within(t: Triangle, alpha: Alpha) -> bool {
    offset_squared(t.a, t.b, t.c, t.a) * (alpha.num * alpha.num) <= (circum_det(t.a, t.b, t.c)
        * circum_det(t.a, t.b, t.c)) * (alpha.den * alpha.den)
}

/// The triangles whose circumradius is at most `1 / alpha`.
pub open spec fn within_radius(alpha: Alpha) -> spec_fn(Triangle) -> bool {
    |t: Triangle| radius_within(t, alpha)
}

/// The two triangles have a side in common.
pub open spec fn shares_edge(s: Triangle, t: Triangle) -> bool {
    exists|i: int, j: int|
        0 <= i < 3 && 0 <= j < 3 && #[trigger] s.canonical_edge_seq()[i]
            == #[trigger] t.canonical_edge_seq()[j]
}

/// The triangles at `i` and `j` are two different entries of `ts` with a
/// side in common.
pub open spec fn adjacent(ts: Seq<Triangle>, i: int, j: int) -> bool {
    &&& 0 <= i < ts.len()
    &&& 0 <= j < ts.len()
    &&& i != j
    &&& shares_edge(ts[i], ts[j])
}

/// `list` holds the indices of the triangles adjacent to the one at `i`,
/// each once, in increasing order.
pub open spec fn is_neighbour_list(ts: Seq<Triangle>, i: int, list: Seq<usize>) -> bool {
    &&& forall|a: int, b: int| 0 <= a < b < list.len() ==> #[trigger] list[a] < #[trigger] list[b]
    &&& forall|a: int| 0 <= a < list.len() ==> adjacent(ts, i, #[trigger] list[a] as int)
    &&& forall|j: int| #[trigger] adjacent(ts, i, j) ==> in_group(list, j)
}

/// `j` is one of the entries of `g`.
pub open spec fn in_group(g: Seq<usize>, j: int) -> bool {
    exists|m: int| 0 <= m < g.len() && #[trigger] g[m] == j
}

/// The groups as sequences.
pub open spec fn views(groups: Seq<Vec<usize>>) -> Seq<Seq<usize>> {
    Seq::new(groups.len(), |k: int| groups[k]@)
}

/// `m` is a position in group `k`.
pub open spec fn has_entry(gs: Seq<Seq<usize>>, k: int, m: int) -> bool {
    0 <= k < gs.len() && 0 <= m < gs[k].len()
}

/// `x` is an entry of one of the groups.
pub open spec fn occurs_in(gs: Seq<Seq<usize>>, x: int) -> bool {
    exists|k: int, m: int| #[trigger] has_entry(gs, k, m) && gs[k][m] == x
}

/// The entry at `m0` is the first entry of the group that the entry at `m`
/// is adjacent to, and it comes before `m`: the walk discovers `m` from
/// `m0`.
pub open spec fn is_first_link(ts: Seq<Triangle>, g: Seq<usize>, m: int, m0: int) -> bool {
    &&& 0 <= m0 < m
    &&& adjacent(ts, g[m0] as int, g[m] as int)
    &&& forall|b: int| 0 <= b < m0 ==> !adjacent(ts, #[trigger] g[b] as int, g[m] as int)
}

/// The position from which the walk discovers the entry at `m`.
pub open spec fn first_link(ts: Seq<Triangle>, g: Seq<usize>, m: int) -> int {
    choose|m0: int| is_first_link(ts, g, m, m0)
}

/// The entry at `m` is discovered from an earlier entry of the group.
pub open spec fn linked_to_earlier(ts: Seq<Triangle>, g: Seq<usize>, m: int) -> bool {
    is_first_link(ts, g, m, first_link(ts, g, m))
}

/// The walk discovers the entry at `m1` before the one at `m2`: from an
/// earlier position, or from the same position and with the smaller index.
pub open spec fn discovered_before(ts: Seq<Triangle>, g: Seq<usize>, m1: int, m2: int) -> bool {
    let a = first_link(ts, g, m1);
    let b = first_link(ts, g, m2);
    a < b || (a == b && g[m1] < g[m2])
}

/// There is only one first link.
pub(crate) proof fn lemma_first_link_is(ts: Seq<Triangle>, g: Seq<usize>, m: int, m0: int)
    requires
        is_first_link(ts, g, m, m0),
    ensures
        first_link(ts, g, m) == m0,
        linked_to_earlier(ts, g, m),
{
    let c = first_link(ts, g, m);
    assert(is_first_link(ts, g, m, c));
    if c < m0 {
        assert(!adjacent(ts, g[c] as int, g[m] as int));
    } else if m0 < c {
        assert(!adjacent(ts, g[m0] as int, g[m] as int));
    }
}

/// Each group is a set of triangles that hang together and that no triangle
/// outside the group is adjacent to; no triangle is in two groups or twice
/// in one. A group starts with its smallest index and lists the others in
/// the order in which a breadth-first walk from there discovers them, and
/// the groups come in the order of their first indices.
pub open spec fn groups_sound(ts: Seq<Triangle>, gs: Seq<Seq<usize>>) -> bool {
    &&& forall|k: int, m: int| #[trigger] has_entry(gs, k, m) ==> gs[k][m] < ts.len()
    &&& forall|k1: int, m1: int, k2: int, m2: int|
        #[trigger] has_entry(gs, k1, m1) && #[trigger] has_entry(gs, k2, m2) && gs[k1][m1]
            == gs[k2][m2] ==> k1 == k2 && m1 == m2
    &&& forall|k: int| 0 <= k < gs.len() ==> (#[trigger] gs[k]).len() > 0
    &&& forall|k: int, m: int|
        #[trigger] has_entry(gs, k, m) && m >= 1 ==> linked_to_earlier(ts, gs[k], m)
    &&& forall|k: int, m: int, j: int|
        #[trigger] has_entry(gs, k, m) && #[trigger] adjacent(ts, gs[k][m] as int, j) ==> in_group(
            gs[k],
            j,
        )
    &&& forall|k: int, m: int| #[trigger] has_entry(gs, k, m) && m >= 1 ==> gs[k][0] < gs[k][m]
    &&& forall|k1: int, k2: int|
        0 <= k1 < k2 < gs.len() ==> (#[trigger] gs[k1])[0] < (#[trigger] gs[k2])[0]
    &&& forall|k: int, m1: int, m2: int|
        #[trigger] has_entry(gs, k, m1) && #[trigger] has_entry(gs, k, m2) && 1 <= m1 < m2
            ==> discovered_before(ts, gs[k], m1, m2)
}

/// The groups are the connected components of the adjacency among `ts`:
/// sound groups that leave no triangle out.
pub open spec fn is_component_partition(ts: Seq<Triangle>, gs: Seq<Seq<usize>>) -> bool {
    &&& groups_sound(ts, gs)
    &&& forall|x: int| 0 <= x < ts.len() ==> #[trigger] occurs_in(gs, x)
}

/// The triangles that the indices of a group stand for.
pub open spec fn triangles_at(ts: Seq<Triangle>, g: Seq<usize>) -> Seq<Triangle> {
    Seq::new(g.len(), |m: int| ts[g[m] as int])
}

/// The split of the triangles into connected components. There is one and
/// only one.
pub open spec fn components_of(ts: Seq<Triangle>) -> Seq<Seq<usize>> {
    choose|gs: Seq<Seq<usize>>| is_component_partition(ts, gs)
}

/// The shapes that the triangles form: the triangles of each component.
pub open spec fn shapes_of(ts: Seq<Triangle>) -> Seq<Seq<Triangle>> {
    let gs = components_of(ts);
    Seq::new(gs.len(), |k: int| triangles_at(ts, gs[k]))
}

/// The triangles of each shape.
pub open spec fn shape_triangles(shapes: Seq<Shape2D>) -> Seq<Seq<Triangle>> {
    Seq::new(shapes.len(), |k: int| shapes[k].triangles@)
}

/// Having a side in common does not depend on the order of the two triangles.
pub proof fn lemma_shares_edge_symmetric(s: Triangle, t: Triangle)
    requires
        shares_edge(s, t),
    ensures
        shares_edge(t, s),
{
    let (i, j) = choose|i: int, j: int|
        0 <= i < 3 && 0 <= j < 3 && #[trigger] s.canonical_edge_seq()[i]
            == #[trigger] t.canonical_edge_seq()[j];
    assert(t.canonical_edge_seq()[j] == s.canonical_edge_seq()[i]);
}

/// How many entries of `v` are false.
spec fn unvisited_count(v: Seq<bool>) -> nat
    decreases v.len(),
{
    if v.len() == 0 {
        0
    } else {
        unvisited_count(v.drop_last()) + if v.last() {
            0nat
        } else {
            1nat
        }
    }
}

/// There are no more false entries than entries.
proof fn lemma_unvisited_count_bound(v: Seq<bool>)
    ensures
        unvisited_count(v) <= v.len(),
    decreases v.len(),
{
    if v.len() > 0 {
        lemma_unvisited_count_bound(v.drop_last());
    }
}

/// Setting a false entry leaves one false entry fewer.
proof fn lemma_mark_visited(v: Seq<bool>, j: int)
    requires
        0 <= j < v.len(),
        !v[j],
    ensures
        unvisited_count(v.update(j, true)) + 1 == unvisited_count(v),
    decreases v.len(),
{
    let w = v.update(j, true);
    if j == v.len() - 1 {
        assert(w.drop_last() =~= v.drop_last());
    } else {
        assert(w.drop_last() =~= v.drop_last().update(j, true));
        lemma_mark_visited(v.drop_last(), j);
    }
}

/// Adjacency does not depend on the order of the two triangles.
pub proof fn lemma_adjacent_symmetric(ts: Seq<Triangle>, i: int, j: int)
    requires
        adjacent(ts, i, j),
    ensures
        adjacent(ts, j, i),
{
    lemma_shares_edge_symmetric(ts[i], ts[j]);
}

/// A group that is complete and apart from the groups found so far can be
/// added to them.
proof fn lemma_extend_groups(ts: Seq<Triangle>, done: Seq<Seq<usize>>, g: Seq<usize>)
    requires
        groups_sound(ts, done),
        g.len() >= 1,
        forall|m: int| 0 <= m < g.len() ==> #[trigger] g[m] < ts.len(),
        forall|m1: int, m2: int| 0 <= m1 < m2 < g.len() ==> #[trigger] g[m1] != #[trigger] g[m2],
        forall|m: int| 0 <= m < g.len() ==> !occurs_in(done, #[trigger] g[m] as int),
        forall|m: int| 1 <= m < g.len() ==> #[trigger] linked_to_earlier(ts, g, m),
        forall|m: int, j: int|
            0 <= m < g.len() && #[trigger] adjacent(ts, g[m] as int, j) ==> in_group(g, j),
        forall|m: int| 1 <= m < g.len() ==> g[0] < #[trigger] g[m],
        forall|k: int| 0 <= k < done.len() ==> (#[trigger] done[k])[0] < g[0],
        forall|m1: int, m2: int|
            1 <= m1 < m2 < g.len() ==> #[trigger] discovered_before(ts, g, m1, m2),
    ensures
        groups_sound(ts, done.push(g)),
        forall|x: int| occurs_in(done.push(g), x) <==> (occurs_in(done, x) || in_group(g, x)),
{
    let gs = done.push(g);
    let last = done.len() as int;
    assert(gs[last] == g);
    assert forall|k: int, m: int| #[trigger] has_entry(gs, k, m) implies gs[k][m] < ts.len() by {
        if k < last {
            assert(has_entry(done, k, m));
        }
    }
    assert forall|k1: int, m1: int, k2: int, m2: int|
        #[trigger] has_entry(gs, k1, m1) && #[trigger] has_entry(gs, k2, m2) && gs[k1][m1]
            == gs[k2][m2] implies k1 == k2 && m1 == m2 by {
        if k1 < last && k2 < last {
            assert(has_entry(done, k1, m1) && has_entry(done, k2, m2));
        } else if k1 < last {
            assert(has_entry(done, k1, m1));
            assert(occurs_in(done, g[m2] as int));
        } else if k2 < last {
            assert(has_entry(done, k2, m2));
            assert(occurs_in(done, g[m1] as int));
        } else {
            if m1 < m2 {
                assert(g[m1] != g[m2]);
            } else if m2 < m1 {
                assert(g[m2] != g[m1]);
            }
        }
    }
    assert forall|k: int| 0 <= k < gs.len() implies (#[trigger] gs[k]).len() > 0 by {
        if k < last {
            assert(done[k].len() > 0);
        }
    }
    assert forall|k: int, m: int| #[trigger] has_entry(gs, k, m) && m >= 1 implies linked_to_earlier(
        ts,
        gs[k],
        m,
    ) by {
        if k < last {
            assert(has_entry(done, k, m));
        }
    }
    assert forall|k: int, m: int, j: int|
        #[trigger] has_entry(gs, k, m) && #[trigger] adjacent(ts, gs[k][m] as int, j) implies in_group(
        gs[k],
        j,
    ) by {
        if k < last {
            assert(has_entry(done, k, m));
        }
    }
    assert forall|k: int, m: int| #[trigger] has_entry(gs, k, m) && m >= 1 implies gs[k][0]
        < gs[k][m] by {
        if k < last {
            assert(has_entry(done, k, m));
        }
    }
    assert forall|k1: int, k2: int| 0 <= k1 < k2 < gs.len() implies (#[trigger] gs[k1])[0] < (
    #[trigger] gs[k2])[0] by {
        if k2 < last {
            assert(done[k1][0] < done[k2][0]);
        } else {
            assert(done[k1][0] < g[0]);
        }
    }
    assert forall|k: int, m1: int, m2: int|
        #[trigger] has_entry(gs, k, m1) && #[trigger] has_entry(gs, k, m2) && 1 <= m1
            < m2 implies discovered_before(ts, gs[k], m1, m2) by {
        if k < last {
            assert(has_entry(done, k, m1) && has_entry(done, k, m2));
        }
    }
    assert forall|x: int| occurs_in(gs, x) <==> (occurs_in(done, x) || in_group(g, x)) by {
        if occurs_in(gs, x) {
            let (k, m) = choose|k: int, m: int| #[trigger] has_entry(gs, k, m) && gs[k][m] == x;
            if k < last {
                assert(has_entry(done, k, m));
            } else {
                assert(g[m] == x);
            }
        }
        if occurs_in(done, x) {
            let (k, m) = choose|k: int, m: int| #[trigger] has_entry(done, k, m) && done[k][m] == x;
            assert(has_entry(gs, k, m));
        }
        if in_group(g, x) {
            let m = choose|m: int| 0 <= m < g.len() && #[trigger] g[m] == x;
            assert(has_entry(gs, last, m));
        }
    }
}

impl Triangle {
    /// Whether the two triangles have a side in common.
    pub fn shares_edge_with(&self, other: &Triangle) -> (r: bool)
        ensures
            r == shares_edge(*self, *other),
    {
        let s = self.edges();
        let t = other.edges();
        let s0 = s[0].canonical();
        let s1 = s[1].canonical();
        let s2 = s[2].canonical();
        let t0 = t[0].canonical();
        let t1 = t[1].canonical();
        let t2 = t[2].canonical();
        let r = s0 == t0 || s0 == t1 || s0 == t2 || s1 == t0 || s1 == t1 || s1 == t2 || s2 == t0
            || s2 == t1 || s2 == t2;
        proof {
            let a = self.canonical_edge_seq();
            let b = other.canonical_edge_seq();
            assert(a[0] == s0 && a[1] == s1 && a[2] == s2);
            assert(b[0] == t0 && b[1] == t1 && b[2] == t2);
            if r {
                let i: int = if s0 == t0 || s0 == t1 || s0 == t2 {
                    0
                } else if s1 == t0 || s1 == t1 || s1 == t2 {
                    1
                } else {
                    2
                };
                let j: int = if a[i] == t0 {
                    0
                } else if a[i] == t1 {
                    1
                } else {
                    2
                };
                assert(a[i] == b[j]);
            }
        }
        r
    }
}

/// The triangles that are left of a triangulation for one value of alpha,
/// and which of them are adjacent.
pub struct AlphaShape2D {
    pub alpha: Alpha,
    pub triangles: Vec<Triangle>,
    pub connections: Vec<Vec<usize>>,
}

impl AlphaShape2D {
    /// Alpha is positive and all the triangles are well formed.
    pub open spec fn wf(self) -> bool {
        self.alpha.is_positive() && all_wf(self.triangles@)
    }

    /// There is one list of neighbours for each triangle, and it is right.
    pub open spec fn graph_wf(self) -> bool {
        &&& self.connections@.len() == self.triangles@.len()
        &&& forall|i: int|
            0 <= i < self.triangles@.len() ==> is_neighbour_list(
                self.triangles@,
                i,
                (#[trigger] self.connections@[i])@,
            )
    }

    /// The triangles as they are, with nothing known of adjacency yet.
    pub fn new(triangles: Vec<Triangle>, alpha: Alpha) -> (r: AlphaShape2D)
        ensures
            r.alpha == alpha,
            r.triangles == triangles,
            r.connections@.len() == 0,
    {
        AlphaShape2D { alpha, triangles, connections: Vec::new() }
    }

    /// Drops the triangles whose circumradius is larger than `1 / alpha`,
    /// and with them whatever was known of adjacency.
    pub fn prune(&mut self)
        requires
            old(self).wf(),
        ensures
            final(self).wf(),
            final(self).alpha == old(self).alpha,
            final(self).triangles@ == old(self).triangles@.filter(within_radius(old(self).alpha)),
            final(self).connections@.len() == 0,
    {
        let ghost ts = self.triangles@;
        let alpha: Alpha = self.alpha;
        let num: i128 = alpha.num as i128;
        let den: i128 = alpha.den as i128;
        proof {
            crate::algebra::lemma_bounded_product(
                num as int,
                num as int,
                0x8000_0000_0000_0000,
                0x8000_0000_0000_0000,
            );
            crate::algebra::lemma_bounded_product(
                den as int,
                den as int,
                0x8000_0000_0000_0000,
                0x8000_0000_0000_0000,
            );
            crate::algebra::lemma_square_nonnegative(num as int);
            crate::algebra::lemma_square_nonnegative(den as int);
        }
        let num_sq: u128 = (num * num) as u128;
        let den_sq: u128 = (den * den) as u128;
        let mut keep: Vec<Triangle> = Vec::new();
        let n: usize = self.triangles.len();
        let mut i: usize = 0;
        while i < n
            invariant
                i <= n,
                n == ts.len(),
                self.triangles@ == ts,
                self.alpha == alpha,
                all_wf(ts),
                num_sq == alpha.num * alpha.num,
                den_sq == alpha.den * alpha.den,
                keep@ == ts.take(i as int).filter(within_radius(alpha)),
                all_wf(keep@),
            decreases n - i,
        {
            let t: Triangle = self.triangles[i];
            proof {
                lemma_filter_take_step(ts, i as int, within_radius(alpha));
                assert(t.wf());
                lemma_offset_bounds(t.a, t.b, t.c, t.a);
            }
            let r: crate::triangle::Ratio = t.circumcircle_radius_squared();
            if product_le(r.num as u128, num_sq, r.den as u128, den_sq) {
                keep.push(t);
            }
            i += 1;
        }
        proof {
            assert(ts.take(n as int) =~= ts);
        }
        self.triangles = keep;
        self.connections = Vec::new();
    }

    /// Finds, for each triangle, the triangles that have a side in common
    /// with it.
    pub fn build_connections_graph(&mut self)
        ensures
            final(self).alpha == old(self).alpha,
            final(self).triangles == old(self).triangles,
            final(self).graph_wf(),
    {
        let ghost ts = self.triangles@;
        let n: usize = self.triangles.len();
        let mut connections: Vec<Vec<usize>> = Vec::new();
        let mut i: usize = 0;
        while i < n
            invariant
                i <= n,
                n == ts.len(),
                self.triangles@ == ts,
                connections@.len() == i,
                forall|a: int|
                    0 <= a < i ==> is_neighbour_list(ts, a, (#[trigger] connections@[a])@),
            decreases n - i,
        {
            let mut list: Vec<usize> = Vec::new();
            let mut j: usize = 0;
            while j < n
                invariant
                    i < n,
                    j <= n,
                    n == ts.len(),
                    self.triangles@ == ts,
                    forall|a: int, b: int|
                        0 <= a < b < list@.len() ==> #[trigger] list@[a] < #[trigger] list@[b],
                    forall|a: int| 0 <= a < list@.len() ==> (#[trigger] list@[a]) < j,
                    forall|a: int|
                        0 <= a < list@.len() ==> adjacent(ts, i as int, #[trigger] list@[a] as int),
                    forall|x: int|
                        0 <= x < j && #[trigger] adjacent(ts, i as int, x) ==> in_group(list@, x),
                decreases n - j,
            {
                let ghost before = list@;
                if j != i && self.triangles[i].shares_edge_with(&self.triangles[j]) {
                    list.push(j);
                    proof {
                        assert(list@[before.len() as int] == j);
                    }
                }
                proof {
                    assert forall|x: int|
                        0 <= x < j + 1 && #[trigger] adjacent(ts, i as int, x) implies in_group(
                        list@,
                        x,
                    ) by {
                        if x < j {
                            assert(in_group(before, x));
                            let m = choose|m: int| 0 <= m < before.len() && #[trigger] before[m] == x;
                            assert(list@[m] == x);
                        }
                    }
                }
                j += 1;
            }
            proof {
                assert forall|x: int| #[trigger] adjacent(ts, i as int, x) implies in_group(
                    list@,
                    x,
                ) by {}
            }
            connections.push(list);
            i += 1;
        }
        self.connections = connections;
    }

    /// Groups the triangles into connected components. Each component is
    /// found by a breadth-first walk from its first triangle, and lists
    /// its triangles in the order in which the walk discovers them.
    pub fn components(&self) -> (groups: Vec<Vec<usize>>)
        requires
            self.graph_wf(),
        ensures
            is_component_partition(self.triangles@, views(groups@)),
            views(groups@) == components_of(self.triangles@),
    {
        let ghost ts = self.triangles@;
        let n: usize = self.triangles.len();
        let mut visited: Vec<bool> = vec![false; n];
        let mut groups: Vec<Vec<usize>> = Vec::new();
        let mut i: usize = 0;
        proof {
            assert(views(groups@) =~= Seq::<Seq<usize>>::empty());
        }
        while i < n
            invariant
                i <= n,
                n == ts.len(),
                self.triangles@ == ts,
                self.graph_wf(),
                visited@.len() == n,
                groups_sound(ts, views(groups@)),
                forall|x: int| 0 <= x < n ==> (visited@[x] <==> occurs_in(views(groups@), x)),
                forall|x: int| 0 <= x < i ==> visited@[x],
                forall|k: int|
                    0 <= k < views(groups@).len() ==> (#[trigger] views(groups@)[k])[0] < i,
            decreases n - i,
        {
            if !visited[i] {
                let ghost done = views(groups@);
                let mut order: Vec<usize> = Vec::new();
                order.push(i);
                proof {
                    lemma_unvisited_count_bound(visited@);
                    lemma_mark_visited(visited@, i as int);
                }
                visited.set(i, true);
                let mut head: usize = 0;
                let ghost mut parent: Seq<int> = seq![0int];
                proof {
                    assert(order@[0] == i);
                    assert forall|x: int| 0 <= x < n implies (visited@[x] <==> (occurs_in(done, x)
                        || in_group(order@, x))) by {
                        if in_group(order@, x) {
                            let m = choose|m: int| 0 <= m < order@.len() && #[trigger] order@[m] == x;
                        }
                    }
                }
                while head < order.len()
                    invariant
                        i < n,
                        n == ts.len(),
                        self.triangles@ == ts,
                        self.graph_wf(),
                        visited@.len() == n,
                        views(groups@) == done,
                        groups_sound(ts, done),
                        head <= order@.len(),
                        1 <= order@.len(),
                        order@.len() + unvisited_count(visited@) <= n,
                        order@[0] == i,
                        forall|m: int| 0 <= m < order@.len() ==> #[trigger] order@[m] < n,
                        forall|m1: int, m2: int|
                            0 <= m1 < m2 < order@.len() ==> #[trigger] order@[m1]
                                != #[trigger] order@[m2],
                        forall|m: int|
                            0 <= m < order@.len() ==> !occurs_in(done, #[trigger] order@[m] as int),
                        forall|x: int|
                            0 <= x < n ==> (#[trigger] visited@[x] <==> (occurs_in(done, x)
                                || in_group(order@, x))),
                        parent.len() == order@.len(),
                        forall|m: int|
                            1 <= m < order@.len() ==> is_first_link(
                                ts,
                                order@,
                                m,
                                #[trigger] parent[m],
                            ) && parent[m] < head,
                        forall|m1: int, m2: int|
                            1 <= m1 < m2 < order@.len() ==> (#[trigger] parent[m1]) < (
                            #[trigger] parent[m2]) || (parent[m1] == parent[m2] && order@[m1] < order@[m2]),
                        forall|m: int, j: int|
                            0 <= m < head && #[trigger] adjacent(ts, order@[m] as int, j)
                                ==> visited@[j],
                        forall|m: int| 1 <= m < order@.len() ==> i < #[trigger] order@[m],
                        forall|x: int| 0 <= x < i ==> visited@[x],
                    decreases n - head,
                {
                    let u: usize = order[head];
                    let conn: &Vec<usize> = &self.connections[u];
                    let mut c: usize = 0;
                    while c < conn.len()
                        invariant
                            i < n,
                            n == ts.len(),
                            visited@.len() == n,
                            groups_sound(ts, done),
                            head < order@.len(),
                            u == order@[head as int],
                            is_neighbour_list(ts, u as int, conn@),
                            c <= conn@.len(),
                            order@.len() + unvisited_count(visited@) <= n,
                            order@[0] == i,
                            forall|m: int| 0 <= m < order@.len() ==> #[trigger] order@[m] < n,
                            forall|m1: int, m2: int|
                                0 <= m1 < m2 < order@.len() ==> #[trigger] order@[m1]
                                    != #[trigger] order@[m2],
                            forall|m: int|
                                0 <= m < order@.len() ==> !occurs_in(
                                    done,
                                    #[trigger] order@[m] as int,
                                ),
                            forall|x: int|
                                0 <= x < n ==> (#[trigger] visited@[x] <==> (occurs_in(done, x)
                                    || in_group(order@, x))),
                            parent.len() == order@.len(),
                            forall|m: int|
                                1 <= m < order@.len() ==> is_first_link(
                                    ts,
                                    order@,
                                    m,
                                    #[trigger] parent[m],
                                ) && parent[m] <= head,
                            forall|m1: int, m2: int|
                                1 <= m1 < m2 < order@.len() ==> (#[trigger] parent[m1]) < (
                                #[trigger] parent[m2]) || (parent[m1] == parent[m2] && order@[m1]
                                    < order@[m2]),
                            forall|m: int|
                                1 <= m < order@.len() && #[trigger] parent[m] == head ==> exists|
                                    c0: int,
                                | 0 <= c0 < c && #[trigger] conn@[c0] == order@[m],
                            forall|m: int, j: int|
                                0 <= m < head && #[trigger] adjacent(ts, order@[m] as int, j)
                                    ==> visited@[j],
                            forall|m: int| 1 <= m < order@.len() ==> i < #[trigger] order@[m],
                            forall|x: int| 0 <= x < i ==> visited@[x],
                            forall|c0: int| 0 <= c0 < c ==> visited@[#[trigger] conn@[c0] as int],
                        decreases conn@.len() - c,
                    {
                        let v: usize = conn[c];
                        proof {
                            assert(adjacent(ts, u as int, conn@[c as int] as int));
                        }
                        if !visited[v] {
                            let ghost before = order@;
                            let ghost seen = visited@;
                            let ghost links = parent;
                            proof {
                                parent = parent.push(head as int);
                                lemma_mark_visited(visited@, v as int);
                                assert(!in_group(before, v as int));
                                assert forall|m: int| 0 <= m < before.len() implies before[m]
                                    != v by {
                                    if before[m] == v {
                                        assert(in_group(before, v as int));
                                    }
                                }
                                assert(in_group(before, i as int));
                            }
                            visited.set(v, true);
                            order.push(v);
                            proof {
                                let after = order@;
                                let top = before.len() as int;
                                assert(after[top] == v);
                                assert forall|x: int| 0 <= x < n implies (#[trigger] visited@[x] <==> (
                                occurs_in(done, x) || in_group(after, x))) by {
                                    if x == v {
                                        assert(in_group(after, x));
                                    } else {
                                        assert(visited@[x] == seen[x]);
                                        if in_group(before, x) {
                                            let m = choose|m: int|
                                                0 <= m < before.len() && #[trigger] before[m] == x;
                                            assert(after[m] == x);
                                        }
                                        if in_group(after, x) {
                                            let m = choose|m: int|
                                                0 <= m < after.len() && #[trigger] after[m] == x;
                                            assert(before[m] == x);
                                        }
                                    }
                                }
                                assert forall|m: int| 1 <= m < after.len() implies is_first_link(
                                    ts,
                                    after,
                                    m,
                                    #[trigger] parent[m],
                                ) && parent[m] <= head by {
                                    if m < top {
                                        assert(is_first_link(ts, before, m, links[m]));
                                        assert(after[links[m]] == before[links[m]]);
                                        assert forall|b: int| 0 <= b < parent[m] implies !adjacent(
                                            ts,
                                            #[trigger] after[b] as int,
                                            after[m] as int,
                                        ) by {
                                            assert(after[b] == before[b]);
                                        }
                                    } else {
                                        assert(adjacent(
                                            ts,
                                            after[head as int] as int,
                                            after[m] as int,
                                        ));
                                        assert forall|b: int| 0 <= b < head implies !adjacent(
                                            ts,
                                            #[trigger] after[b] as int,
                                            after[m] as int,
                                        ) by {
                                            if adjacent(ts, after[b] as int, v as int) {
                                                assert(adjacent(ts, before[b] as int, v as int));
                                                assert(seen[v as int]);
                                            }
                                        }
                                    }
                                }
                                assert forall|m1: int, m2: int|
                                    1 <= m1 < m2 < after.len() implies (#[trigger] parent[m1]) < (
                                #[trigger] parent[m2]) || (parent[m1] == parent[m2] && after[m1]
                                    < after[m2]) by {
                                    if m2 < top {
                                        assert(links[m1] < links[m2] || (links[m1] == links[m2]
                                            && before[m1] < before[m2]));
                                    } else {
                                        assert(links[m1] <= head);
                                        if links[m1] == head {
                                            let c0 = choose|c0: int|
                                                0 <= c0 < c && #[trigger] conn@[c0] == before[m1];
                                            assert(conn@[c0] < conn@[c as int]);
                                        }
                                    }
                                }
                                assert forall|m: int|
                                    1 <= m < after.len() && #[trigger] parent[m] == head implies exists|
                                    c0: int,
                                | 0 <= c0 < c + 1 && #[trigger] conn@[c0] == after[m] by {
                                    if m < top {
                                        let c0 = choose|c0: int|
                                            0 <= c0 < c && #[trigger] conn@[c0] == before[m];
                                        assert(conn@[c0] == after[m]);
                                    } else {
                                        assert(conn@[c as int] == after[m]);
                                    }
                                }
                                assert forall|m: int, j: int|
                                    0 <= m < head && #[trigger] adjacent(
                                        ts,
                                        after[m] as int,
                                        j,
                                    ) implies visited@[j] by {
                                    assert(adjacent(ts, before[m] as int, j));
                                    assert(seen[j]);
                                }
                                assert forall|c0: int| 0 <= c0 < c + 1 implies visited@[#[trigger] conn@[c0] as int] by {
                                    if c0 < c {
                                        assert(seen[conn@[c0] as int]);
                                    }
                                }
                                assert forall|m: int| 1 <= m < after.len() implies i
                                    < #[trigger] after[m] by {
                                    if m < top {
                                        assert(i < before[m]);
                                    } else {
                                        if v < i {
                                            assert(seen[v as int]);
                                        }
                                    }
                                }
                            }
                        }
                        c += 1;
                    }
                    proof {
                        assert forall|j: int| #[trigger] adjacent(ts, u as int, j) implies visited@[j] by {
                            assert(in_group(conn@, j));
                            let c0 = choose|c0: int| 0 <= c0 < conn@.len() && #[trigger] conn@[c0] == j;
                            assert(visited@[conn@[c0] as int]);
                        }
                    }
                    head += 1;
                }
                proof {
                    let g = order@;
                    assert forall|m: int| 1 <= m < g.len() implies #[trigger] linked_to_earlier(
                        ts,
                        g,
                        m,
                    ) by {
                        lemma_first_link_is(ts, g, m, parent[m]);
                    }
                    assert forall|m1: int, m2: int| 1 <= m1 < m2 < g.len() implies #[trigger] discovered_before(
                        ts,
                        g,
                        m1,
                        m2,
                    ) by {
                        lemma_first_link_is(ts, g, m1, parent[m1]);
                        lemma_first_link_is(ts, g, m2, parent[m2]);
                    }
                    assert forall|m: int, j: int|
                        0 <= m < g.len() && #[trigger] adjacent(ts, g[m] as int, j) implies in_group(
                        g,
                        j,
                    ) by {
                        assert(visited@[j]);
                        if occurs_in(done, j) {
                            let (k, m2) = choose|k: int, m2: int|
                                #[trigger] has_entry(done, k, m2) && done[k][m2] == j;
                            lemma_adjacent_symmetric(ts, g[m] as int, j);
                            assert(adjacent(ts, done[k][m2] as int, g[m] as int));
                            assert(in_group(done[k], g[m] as int));
                            let m3 = choose|m3: int|
                                0 <= m3 < done[k].len() && #[trigger] done[k][m3] == g[m] as int;
                            assert(has_entry(done, k, m3));
                            assert(occurs_in(done, g[m] as int));
                        }
                    }
                    lemma_extend_groups(ts, done, g);
                }
                groups.push(order);
                proof {
                    assert(views(groups@) =~= done.push(order@));
                }
            }
            i += 1;
        }
        proof {
            assert forall|x: int| 0 <= x < ts.len() implies #[trigger] occurs_in(
                views(groups@),
                x,
            ) by {
                assert(visited@[x]);
            }
            assert(is_component_partition(ts, views(groups@)));
            lemma_components_are_unique(ts, views(groups@), components_of(ts));
        }
        groups
    }

    /// The shapes that are left for this alpha: the triangles with a
    /// circumradius of at most `1 / alpha`, grouped by adjacency.
    pub fn shapes(&mut self) -> (shapes: Vec<Shape2D>)
        requires
            old(self).wf(),
        ensures
            final(self).wf(),
            final(self).graph_wf(),
            final(self).alpha == old(self).alpha,
            final(self).triangles@ == old(self).triangles@.filter(within_radius(old(self).alpha)),
            is_component_partition(final(self).triangles@, components_of(final(self).triangles@)),
            shape_triangles(shapes@) == shapes_of(final(self).triangles@),
    {
        self.prune();
        self.build_connections_graph();
        let groups: Vec<Vec<usize>> = self.components();
        let ghost ts = self.triangles@;
        let ghost gs = views(groups@);
        let mut shapes: Vec<Shape2D> = Vec::new();
        let count: usize = groups.len();
        let mut k: usize = 0;
        while k < count
            invariant
                k <= count,
                count == groups@.len(),
                gs == views(groups@),
                self.triangles@ == ts,
                groups_sound(ts, gs),
                shapes@.len() == k,
                forall|k0: int|
                    0 <= k0 < k ==> (#[trigger] shapes@[k0]).triangles@ == triangles_at(ts, gs[k0]),
            decreases count - k,
        {
            let group: &Vec<usize> = &groups[k];
            let mut shape: Vec<Triangle> = Vec::new();
            let len: usize = group.len();
            let mut m: usize = 0;
            while m < len
                invariant
                    m <= len,
                    k < count,
                    len == group@.len(),
                    group@ == gs[k as int],
                    self.triangles@ == ts,
                    groups_sound(ts, gs),
                    0 <= k < gs.len(),
                    shape@ == triangles_at(ts, group@.take(m as int)),
                decreases len - m,
            {
                proof {
                    assert(has_entry(gs, k as int, m as int));
                }
                let index: usize = group[m];
                shape.push(self.triangles[index]);
                proof {
                    assert(shape@ =~= triangles_at(ts, group@.take(m + 1)));
                }
                m += 1;
            }
            proof {
                assert(group@.take(len as int) =~= group@);
            }
            let ghost before = shapes@;
            shapes.push(Shape2D::new(shape));
            proof {
                assert forall|k0: int| 0 <= k0 < k + 1 implies (#[trigger] shapes@[k0]).triangles@
                    == triangles_at(ts, gs[k0]) by {
                    if k0 < k {
                        assert(shapes@[k0] == before[k0]);
                    }
                }
            }
            k += 1;
        }
        proof {
            assert(shape_triangles(shapes@) =~= shapes_of(ts));
        }
        shapes
    }
}

/// The triangles of the triangulation of `points` whose circumradius is at
/// most `1 / alpha`.
pub open spec fn alpha_triangles(points: Seq<Point>, alpha: Alpha) -> Seq<Triangle> {
    match triangulation_of(points) {
        Some(pair) => pair.1.filter(within_radius(alpha)),
        None => Seq::empty(),
    }
}

/// The alpha shapes of `points`: the shapes that the triangles left for
/// `alpha` form. There are none for an alpha that is not positive nor for
/// points that have no triangulation.
pub open spec fn alpha_shapes_of(points: Seq<Point>, alpha: Alpha) -> Option<Seq<Seq<Triangle>>> {
    if !alpha.is_positive() || triangulation_of(points) is None {
        None
    } else {
        Some(shapes_of(alpha_triangles(points, alpha)))
    }
}

/// The alpha shapes of a set of points: its Delaunay triangulation without
/// the triangles whose circumradius is larger than `1 / alpha`, split into
/// connected shapes. There is no result for an alpha that is not positive
/// nor for fewer than three distinct points.
pub fn alpha_shape_2d(points: &Vec<Point>, alpha: Alpha) -> (r: Option<Vec<Shape2D>>)
    requires
        all_in_input_range(points@),
    ensures
        (r is None) == (!alpha.is_positive() || sorted_unique(points@).len() < 3),
        match r {
            None => alpha_shapes_of(points@, alpha) is None,
            Some(shapes) => alpha_shapes_of(points@, alpha) == Some(shape_triangles(shapes@)),
        },
        r is Some ==> is_component_partition(
            alpha_triangles(points@, alpha),
            components_of(alpha_triangles(points@, alpha)),
        ),
{
    if alpha.num <= 0 || alpha.den <= 0 {
        return None;
    }
    match triangulate(points) {
        None => None,
        Some(triangulation) => {
            let ghost triangles = triangulation.triangles@;
            let mut alpha_shape = AlphaShape2D::new(triangulation.triangles, alpha);
            let shapes = alpha_shape.shapes();
            proof {
                assert(alpha_shape.triangles@ == alpha_triangles(points@, alpha));
            }
            Some(shapes)
        },
    }
}

} // verus!
