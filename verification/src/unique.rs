//! Removing repeated points: the input is brought into increasing order and
//! every point is kept once.

use vstd::prelude::*;
use crate::point::Point;

verus! {

/// Each element comes strictly before every later one.
pub open spec fn strictly_increasing(u: Seq<Point>) -> bool {
    forall|i: int, j: int| 0 <= i < j < u.len() ==> (#[trigger] u[i]).precedes(#[trigger] u[j])
}

/// The two sequences hold the same points, whatever their order and however
/// often each occurs.
pub open spec fn same_points(u: Seq<Point>, s: Seq<Point>) -> bool {
    forall|p: Point| u.contains(p) <==> s.contains(p)
}

/// `u` lists the points of `s` in increasing order, each once.
pub open spec fn is_sorted_unique_of(u: Seq<Point>, s: Seq<Point>) -> bool {
    strictly_increasing(u) && same_points(u, s)
}

/// The points of `s` in increasing order, each once.
pub open spec fn sorted_unique(s: Seq<Point>) -> Seq<Point> {
    choose|u: Seq<Point>| is_sorted_unique_of(u, s)
}

/// The order on points is a strict total order.
pub proof fn lemma_precedes_is_strict_total_order(a: Point, b: Point, c: Point)
    ensures
        !a.precedes(a),
        a.precedes(b) && b.precedes(c) ==> a.precedes(c),
        a.precedes(b) || b.precedes(a) || a == b,
        !(a.precedes(b) && b.precedes(a)),
{
}

/// An increasing sequence holds no point twice.
pub proof fn lemma_increasing_has_no_duplicates(u: Seq<Point>)
    requires
        strictly_increasing(u),
    ensures
        u.no_duplicates(),
{
    assert forall|i: int, j: int| 0 <= i < u.len() && 0 <= j < u.len() && i != j implies u[i]
        != u[j] by {
        if i < j {
            assert(u[i].precedes(u[j]));
        } else {
            assert(u[j].precedes(u[i]));
        }
    }
}

/// There is only one way to list given points in increasing order.
pub proof fn lemma_sorted_unique_is_unique(u: Seq<Point>, v: Seq<Point>)
    requires
        strictly_increasing(u),
        strictly_increasing(v),
        same_points(u, v),
    ensures
        u == v,
    decreases u.len(),
{
    if u.len() == 0 {
        if v.len() > 0 {
            assert(v.contains(v[0]));
            assert(u.contains(v[0]));
        }
        assert(u =~= v);
    } else {
        let m = u.last();
        assert(u.contains(m));
        assert(v.contains(m));
        let k = choose|k: int| 0 <= k < v.len() && v[k] == m;
        // `m` is the largest point of `u`, hence of `v`, so it ends `v` too.
        if k < v.len() - 1 {
            let w = v.last();
            assert(v[k].precedes(w));
            assert(v.contains(w));
            assert(u.contains(w));
            let i = choose|i: int| 0 <= i < u.len() && u[i] == w;
            if i < u.len() - 1 {
                assert(u[i].precedes(u[u.len() - 1]));
            }
        }
        assert(v.last() == m);
        let u0 = u.drop_last();
        let v0 = v.drop_last();
        assert(strictly_increasing(u0)) by {
            assert forall|i: int, j: int| 0 <= i < j < u0.len() implies (#[trigger] u0[i]).precedes(
                #[trigger] u0[j],
            ) by {
                assert(u[i].precedes(u[j]));
            }
        }
        assert(strictly_increasing(v0)) by {
            assert forall|i: int, j: int| 0 <= i < j < v0.len() implies (#[trigger] v0[i]).precedes(
                #[trigger] v0[j],
            ) by {
                assert(v[i].precedes(v[j]));
            }
        }
        assert forall|p: Point| u0.contains(p) <==> v0.contains(p) by {
            if u0.contains(p) {
                let i = choose|i: int| 0 <= i < u0.len() && u0[i] == p;
                assert(u[i] == p);
                assert(u[i].precedes(u[u.len() - 1]));
                assert(u.contains(p));
                assert(v.contains(p));
                let j = choose|j: int| 0 <= j < v.len() && v[j] == p;
                assert(j < v.len() - 1);
                assert(v0[j] == p);
            }
            if v0.contains(p) {
                let j = choose|j: int| 0 <= j < v0.len() && v0[j] == p;
                assert(v[j] == p);
                assert(v[j].precedes(v[v.len() - 1]));
                assert(v.contains(p));
                assert(u.contains(p));
                let i = choose|i: int| 0 <= i < u.len() && u[i] == p;
                assert(i < u.len() - 1);
                assert(u0[i] == p);
            }
        }
        lemma_sorted_unique_is_unique(u0, v0);
        assert(u =~= u0.push(m));
        assert(v =~= v0.push(m));
    }
}

/// Where a point belongs in an increasing sequence: everything before the
/// position precedes it, nothing from the position on does.
proof fn lemma_insert_position(u: Seq<Point>, p: Point) -> (k: int)
    requires
        strictly_increasing(u),
    ensures
        0 <= k <= u.len(),
        forall|j: int| 0 <= j < k ==> (#[trigger] u[j]).precedes(p),
        forall|j: int| k <= j < u.len() ==> !(#[trigger] u[j]).precedes(p),
    decreases u.len(),
{
    if u.len() == 0 {
        0
    } else if u.last().precedes(p) {
        assert forall|j: int| 0 <= j < u.len() implies (#[trigger] u[j]).precedes(p) by {
            if j < u.len() - 1 {
                assert(u[j].precedes(u[u.len() - 1]));
            }
        }
        u.len() as int
    } else {
        let u0 = u.drop_last();
        assert(strictly_increasing(u0)) by {
            assert forall|i: int, j: int| 0 <= i < j < u0.len() implies (#[trigger] u0[i]).precedes(
                #[trigger] u0[j],
            ) by {
                assert(u[i].precedes(u[j]));
            }
        }
        let k = lemma_insert_position(u0, p);
        assert forall|j: int| 0 <= j < k implies (#[trigger] u[j]).precedes(p) by {
            assert(u0[j].precedes(p));
        }
        assert forall|j: int| k <= j < u.len() implies !(#[trigger] u[j]).precedes(p) by {
            if j < u.len() - 1 {
                assert(!u0[j].precedes(p));
            }
        }
        k
    }
}

/// Putting a new point at its position keeps the sequence increasing and
/// adds exactly that point.
proof fn lemma_insert_keeps_increasing(u: Seq<Point>, k: int, p: Point)
    requires
        strictly_increasing(u),
        0 <= k <= u.len(),
        forall|j: int| 0 <= j < k ==> (#[trigger] u[j]).precedes(p),
        forall|j: int| k <= j < u.len() ==> p.precedes(#[trigger] u[j]),
    ensures
        strictly_increasing(u.insert(k, p)),
        forall|q: Point| u.insert(k, p).contains(q) <==> (q == p || u.contains(q)),
{
    let w = u.insert(k, p);
    assert forall|i: int, j: int| 0 <= i < j < w.len() implies (#[trigger] w[i]).precedes(
        #[trigger] w[j],
    ) by {
        if j < k {
            assert(u[i].precedes(u[j]));
        } else if j == k {
            assert(u[i].precedes(p));
        } else if i < k {
            assert(u[i].precedes(u[j - 1])) by {
                if i < j - 1 {
                }
            }
        } else if i == k {
            assert(p.precedes(u[j - 1]));
        } else {
            assert(u[i - 1].precedes(u[j - 1]));
        }
    }
    assert forall|q: Point| w.contains(q) <==> (q == p || u.contains(q)) by {
        if w.contains(q) {
            let i = choose|i: int| 0 <= i < w.len() && w[i] == q;
            if i < k {
                assert(u[i] == q);
            } else if i > k {
                assert(u[i - 1] == q);
            }
        }
        if q == p {
            assert(w[k] == q);
        }
        if u.contains(q) {
            let i = choose|i: int| 0 <= i < u.len() && u[i] == q;
            if i < k {
                assert(w[i] == q);
            } else {
                assert(w[i + 1] == q);
            }
        }
    }
}

/// Every sequence of points has an increasing listing without repetition.
pub proof fn lemma_sorted_unique_exists(s: Seq<Point>) -> (u: Seq<Point>)
    ensures
        is_sorted_unique_of(u, s),
        u == sorted_unique(s),
    decreases s.len(),
{
    let u = if s.len() == 0 {
        let e = Seq::<Point>::empty();
        assert(is_sorted_unique_of(e, s));
        e
    } else {
        let s0 = s.drop_last();
        let p = s.last();
        let v = lemma_sorted_unique_exists(s0);
        assert(s =~= s0.push(p));
        assert forall|q: Point| s.contains(q) <==> (q == p || s0.contains(q)) by {
            if s.contains(q) {
                let i = choose|i: int| 0 <= i < s.len() && s[i] == q;
                if i < s.len() - 1 {
                    assert(s0[i] == q);
                }
            }
            if q == p {
                assert(s[s.len() - 1] == q);
            }
            if s0.contains(q) {
                let i = choose|i: int| 0 <= i < s0.len() && s0[i] == q;
                assert(s[i] == q);
            }
        }
        if v.contains(p) {
            assert(is_sorted_unique_of(v, s));
            v
        } else {
            let k = lemma_insert_position(v, p);
            assert forall|j: int| k <= j < v.len() implies p.precedes(#[trigger] v[j]) by {
                assert(v.contains(v[j]));
            }
            lemma_insert_keeps_increasing(v, k, p);
            let w = v.insert(k, p);
            assert(is_sorted_unique_of(w, s));
            w
        }
    };
    let c = sorted_unique(s);
    assert(is_sorted_unique_of(c, s));
    lemma_sorted_unique_is_unique(u, c);
    u
}

impl Point {
    /// The distinct points of the input in increasing order.
    pub fn unique(points: &Vec<Point>) -> (r: Vec<Point>)
        ensures
            is_sorted_unique_of(r@, points@),
            r@ == sorted_unique(points@),
            r@.len() <= points@.len(),
    {
        let mut out: Vec<Point> = Vec::new();
        let n: usize = points.len();
        let mut i: usize = 0;
        while i < n
            invariant
                i <= n,
                n == points@.len(),
                strictly_increasing(out@),
                same_points(out@, points@.take(i as int)),
                out@.len() <= i,
            decreases n - i,
        {
            let p: Point = points[i];
            let m: usize = out.len();
            let mut k: usize = 0;
            while k < m && out[k].lt(p)
                invariant
                    k <= m,
                    m == out@.len(),
                    forall|j: int| 0 <= j < k ==> (#[trigger] out@[j]).precedes(p),
                decreases m - k,
            {
                k += 1;
            }
            let ghost before = out@;
            let ghost prefix = points@.take(i as int);
            let ghost next = points@.take(i + 1);
            proof {
                assert(next =~= prefix.push(p));
                assert forall|q: Point| next.contains(q) <==> (q == p || prefix.contains(q)) by {
                    if next.contains(q) {
                        let t = choose|t: int| 0 <= t < next.len() && next[t] == q;
                        if t < i {
                            assert(prefix[t] == q);
                        }
                    }
                    if q == p {
                        assert(next[i as int] == q);
                    }
                    if prefix.contains(q) {
                        let t = choose|t: int| 0 <= t < prefix.len() && prefix[t] == q;
                        assert(next[t] == q);
                    }
                }
            }
            if k < m && out[k] == p {
                proof {
                    assert(before.contains(p));
                    assert forall|q: Point| out@.contains(q) <==> next.contains(q) by {
                        assert(before.contains(q) <==> prefix.contains(q));
                    }
                }
            } else {
                proof {
                    assert forall|j: int| k <= j < before.len() implies p.precedes(
                        #[trigger] before[j],
                    ) by {
                        if j > k {
                            assert(before[k as int].precedes(before[j]));
                        }
                    }
                    lemma_insert_keeps_increasing(before, k as int, p);
                }
                out.insert(k, p);
                proof {
                    assert(out@ == before.insert(k as int, p));
                    assert forall|q: Point| out@.contains(q) <==> next.contains(q) by {
                        assert(before.contains(q) <==> prefix.contains(q));
                    }
                }
            }
            i += 1;
        }
        proof {
            assert(points@.take(n as int) =~= points@);
            let c = lemma_sorted_unique_exists(points@);
            lemma_sorted_unique_is_unique(out@, c);
        }
        out
    }
}

} // verus!
