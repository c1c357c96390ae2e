//! There is only one way to split triangles into components in the order
//! of a breadth-first walk.

use vstd::prelude::*;
use crate::alpha::{
    adjacent, discovered_before, first_link, groups_sound, has_entry, in_group,
    is_component_partition, is_first_link, lemma_adjacent_symmetric, lemma_first_link_is,
    linked_to_earlier, occurs_in,
};
use crate::triangle::Triangle;

verus! {

/// The two groups hold the same indices.
pub open spec fn same_members(g: Seq<usize>, h: Seq<usize>) -> bool {
    forall|j: int| in_group(g, j) <==> in_group(h, j)
}

/// A closed group that holds the first entry of a group holds all of it.
proof fn lemma_group_follows_root(
    ts: Seq<Triangle>,
    gs1: Seq<Seq<usize>>,
    k1: int,
    gs2: Seq<Seq<usize>>,
    k2: int,
    m: int,
)
    requires
        groups_sound(ts, gs1),
        groups_sound(ts, gs2),
        0 <= k2 < gs2.len(),
        has_entry(gs1, k1, m),
        in_group(gs2[k2], gs1[k1][0] as int),
    ensures
        in_group(gs2[k2], gs1[k1][m] as int),
    decreases m,
{
    if m > 0 {
        let g = gs1[k1];
        let h = gs2[k2];
        assert(linked_to_earlier(ts, g, m));
        let m0 = first_link(ts, g, m);
        assert(is_first_link(ts, g, m, m0));
        assert(has_entry(gs1, k1, m0));
        lemma_group_follows_root(ts, gs1, k1, gs2, k2, m0);
        let p = choose|p: int| 0 <= p < h.len() && #[trigger] h[p] == g[m0] as int;
        assert(has_entry(gs2, k2, p));
        assert(adjacent(ts, gs2[k2][p] as int, g[m] as int));
    }
}

/// A closed group that holds an entry of a group holds its first entry.
proof fn lemma_root_follows_entry(
    ts: Seq<Triangle>,
    gs1: Seq<Seq<usize>>,
    k1: int,
    gs2: Seq<Seq<usize>>,
    k2: int,
    m: int,
)
    requires
        groups_sound(ts, gs1),
        groups_sound(ts, gs2),
        0 <= k2 < gs2.len(),
        has_entry(gs1, k1, m),
        in_group(gs2[k2], gs1[k1][m] as int),
    ensures
        in_group(gs2[k2], gs1[k1][0] as int),
    decreases m,
{
    if m > 0 {
        let g = gs1[k1];
        let h = gs2[k2];
        assert(linked_to_earlier(ts, g, m));
        let m0 = first_link(ts, g, m);
        assert(is_first_link(ts, g, m, m0));
        assert(has_entry(gs1, k1, m0));
        lemma_adjacent_symmetric(ts, g[m0] as int, g[m] as int);
        let p = choose|p: int| 0 <= p < h.len() && #[trigger] h[p] == g[m] as int;
        assert(has_entry(gs2, k2, p));
        assert(adjacent(ts, gs2[k2][p] as int, g[m0] as int));
        lemma_root_follows_entry(ts, gs1, k1, gs2, k2, m0);
    }
}

/// A closed group that holds one entry of a group holds every entry of it.
proof fn lemma_group_inside(
    ts: Seq<Triangle>,
    gs1: Seq<Seq<usize>>,
    k1: int,
    gs2: Seq<Seq<usize>>,
    k2: int,
    m: int,
)
    requires
        groups_sound(ts, gs1),
        groups_sound(ts, gs2),
        0 <= k2 < gs2.len(),
        has_entry(gs1, k1, m),
        in_group(gs2[k2], gs1[k1][m] as int),
    ensures
        forall|j: int| in_group(gs1[k1], j) ==> in_group(gs2[k2], j),
{
    lemma_root_follows_entry(ts, gs1, k1, gs2, k2, m);
    assert forall|j: int| in_group(gs1[k1], j) implies in_group(gs2[k2], j) by {
        let q = choose|q: int| 0 <= q < gs1[k1].len() && #[trigger] gs1[k1][q] == j;
        assert(has_entry(gs1, k1, q));
        lemma_group_follows_root(ts, gs1, k1, gs2, k2, q);
    }
}

/// Two groups with an entry in common hold the same indices.
proof fn lemma_groups_meet(
    ts: Seq<Triangle>,
    gs1: Seq<Seq<usize>>,
    k1: int,
    m1: int,
    gs2: Seq<Seq<usize>>,
    k2: int,
    m2: int,
)
    requires
        groups_sound(ts, gs1),
        groups_sound(ts, gs2),
        has_entry(gs1, k1, m1),
        has_entry(gs2, k2, m2),
        gs1[k1][m1] == gs2[k2][m2],
    ensures
        same_members(gs1[k1], gs2[k2]),
{
    assert(gs2[k2][m2] == gs1[k1][m1] as int);
    assert(in_group(gs2[k2], gs1[k1][m1] as int));
    assert(gs1[k1][m1] == gs2[k2][m2] as int);
    assert(in_group(gs1[k1], gs2[k2][m2] as int));
    lemma_group_inside(ts, gs1, k1, gs2, k2, m1);
    lemma_group_inside(ts, gs2, k2, gs1, k1, m2);
}

/// The first entry of a group lies in no earlier group of the other split,
/// where the earlier groups of the two splits hold the same indices.
proof fn lemma_root_is_new(
    ts: Seq<Triangle>,
    gs1: Seq<Seq<usize>>,
    gs2: Seq<Seq<usize>>,
    k: int,
    j: int,
    p: int,
)
    requires
        groups_sound(ts, gs1),
        groups_sound(ts, gs2),
        0 <= k < gs1.len(),
        has_entry(gs2, j, p),
        gs2[j][p] == gs1[k][0],
        j < k ==> same_members(gs1[j], gs2[j]),
    ensures
        j >= k,
{
    if j < k {
        assert(gs2[j][p] == gs1[k][0] as int);
        assert(in_group(gs2[j], gs1[k][0] as int));
        assert(in_group(gs1[j], gs1[k][0] as int));
        let q = choose|q: int| 0 <= q < gs1[j].len() && #[trigger] gs1[j][q] == gs1[k][0] as int;
        assert(has_entry(gs1, j, q));
        assert(has_entry(gs1, k, 0));
    }
}

/// The groups at the same position of two splits into components start
/// with the same index and hold the same indices.
proof fn lemma_groups_align(ts: Seq<Triangle>, gs1: Seq<Seq<usize>>, gs2: Seq<Seq<usize>>, k: int)
    requires
        is_component_partition(ts, gs1),
        is_component_partition(ts, gs2),
        0 <= k < gs1.len(),
    ensures
        k < gs2.len(),
        gs1[k][0] == gs2[k][0],
        same_members(gs1[k], gs2[k]),
    decreases k, 1int,
{
    assert(has_entry(gs1, k, 0));
    let r1 = gs1[k][0];
    assert(occurs_in(gs2, r1 as int));
    let (j2, at2) = choose|j: int, p: int| #[trigger] has_entry(gs2, j, p) && gs2[j][p] == r1 as int;
    if j2 < k {
        lemma_groups_align(ts, gs1, gs2, j2);
    }
    lemma_root_is_new(ts, gs1, gs2, k, j2, at2);
    assert(has_entry(gs2, k, 0));
    let r2 = gs2[k][0];
    assert(r2 <= r1) by {
        assert(has_entry(gs2, j2, 0));
        if k < j2 {
            assert(gs2[k][0] < gs2[j2][0]);
        }
        if at2 >= 1 {
            assert(gs2[j2][0] < gs2[j2][at2]);
        }
    }
    assert(occurs_in(gs1, r2 as int));
    let (j1, at1) = choose|j: int, p: int| #[trigger] has_entry(gs1, j, p) && gs1[j][p] == r2 as int;
    if j1 < k {
        lemma_groups_align_back(ts, gs1, gs2, k, j1);
    }
    lemma_root_is_new(ts, gs2, gs1, k, j1, at1);
    assert(r1 <= r2) by {
        assert(has_entry(gs1, j1, 0));
        if k < j1 {
            assert(gs1[k][0] < gs1[j1][0]);
        }
        if at1 >= 1 {
            assert(gs1[j1][0] < gs1[j1][at1]);
        }
    }
    lemma_groups_meet(ts, gs1, k, 0, gs2, k, 0);
}

/// The same for an earlier group, seen from the other split.
proof fn lemma_groups_align_back(
    ts: Seq<Triangle>,
    gs1: Seq<Seq<usize>>,
    gs2: Seq<Seq<usize>>,
    k: int,
    j: int,
)
    requires
        is_component_partition(ts, gs1),
        is_component_partition(ts, gs2),
        0 <= j < k < gs1.len(),
    ensures
        j < gs2.len(),
        same_members(gs2[j], gs1[j]),
    decreases k, 0int,
{
    lemma_groups_align(ts, gs1, gs2, j);
    assert forall|x: int| in_group(gs2[j], x) <==> in_group(gs1[j], x) by {
        assert(in_group(gs1[j], x) <==> in_group(gs2[j], x));
    }
}

/// A group of one split lists its indices in the same order as the group
/// of the other split that holds the same indices and starts alike.
proof fn lemma_entries_align(
    ts: Seq<Triangle>,
    gs1: Seq<Seq<usize>>,
    gs2: Seq<Seq<usize>>,
    k: int,
    m: int,
)
    requires
        groups_sound(ts, gs1),
        groups_sound(ts, gs2),
        0 <= k < gs2.len(),
        has_entry(gs1, k, m),
        gs1[k][0] == gs2[k][0],
        same_members(gs1[k], gs2[k]),
    ensures
        m < gs2[k].len(),
        gs1[k][m] == gs2[k][m],
    decreases m,
{
    let g = gs1[k];
    let h = gs2[k];
    assert(has_entry(gs2, k, 0));
    if m > 0 {
        assert forall|b: int| 0 <= b < m implies b < h.len() && g[b] == h[b] by {
            assert(has_entry(gs1, k, b));
            lemma_entries_align(ts, gs1, gs2, k, b);
        }
        let y1 = g[m];
        assert(in_group(g, y1 as int));
        assert(in_group(h, y1 as int));
        let q = choose|q: int| 0 <= q < h.len() && #[trigger] h[q] == y1 as int;
        assert(has_entry(gs2, k, q));
        if q < m {
            assert(has_entry(gs1, k, q));
            assert(g[q] == g[m]);
        }
        assert(q >= m);
        if q > m {
            assert(has_entry(gs2, k, m));
            let y2 = h[m];
            assert(y2 != y1) by {
                if y2 == y1 {
                    assert(gs2[k][m] == gs2[k][q]);
                }
            }
            assert(in_group(h, y2 as int));
            assert(in_group(g, y2 as int));
            let q2 = choose|q2: int| 0 <= q2 < g.len() && #[trigger] g[q2] == y2 as int;
            assert(has_entry(gs1, k, q2));
            if q2 < m {
                assert(h[q2] == g[q2]);
                assert(has_entry(gs2, k, q2));
                assert(gs2[k][q2] == gs2[k][m]);
            }
            assert(q2 > m);
            assert(linked_to_earlier(ts, g, m));
            let a1 = first_link(ts, g, m);
            assert(is_first_link(ts, g, m, a1));
            assert(linked_to_earlier(ts, h, m));
            let a2 = first_link(ts, h, m);
            assert(is_first_link(ts, h, m, a2));
            // In `h` the entry `y1` is discovered from `a1` as well.
            assert(is_first_link(ts, h, q, a1)) by {
                assert(h[a1] == g[a1]);
                assert forall|b: int| 0 <= b < a1 implies !adjacent(
                    ts,
                    #[trigger] h[b] as int,
                    h[q] as int,
                ) by {
                    assert(h[b] == g[b]);
                    assert(!adjacent(ts, g[b] as int, g[m] as int));
                }
            }
            lemma_first_link_is(ts, h, q, a1);
            // In `g` the entry `y2` is discovered from `a2` as well.
            assert(is_first_link(ts, g, q2, a2)) by {
                assert(h[a2] == g[a2]);
                assert forall|b: int| 0 <= b < a2 implies !adjacent(
                    ts,
                    #[trigger] g[b] as int,
                    g[q2] as int,
                ) by {
                    assert(h[b] == g[b]);
                    assert(!adjacent(ts, h[b] as int, h[m] as int));
                }
            }
            lemma_first_link_is(ts, g, q2, a2);
            assert(discovered_before(ts, h, m, q));
            assert(discovered_before(ts, g, m, q2));
            assert(false);
        }
    }
}

/// There is only one split into components.
pub proof fn lemma_components_are_unique(
    ts: Seq<Triangle>,
    gs1: Seq<Seq<usize>>,
    gs2: Seq<Seq<usize>>,
)
    requires
        is_component_partition(ts, gs1),
        is_component_partition(ts, gs2),
    ensures
        gs1 == gs2,
{
    assert forall|k: int| 0 <= k < gs1.len() implies k < gs2.len() && #[trigger] gs1[k]
        == gs2[k] by {
        lemma_groups_align(ts, gs1, gs2, k);
        lemma_groups_align(ts, gs2, gs1, k);
        assert forall|m: int| 0 <= m < gs1[k].len() implies m < gs2[k].len() && #[trigger] gs1[k][m]
            == gs2[k][m] by {
            assert(has_entry(gs1, k, m));
            lemma_entries_align(ts, gs1, gs2, k, m);
        }
        if gs2[k].len() > gs1[k].len() {
            let m = gs1[k].len() as int;
            assert(has_entry(gs2, k, m));
            lemma_entries_align(ts, gs2, gs1, k, m);
        }
        if gs1[k].len() > gs2[k].len() {
            let m = gs2[k].len() as int;
            assert(has_entry(gs1, k, m));
            lemma_entries_align(ts, gs1, gs2, k, m);
        }
        assert(gs1[k].len() == gs2[k].len());
        assert(gs1[k] =~= gs2[k]);
    }
    if gs2.len() > gs1.len() {
        lemma_groups_align(ts, gs2, gs1, gs1.len() as int);
    }
    if gs1.len() > gs2.len() {
        lemma_groups_align(ts, gs1, gs2, gs2.len() as int);
    }
    assert(gs1.len() == gs2.len());
    assert(gs1 =~= gs2);
}

} // verus!
