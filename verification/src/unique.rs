//! The rings are determined by the events: there is one order of traversal, one way to walk,
//! and one place for each ring.

use crate::contour::{is_forest, lemma_forest_lists_holes, ContourView};
use crate::order::lemma_event_order_unique;
use crate::sweep_event::{on_boundary, sweeps_before, Coordinate, SweepEvent};
use crate::traversal::{
    connects, is_ring_walk, is_ring_walk_at, is_step, is_tagged_at, is_traversal, is_visited,
    lemma_each_position_once, lemma_next_pos_unique, lemma_visited_along_prefix,
    lemma_visited_by_prefix, partners_along, points_along, ring_follows, visited_along,
    visited_by,
};
use vstd::prelude::*;

verus! {

/// Two walks along a ring that are made after the same positions have been visited agree
/// in their first `k` steps.
proof fn lemma_steps_agree(
    points: Seq<Coordinate>,
    partners: Seq<i32>,
    before: Set<i32>,
    a: Seq<i32>,
    b: Seq<i32>,
    k: int,
)
    requires
        is_ring_walk(points, partners, before, a),
        is_ring_walk(points, partners, before, b),
        0 <= k <= a.len(),
        k <= b.len(),
    ensures
        forall|j: int| 0 <= j < k ==> a[j] == b[j],
    decreases k,
{
    if k > 0 {
        lemma_steps_agree(points, partners, before, a, b, k - 1);
        let j = k - 1;
        assert(is_step(points, partners, before, a, j));
        assert(is_step(points, partners, before, b, j));
        if j == 0 {
            if a[0] < b[0] {
                assert(before.contains(a[0]));
            } else if b[0] < a[0] {
                assert(before.contains(b[0]));
            }
        } else if j % 2 == 1 {
        } else {
            lemma_visited_along_prefix(before, a, b, j);
            lemma_next_pos_unique(
                points,
                visited_along(before, a, j),
                a[j - 1],
                a[0],
                a[j],
                b[j],
            );
        }
    }
}

/// A walk along a ring cannot go on where another has ended.
proof fn lemma_walk_ends(
    points: Seq<Coordinate>,
    partners: Seq<i32>,
    before: Set<i32>,
    a: Seq<i32>,
    b: Seq<i32>,
)
    requires
        is_ring_walk(points, partners, before, a),
        is_ring_walk(points, partners, before, b),
        a.len() <= b.len(),
    ensures
        a.len() == b.len(),
{
    let len = a.len() as int;
    lemma_steps_agree(points, partners, before, a, b, len);
    if len < b.len() {
        assert(is_step(points, partners, before, b, len));
        lemma_visited_along_prefix(before, a, b, len);
        lemma_next_pos_unique(
            points,
            visited_along(before, a, len),
            a[len - 1],
            a[0],
            a[0],
            b[len],
        );
    }
}

/// There is one walk along the ring that begins after given positions have been visited.
pub proof fn lemma_ring_walk_unique(
    points: Seq<Coordinate>,
    partners: Seq<i32>,
    before: Set<i32>,
    a: Seq<i32>,
    b: Seq<i32>,
)
    requires
        is_ring_walk(points, partners, before, a),
        is_ring_walk(points, partners, before, b),
    ensures
        a == b,
{
    if a.len() <= b.len() {
        lemma_walk_ends(points, partners, before, a, b);
    } else {
        lemma_walk_ends(points, partners, before, b, a);
    }
    lemma_steps_agree(points, partners, before, a, b, a.len() as int);
    assert(a =~= b);
}

/// Two traversals agree in their first `r` walks.
proof fn lemma_walks_agree(
    points: Seq<Coordinate>,
    partners: Seq<i32>,
    a: Seq<Seq<i32>>,
    b: Seq<Seq<i32>>,
    r: int,
)
    requires
        is_traversal(points, partners, a),
        is_traversal(points, partners, b),
        0 <= r <= a.len(),
        r <= b.len(),
    ensures
        forall|s: int| 0 <= s < r ==> a[s] == b[s],
    decreases r,
{
    if r > 0 {
        lemma_walks_agree(points, partners, a, b, r - 1);
        lemma_visited_by_prefix(a, b, r - 1);
        assert(is_ring_walk_at(points, partners, a, r - 1));
        assert(is_ring_walk_at(points, partners, b, r - 1));
        lemma_ring_walk_unique(points, partners, visited_by(a, r - 1), a[r - 1], b[r - 1]);
    }
}

/// A traversal has no walk left to make where another has ended.
proof fn lemma_traversal_ends(
    points: Seq<Coordinate>,
    partners: Seq<i32>,
    a: Seq<Seq<i32>>,
    b: Seq<Seq<i32>>,
)
    requires
        is_traversal(points, partners, a),
        is_traversal(points, partners, b),
        a.len() <= b.len(),
    ensures
        a.len() == b.len(),
{
    let len = a.len() as int;
    lemma_walks_agree(points, partners, a, b, len);
    lemma_visited_by_prefix(a, b, len);
    if len < b.len() {
        assert(is_ring_walk_at(points, partners, b, len));
        assert(is_step(points, partners, visited_by(b, len), b[len], 0));
        assert(visited_by(a, len).contains(b[len][0]));
    }
}

/// There is one way to walk along the rings of a boundary.
pub proof fn lemma_traversal_unique(
    points: Seq<Coordinate>,
    partners: Seq<i32>,
    a: Seq<Seq<i32>>,
    b: Seq<Seq<i32>>,
)
    requires
        is_traversal(points, partners, a),
        is_traversal(points, partners, b),
    ensures
        a == b,
{
    if a.len() <= b.len() {
        lemma_traversal_ends(points, partners, a, b);
    } else {
        lemma_traversal_ends(points, partners, b, a);
    }
    lemma_walks_agree(points, partners, a, b, a.len() as int);
    assert(a =~= b);
}

/// Two ascending lists agree below position `k` if they hold the same numbers.
proof fn lemma_ascending_agree(a: Seq<i32>, b: Seq<i32>, k: int)
    requires
        forall|i: int, j: int| 0 <= i < j < a.len() ==> a[i] < a[j],
        forall|i: int, j: int| 0 <= i < j < b.len() ==> b[i] < b[j],
        forall|v: i32| a.contains(v) <==> b.contains(v),
        0 <= k <= a.len(),
        k <= b.len(),
    ensures
        forall|j: int| 0 <= j < k ==> a[j] == b[j],
    decreases k,
{
    if k > 0 {
        lemma_ascending_agree(a, b, k - 1);
        let t = k - 1;
        assert(a.contains(a[t]));
        assert(b.contains(b[t]));
        let in_b = choose|q: int| 0 <= q < b.len() && b[q] == a[t];
        let in_a = choose|q: int| 0 <= q < a.len() && a[q] == b[t];
        if in_b < t {
            assert(a[in_b] < a[t]);
        }
        if in_a < t {
            assert(b[in_a] < b[t]);
        }
        if in_b > t && in_a > t {
            assert(b[t] < b[in_b]);
            assert(a[t] < a[in_a]);
        }
    }
}

/// Two ascending lists that hold the same numbers are the same list.
proof fn lemma_ascending_unique(a: Seq<i32>, b: Seq<i32>)
    requires
        forall|i: int, j: int| 0 <= i < j < a.len() ==> a[i] < a[j],
        forall|i: int, j: int| 0 <= i < j < b.len() ==> b[i] < b[j],
        forall|v: i32| a.contains(v) <==> b.contains(v),
    ensures
        a == b,
{
    if a.len() <= b.len() {
        lemma_ascending_agree(a, b, a.len() as int);
        if a.len() < b.len() {
            let extra = b[a.len() as int];
            assert(b.contains(extra));
            let q = choose|q: int| 0 <= q < a.len() && a[q] == extra;
            assert(b[q] < b[a.len() as int]);
        }
    } else {
        lemma_ascending_agree(a, b, b.len() as int);
        let extra = a[b.len() as int];
        assert(a.contains(extra));
        let q = choose|q: int| 0 <= q < b.len() && b[q] == extra;
        assert(a[q] < a[b.len() as int]);
    }
    assert(a =~= b);
}

/// Rings that follow the same walks over the same events have the same places among the
/// rings, below ring `r`.
proof fn lemma_places_agree(
    events: Seq<SweepEvent>,
    order: Seq<usize>,
    walks: Seq<Seq<i32>>,
    a: Seq<ContourView>,
    b: Seq<ContourView>,
    r: int,
)
    requires
        a.len() == walks.len(),
        b.len() == walks.len(),
        forall|s: int| 0 <= s < walks.len() ==> #[trigger] ring_follows(events, order, walks, a, s),
        forall|s: int| 0 <= s < walks.len() ==> #[trigger] ring_follows(events, order, walks, b, s),
        0 <= r <= walks.len(),
    ensures
        forall|s: int|
            0 <= s < r ==> (#[trigger] a[s]).hole_of == b[s].hole_of && a[s].depth == b[s].depth
                && a[s].points == b[s].points,
    decreases r,
{
    if r > 0 {
        lemma_places_agree(events, order, walks, a, b, r - 1);
        assert(ring_follows(events, order, walks, a, r - 1));
        assert(ring_follows(events, order, walks, b, r - 1));
    }
}

/// The holes listed by ring `p` are the same in two forests with the same places.
proof fn lemma_holes_agree(a: Seq<ContourView>, b: Seq<ContourView>, p: int)
    requires
        is_forest(a),
        is_forest(b),
        a.len() == b.len(),
        a.len() <= i32::MAX,
        forall|s: int| 0 <= s < a.len() ==> (#[trigger] a[s]).hole_of == b[s].hole_of,
        0 <= p < a.len(),
    ensures
        a[p].hole_ids == b[p].hole_ids,
{
    let x = a[p].hole_ids;
    let y = b[p].hole_ids;
    lemma_forest_lists_holes(a, p, 0);
    lemma_forest_lists_holes(b, p, 0);
    assert forall|v: i32| x.contains(v) <==> y.contains(v) by {
        if x.contains(v) {
            lemma_listed_is_ring(a, p, v);
            lemma_forest_lists_holes(a, p, v as int);
            lemma_forest_lists_holes(b, p, v as int);
        }
        if y.contains(v) {
            lemma_listed_is_ring(b, p, v);
            lemma_forest_lists_holes(a, p, v as int);
            lemma_forest_lists_holes(b, p, v as int);
        }
    }
    lemma_ascending_unique(x, y);
}

/// What a ring of a forest lists as a hole is a ring.
proof fn lemma_listed_is_ring(rings: Seq<ContourView>, p: int, v: i32)
    requires
        is_forest(rings),
        0 <= p < rings.len(),
        rings[p].hole_ids.contains(v),
    ensures
        0 <= v < rings.len(),
{
    reveal(is_forest);
    let k = choose|k: int| 0 <= k < rings[p].hole_ids.len() && rings[p].hole_ids[k] == v;
    assert(p < rings[p].hole_ids[k] < rings.len());
}

/// The events determine the rings: whatever `connect_edges` may return for given events, it
/// is the same order of traversal, the same walks, the same events afterwards, and the
/// same rings.
pub proof fn lemma_connects_unique(
    before: Seq<SweepEvent>,
    after: Seq<SweepEvent>,
    order: Seq<usize>,
    walks: Seq<Seq<i32>>,
    rings: Seq<ContourView>,
    other_after: Seq<SweepEvent>,
    other_order: Seq<usize>,
    other_walks: Seq<Seq<i32>>,
    other_rings: Seq<ContourView>,
)
    requires
        before.len() <= i32::MAX,
        connects(before, after, order, walks, rings),
        connects(before, other_after, other_order, other_walks, other_rings),
    ensures
        other_order == order,
        other_walks == walks,
        other_after == after,
        other_rings == rings,
{
    lemma_event_order_unique(before, order, other_order);
    let points = points_along(after, order);
    let partners = partners_along(after, order);
    assert forall|p: int| 0 <= p < order.len() implies after[#[trigger] order[p] as int].point
        == other_after[order[p] as int].point && after[order[p] as int].other_pos
        == other_after[order[p] as int].other_pos by {
        assert(is_tagged_at(before, order, after, p));
        assert(is_tagged_at(before, order, other_after, p));
        let q = after[order[p] as int].other_pos as int;
        let other_q = other_after[order[p] as int].other_pos as int;
        if q < other_q {
            assert(sweeps_before(before, order[q] as int, order[other_q] as int));
        } else if other_q < q {
            assert(sweeps_before(before, order[other_q] as int, order[q] as int));
        }
    }
    assert(points_along(other_after, order) =~= points);
    assert(partners_along(other_after, order) =~= partners);
    lemma_traversal_unique(points, partners, walks, other_walks);
    lemma_each_position_once(points, partners, walks);

    assert forall|i: int| 0 <= i < before.len() implies after[i] == other_after[i] by {
        if on_boundary(before, i) {
            let p = choose|p: int| 0 <= p < order.len() && #[trigger] order[p] == i;
            assert(is_tagged_at(before, order, after, p));
            assert(is_tagged_at(before, order, other_after, p));
            assert(is_visited(walks, p as i32));
            let (r, k) = choose|r: int, k: int|
                0 <= r < walks.len() && 0 <= k < walks[r].len() && #[trigger] walks[r][k]
                    == p as i32;
            assert(after[order[walks[r][k] as int] as int].output_contour_id == r);
            assert(other_after[order[walks[r][k] as int] as int].output_contour_id == r);
        }
    }
    assert(other_after =~= after);

    lemma_places_agree(after, order, walks, rings, other_rings, rings.len() as int);
    lemma_walks_fit(points, partners, walks);
    assert forall|r: int| 0 <= r < rings.len() implies rings[r] == other_rings[r] by {
        lemma_holes_agree(rings, other_rings, r);
    }
    assert(other_rings =~= rings);
}

/// There are no more walks than positions.
proof fn lemma_walks_fit(points: Seq<Coordinate>, partners: Seq<i32>, walks: Seq<Seq<i32>>)
    requires
        is_traversal(points, partners, walks),
    ensures
        walks.len() <= points.len(),
{
    lemma_first_steps_ascend(points, partners, walks, walks.len() as int);
    if walks.len() > 0 {
        let last = walks.len() - 1;
        assert(is_ring_walk_at(points, partners, walks, last));
        assert(is_step(points, partners, visited_by(walks, last), walks[last], 0));
    }
}

/// Each walk begins above the walks before it: walk `s` does not begin below position `s`.
proof fn lemma_first_steps_ascend(
    points: Seq<Coordinate>,
    partners: Seq<i32>,
    walks: Seq<Seq<i32>>,
    r: int,
)
    requires
        is_traversal(points, partners, walks),
        0 <= r <= walks.len(),
    ensures
        forall|s: int| 0 <= s < r ==> s <= (#[trigger] walks[s])[0],
    decreases r,
{
    if r > 0 {
        lemma_first_steps_ascend(points, partners, walks, r - 1);
        let s = r - 1;
        assert(is_ring_walk_at(points, partners, walks, s));
        assert(is_step(points, partners, visited_by(walks, s), walks[s], 0));
        if s > 0 {
            // The walk before began at a position that this one finds visited.
            let first = walks[s - 1][0];
            assert(is_ring_walk_at(points, partners, walks, s - 1));
            assert(is_step(points, partners, visited_by(walks, s - 1), walks[s - 1], 0));
            assert(visited_along(visited_by(walks, s - 1), walks[s - 1], 1).contains(first));
            lemma_visited_along_grows(
                visited_by(walks, s - 1),
                walks[s - 1],
                1,
                walks[s - 1].len() as int,
                first,
            );
            assert(visited_by(walks, s).contains(first));
            if walks[s][0] < first {
                assert(visited_by(walks, s - 1).contains(walks[s][0]));
                lemma_visited_along_grows(
                    visited_by(walks, s - 1),
                    walks[s - 1],
                    0,
                    walks[s - 1].len() as int,
                    walks[s][0],
                );
            }
        }
    }
}

/// What has been visited stays visited as a walk goes on.
proof fn lemma_visited_along_grows(before: Set<i32>, walk: Seq<i32>, k: int, l: int, p: i32)
    requires
        0 <= k <= l,
        visited_along(before, walk, k).contains(p),
    ensures
        visited_along(before, walk, l).contains(p),
    decreases l,
{
    if k < l {
        lemma_visited_along_grows(before, walk, k, l - 1, p);
    }
}

} // verus!
