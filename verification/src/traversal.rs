//! What it is to walk along the rings of a result boundary: the relation between the events
//! that the sweep hands over and the rings that are made of them.

use crate::contour::{is_forest, is_on_ring_below, nesting, ring_below, ContourView};
use crate::order::is_event_order;
use crate::sweep_event::{on_boundary, sweeps_before, Coordinate, SweepEvent};
use vstd::prelude::*;

verus! {

/// The points of the events on the result boundary, in traversal order.
pub open spec fn points_along(events: Seq<SweepEvent>, order: Seq<usize>) -> Seq<Coordinate> {
    Seq::new(order.len(), |p: int| events[order[p] as int].point)
}

/// The positions of the partners of the events on the result boundary, in traversal order.
pub open spec fn partners_along(events: Seq<SweepEvent>, order: Seq<usize>) -> Seq<i32> {
    Seq::new(order.len(), |p: int| events[order[p] as int].other_pos)
}

/// All positions from just after `pos` up to `j` hold the point of `pos`.
pub open spec fn in_run(points: Seq<Coordinate>, pos: i32, j: i32) -> bool {
    forall|k: i32| pos < k <= j ==> #[trigger] points[k as int] == points[pos as int]
}

/// Position `j` is one where a walk that has arrived at `pos` can go on forwards: it comes
/// after `pos`, everything from `pos` to it lies on one point, and it has not been visited.
pub open spec fn goes_on_at(points: Seq<Coordinate>, done: Set<i32>, pos: i32, j: i32) -> bool {
    pos < j < points.len() && in_run(points, pos, j) && !done.contains(j)
}

/// Position `j` is one where the search backwards stops: it has not been visited, or the
/// search has come down to where the ring began.
pub open spec fn stops_at(done: Set<i32>, orig_pos: i32, j: i32) -> bool {
    !done.contains(j) || j <= orig_pos
}

/// `next` is where a walk goes on that began at `orig_pos` and has arrived at `pos`, after
/// the positions in `done` have been visited.
///
/// It is the first position after `pos` where the walk can go on forwards. If there is none,
/// it is the first position below `pos` at which the search backwards stops.
#[verifier::opaque]
pub open spec fn is_next_pos(
    points: Seq<Coordinate>,
    done: Set<i32>,
    pos: i32,
    orig_pos: i32,
    next: i32,
) -> bool {
    ||| {
        &&& goes_on_at(points, done, pos, next)
        &&& forall|j: i32| pos < j < next ==> !goes_on_at(points, done, pos, j)
    }
    ||| {
        &&& forall|j: i32| !goes_on_at(points, done, pos, j)
        &&& next < pos
        &&& stops_at(done, orig_pos, next)
        &&& forall|j: i32| next < j < pos ==> !stops_at(done, orig_pos, j)
    }
}

/// There is only one place to go on.
pub proof fn lemma_next_pos_unique(
    points: Seq<Coordinate>,
    done: Set<i32>,
    pos: i32,
    orig_pos: i32,
    a: i32,
    b: i32,
)
    requires
        is_next_pos(points, done, pos, orig_pos, a),
        is_next_pos(points, done, pos, orig_pos, b),
    ensures
        a == b,
{
    reveal(is_next_pos);
}

/// Position `p` has a partner other than itself, whose partner it is.
pub open spec fn is_matched_at(partners: Seq<i32>, p: int) -> bool {
    let q = partners[p];
    &&& 0 <= q < partners.len()
    &&& q != p
    &&& partners[q as int] == p
}

/// The positions come in pairs.
pub open spec fn is_matching(partners: Seq<i32>) -> bool {
    forall|p: int| 0 <= p < partners.len() ==> #[trigger] is_matched_at(partners, p)
}

/// The positions in `before` together with the first `k` positions of `walk`.
pub open spec fn visited_along(before: Set<i32>, walk: Seq<i32>, k: int) -> Set<i32>
    decreases k,
{
    if k <= 0 {
        before
    } else {
        visited_along(before, walk, k - 1).insert(walk[k - 1])
    }
}

/// The positions that the first `r` walks have visited.
pub open spec fn visited_by(walks: Seq<Seq<i32>>, r: int) -> Set<i32>
    decreases r,
{
    if r <= 0 {
        Set::empty()
    } else {
        visited_along(visited_by(walks, r - 1), walks[r - 1], walks[r - 1].len() as int)
    }
}

/// Step `k` of `walk` is as it should be: it visits a position that has not been visited,
/// which is the partner of the position before it where the step goes along a segment, and
/// what `is_next_pos` gives, other than the position the walk began at, where the step goes
/// on from the end of a segment.
pub open spec fn is_step(
    points: Seq<Coordinate>,
    partners: Seq<i32>,
    before: Set<i32>,
    walk: Seq<i32>,
    k: int,
) -> bool {
    &&& 0 <= walk[k] < points.len()
    &&& !visited_along(before, walk, k).contains(walk[k])
    &&& if k % 2 == 1 {
        walk[k] == partners[walk[k - 1] as int]
    } else if k > 0 {
        walk[k] != walk[0] && is_next_pos(
            points,
            visited_along(before, walk, k),
            walk[k - 1],
            walk[0],
            walk[k],
        )
    } else {
        true
    }
}

/// `walk` is the walk along one ring, made after the positions in `before` have been
/// visited.
///
/// It begins at the lowest position that has not been visited. From there it goes in turns
/// along a segment to the partner of where it is, and on from the partner to the next
/// position that `is_next_pos` gives. It visits no position that has been visited, and it ends
/// after a segment, where the next position would be the one it began at.
pub open spec fn is_ring_walk(
    points: Seq<Coordinate>,
    partners: Seq<i32>,
    before: Set<i32>,
    walk: Seq<i32>,
) -> bool {
    &&& walk.len() >= 2
    &&& walk.len() % 2 == 0
    &&& forall|j: i32| 0 <= j < walk[0] ==> before.contains(j)
    &&& forall|k: int| 0 <= k < walk.len() ==> #[trigger] is_step(points, partners, before, walk, k)
    &&& is_next_pos(
        points,
        visited_along(before, walk, walk.len() as int),
        walk[walk.len() - 1],
        walk[0],
        walk[0],
    )
}

/// Walk `r` is the walk along a ring, made after the walks before it.
pub open spec fn is_ring_walk_at(
    points: Seq<Coordinate>,
    partners: Seq<i32>,
    walks: Seq<Seq<i32>>,
    r: int,
) -> bool {
    is_ring_walk(points, partners, visited_by(walks, r), walks[r])
}

/// The walks go along one ring after the other, and in the end every position has been
/// visited. No position is visited twice, because no step of a ring walk visits a position
/// that has been visited.
pub open spec fn is_traversal(
    points: Seq<Coordinate>,
    partners: Seq<i32>,
    walks: Seq<Seq<i32>>,
) -> bool {
    &&& forall|r: int|
        0 <= r < walks.len() ==> #[trigger] is_ring_walk_at(points, partners, walks, r)
    &&& forall|p: i32|
        0 <= p < points.len() ==> visited_by(walks, walks.len() as int).contains(p)
}

/// The vertices of the ring that `walk` goes along: the point it begins at, and then the
/// point at the far end of each segment.
pub open spec fn points_of_walk(points: Seq<Coordinate>, walk: Seq<i32>) -> Seq<Coordinate> {
    Seq::new(
        (walk.len() / 2 + 1) as nat,
        |k: int|
            if k == 0 {
                points[walk[0] as int]
            } else {
                points[walk[2 * k - 1] as int]
            },
    )
}

/// What is visited along a walk depends only on the part of the walk that has been walked.
pub proof fn lemma_visited_along_prefix(before: Set<i32>, a: Seq<i32>, b: Seq<i32>, k: int)
    requires
        k <= a.len(),
        k <= b.len(),
        forall|j: int| 0 <= j < k ==> a[j] == b[j],
    ensures
        visited_along(before, a, k) == visited_along(before, b, k),
    decreases k,
{
    if k > 0 {
        lemma_visited_along_prefix(before, a, b, k - 1);
    }
}

/// What the first walks have visited does not depend on the walks that follow.
pub proof fn lemma_visited_by_prefix(a: Seq<Seq<i32>>, b: Seq<Seq<i32>>, r: int)
    requires
        r <= a.len(),
        r <= b.len(),
        forall|j: int| 0 <= j < r ==> a[j] == b[j],
    ensures
        visited_by(a, r) == visited_by(b, r),
    decreases r,
{
    if r > 0 {
        lemma_visited_by_prefix(a, b, r - 1);
    }
}

/// If the event at index `i` is on the result boundary, whatever lies just below it is on
/// the result boundary too and comes before it in traversal order.
pub open spec fn has_earlier_below(events: Seq<SweepEvent>, i: int) -> bool {
    on_boundary(events, i) ==> match events[i].prev_in_result {
        Some(j) => on_boundary(events, j as int) && sweeps_before(events, j as int, i),
        None => true,
    }
}

/// Whatever lies just below an event of the result boundary belongs to the result boundary
/// too and comes before the event in traversal order.
pub open spec fn rests_on_earlier(events: Seq<SweepEvent>) -> bool {
    forall|i: int| 0 <= i < events.len() ==> #[trigger] has_earlier_below(events, i)
}

/// `f` is what `e` was, but for the position of its partner and the ring it is on.
pub open spec fn is_tagged(e: SweepEvent, f: SweepEvent) -> bool {
    f == (SweepEvent { other_pos: f.other_pos, output_contour_id: f.output_contour_id, ..e })
}

/// The event at position `p` of `order` is in `after` what it was in `before`, but for the
/// position of its partner and the ring it is on.
pub open spec fn is_tagged_at(
    before: Seq<SweepEvent>,
    order: Seq<usize>,
    after: Seq<SweepEvent>,
    p: int,
) -> bool {
    let e = before[order[p] as int];
    let f = after[order[p] as int];
    &&& is_tagged(e, f)
    &&& 0 <= f.other_pos < order.len()
    &&& order[f.other_pos as int] == e.other_event
}

/// The event is on ring `r`.
pub open spec fn is_on_ring(event: SweepEvent, r: int) -> bool {
    event.output_contour_id == r
}

/// `after` is `before` with every event of the result boundary linked to the position of
/// its partner and put on the ring whose walk visits it, and nothing else changed.
pub open spec fn tags_events(
    before: Seq<SweepEvent>,
    order: Seq<usize>,
    walks: Seq<Seq<i32>>,
    after: Seq<SweepEvent>,
) -> bool {
    &&& after.len() == before.len()
    &&& forall|i: int|
        0 <= i < before.len() && !on_boundary(before, i) ==> #[trigger] after[i] == before[i]
    &&& forall|p: int| 0 <= p < order.len() ==> #[trigger] is_tagged_at(before, order, after, p)
    &&& forall|r: int, k: int|
        0 <= r < walks.len() && 0 <= k < walks[r].len() ==> is_on_ring(
            after[order[#[trigger] walks[r][k] as int] as int],
            r,
        )
}

/// Ring `r` is what walk `r` leaves behind: it has the vertices along the walk, and its
/// place among the rings is the one that `nesting` gives for what lies below the event that
/// the walk begins at, which is on a ring that was made before.
pub open spec fn ring_follows(
    events: Seq<SweepEvent>,
    order: Seq<usize>,
    walks: Seq<Seq<i32>>,
    rings: Seq<ContourView>,
    r: int,
) -> bool {
    let first = events[order[walks[r][0] as int] as int];
    &&& rings[r].points == points_of_walk(points_along(events, order), walks[r])
    &&& (rings[r].hole_of, rings[r].depth as int) == nesting(ring_below(first, events), rings)
    &&& is_on_ring_below(ring_below(first, events), r)
}

/// The rings are what the walks leave behind, and they form a forest.
pub open spec fn rings_follow(
    events: Seq<SweepEvent>,
    order: Seq<usize>,
    walks: Seq<Seq<i32>>,
    rings: Seq<ContourView>,
) -> bool {
    &&& rings.len() == walks.len()
    &&& is_forest(rings)
    &&& forall|r: int|
        0 <= r < rings.len() ==> #[trigger] ring_follows(events, order, walks, rings, r)
}

/// `rings` are the rings of the result boundary of `before`: `order` puts the events of the
/// boundary into traversal order, `walks` go along them ring by ring, `after` holds for each
/// event the position of its partner and the ring it is on, and `rings` hold the vertices and
/// the nesting.
pub open spec fn connects(
    before: Seq<SweepEvent>,
    after: Seq<SweepEvent>,
    order: Seq<usize>,
    walks: Seq<Seq<i32>>,
    rings: Seq<ContourView>,
) -> bool {
    &&& is_event_order(before, order)
    &&& tags_events(before, order, walks, after)
    &&& is_matching(partners_along(after, order))
    &&& is_traversal(points_along(after, order), partners_along(after, order), walks)
    &&& rings_follow(after, order, walks, rings)
}

/// A position has been visited along a walk exactly when it was visited before the walk or
/// is one of the steps made.
pub proof fn lemma_visited_along_contains(before: Set<i32>, walk: Seq<i32>, k: int, p: i32)
    requires
        0 <= k <= walk.len(),
    ensures
        visited_along(before, walk, k).contains(p) <==> before.contains(p) || exists|j: int|
            0 <= j < k && walk[j] == p,
    decreases k,
{
    if k > 0 {
        lemma_visited_along_contains(before, walk, k - 1, p);
        if visited_along(before, walk, k - 1).contains(p) {
        } else if walk[k - 1] == p {
        } else {
            assert forall|j: int| 0 <= j < k implies walk[j] != p by {
                if j < k - 1 {
                }
            }
        }
    }
}

/// A position has been visited by the first `r` walks exactly when it is a step of one of
/// them.
pub proof fn lemma_visited_by_contains(walks: Seq<Seq<i32>>, r: int, p: i32)
    requires
        0 <= r <= walks.len(),
    ensures
        visited_by(walks, r).contains(p) <==> exists|s: int, k: int|
            0 <= s < r && 0 <= k < walks[s].len() && walks[s][k] == p,
    decreases r,
{
    if r > 0 {
        lemma_visited_by_contains(walks, r - 1, p);
        let last = walks[r - 1];
        lemma_visited_along_contains(visited_by(walks, r - 1), last, last.len() as int, p);
        if visited_by(walks, r).contains(p) {
            if visited_by(walks, r - 1).contains(p) {
                let (s, k) = choose|s: int, k: int|
                    0 <= s < r - 1 && 0 <= k < walks[s].len() && walks[s][k] == p;
                assert(0 <= s < r && 0 <= k < walks[s].len() && walks[s][k] == p);
            } else {
                let j = choose|j: int| 0 <= j < last.len() && last[j] == p;
                assert(0 <= r - 1 < r && 0 <= j < walks[r - 1].len() && walks[r - 1][j] == p);
            }
        }
        if exists|s: int, k: int| 0 <= s < r && 0 <= k < walks[s].len() && walks[s][k] == p {
            let (s, k) = choose|s: int, k: int|
                0 <= s < r && 0 <= k < walks[s].len() && walks[s][k] == p;
            if s < r - 1 {
                assert(0 <= s < r - 1 && 0 <= k < walks[s].len() && walks[s][k] == p);
            } else {
                assert(0 <= k < last.len() && last[k] == p);
            }
        }
    }
}

/// Some step of some walk visits position `p`.
pub open spec fn is_visited(walks: Seq<Seq<i32>>, p: i32) -> bool {
    exists|r: int, k: int|
        0 <= r < walks.len() && 0 <= k < walks[r].len() && #[trigger] walks[r][k] == p
}

/// The walks of a traversal part the positions among them: every step visits a position,
/// every position is visited, and no position is visited by two steps.
pub proof fn lemma_each_position_once(
    points: Seq<Coordinate>,
    partners: Seq<i32>,
    walks: Seq<Seq<i32>>,
)
    requires
        is_traversal(points, partners, walks),
    ensures
        forall|r: int, k: int|
            0 <= r < walks.len() && 0 <= k < walks[r].len() ==> 0 <= #[trigger] walks[r][k]
                < points.len(),
        forall|p: i32| 0 <= p < points.len() ==> #[trigger] is_visited(walks, p),
        forall|r: int, k: int, s: int, l: int|
            0 <= r < walks.len() && 0 <= k < walks[r].len() && 0 <= s < walks.len() && 0 <= l
                < walks[s].len() && #[trigger] walks[r][k] == #[trigger] walks[s][l] ==> r == s
                && k == l,
{
    assert forall|r: int, k: int|
        0 <= r < walks.len() && 0 <= k < walks[r].len() implies 0 <= #[trigger] walks[r][k]
        < points.len() by {
        assert(is_ring_walk_at(points, partners, walks, r));
        assert(is_step(points, partners, visited_by(walks, r), walks[r], k));
    }
    assert forall|p: i32| 0 <= p < points.len() implies #[trigger] is_visited(walks, p) by {
        lemma_visited_by_contains(walks, walks.len() as int, p);
        let (r, k) = choose|r: int, k: int|
            0 <= r < walks.len() && 0 <= k < walks[r].len() && walks[r][k] == p;
        assert(0 <= r < walks.len() && 0 <= k < walks[r].len() && walks[r][k] == p);
    }
    assert forall|r: int, k: int, s: int, l: int|
        0 <= r < walks.len() && 0 <= k < walks[r].len() && 0 <= s < walks.len() && 0 <= l
            < walks[s].len() && #[trigger] walks[r][k] == #[trigger] walks[s][l] implies r == s
        && k == l by {
        if r < s || (r == s && k < l) {
            lemma_step_is_new(points, partners, walks, r, k, s, l);
        } else if s < r || (r == s && l < k) {
            lemma_step_is_new(points, partners, walks, s, l, r, k);
        }
    }
}

/// A step of a walk does not visit what an earlier step has visited.
proof fn lemma_step_is_new(
    points: Seq<Coordinate>,
    partners: Seq<i32>,
    walks: Seq<Seq<i32>>,
    r: int,
    k: int,
    s: int,
    l: int,
)
    requires
        is_traversal(points, partners, walks),
        0 <= r < walks.len(),
        0 <= k < walks[r].len(),
        0 <= s < walks.len(),
        0 <= l < walks[s].len(),
        r < s || (r == s && k < l),
    ensures
        walks[r][k] != walks[s][l],
{
    let p = walks[r][k];
    let before = visited_by(walks, s);
    assert(is_ring_walk_at(points, partners, walks, s));
    assert(is_step(points, partners, before, walks[s], l));
    lemma_visited_along_contains(before, walks[s], l, p);
    if r < s {
        lemma_visited_by_contains(walks, s, p);
        assert(0 <= r < s && 0 <= k < walks[r].len() && walks[r][k] == p);
    } else {
        assert(0 <= k < l && walks[s][k] == p);
    }
}

/// After `connect_edges`, the event at each position is on one ring, and it is the walk
/// along that ring, and no other, that visits the position.
pub proof fn lemma_event_is_on_its_ring(
    before: Seq<SweepEvent>,
    after: Seq<SweepEvent>,
    order: Seq<usize>,
    walks: Seq<Seq<i32>>,
    rings: Seq<ContourView>,
    p: int,
)
    requires
        before.len() <= i32::MAX,
        connects(before, after, order, walks, rings),
        0 <= p < order.len(),
    ensures
        0 <= after[order[p] as int].output_contour_id < rings.len(),
        walks[after[order[p] as int].output_contour_id as int].contains(p as i32),
        forall|r: int|
            0 <= r < walks.len() && #[trigger] walks[r].contains(p as i32) ==> is_on_ring(
                after[order[p] as int],
                r,
            ),
{
    let points = points_along(after, order);
    let partners = partners_along(after, order);
    lemma_each_position_once(points, partners, walks);
    assert(is_visited(walks, p as i32));
    let (r, k) = choose|r: int, k: int|
        0 <= r < walks.len() && 0 <= k < walks[r].len() && #[trigger] walks[r][k] == p as i32;
    assert(after[order[walks[r][k] as int] as int].output_contour_id == r);
    assert forall|s: int| 0 <= s < walks.len() && #[trigger] walks[s].contains(p as i32) implies s
        == r by {
        let l = choose|l: int| 0 <= l < walks[s].len() && walks[s][l] == p as i32;
        assert(walks[s][l] == walks[r][k]);
    }
}

} // verus!
