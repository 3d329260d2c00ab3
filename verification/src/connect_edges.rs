//! Walking along the ordered events of the result boundary and closing them into rings.

use crate::contour::{
    has_place, is_forest, is_in_place, is_on_ring_below, lemma_forest_grows,
    lemma_forest_has_places, lemma_no_rings_are_a_forest, nesting, new_ring, ring_below, views,
    with_hole, Contour, ContourView,
};
use crate::order::{is_event_order, is_linked_at, links_partners, order_events};
use crate::sweep_event::{
    has_partner, is_paired, on_boundary, same_point, sweeps_before, Coordinate, SweepEvent,
};
use crate::traversal::{
    connects, goes_on_at, has_earlier_below, in_run, is_matched_at, is_matching, is_next_pos,
    is_on_ring, is_ring_walk, is_ring_walk_at, is_step, is_tagged, is_tagged_at,
    lemma_event_is_on_its_ring,
    lemma_visited_along_prefix, lemma_visited_by_prefix, partners_along, points_along,
    points_of_walk, rests_on_earlier, ring_follows, stops_at, visited_along, visited_by,
};
use std::collections::HashSet;
use vstd::prelude::*;
use vstd::set_lib::{lemma_int_range, set_int_range};

verus! {

/// Finds where the walk goes on from `pos`: at the next event on the same point that has
/// not been visited or, if there is none, at the nearest event below `pos` that has not been
/// visited. The search below `pos` ends at `orig_pos`, where the ring began: that answer says
/// that the ring is closed.
pub fn next_pos(
    pos: i32,
    sorted_events: &[SweepEvent],
    result_events: &[usize],
    processed: &HashSet<i32>,
    orig_pos: i32,
) -> (next: i32)
    requires
        0 <= pos < result_events.len() <= i32::MAX,
        forall|p: int|
            0 <= p < result_events.len() ==> #[trigger] result_events[p] < sorted_events.len(),
    ensures
        is_next_pos(
            points_along(sorted_events@, result_events@),
            processed@,
            pos,
            orig_pos,
            next,
        ),
{
    let ghost points = points_along(sorted_events@, result_events@);
    let here = sorted_events[result_events[pos as usize]].point;
    let mut new_pos = pos + 1;
    let length = result_events.len() as i32;
    let mut ahead = if new_pos < length {
        sorted_events[result_events[new_pos as usize]].point
    } else {
        here
    };

    while new_pos < length && same_point(&here, &ahead)
        invariant
            0 <= pos < new_pos <= length == result_events.len(),
            points == points_along(sorted_events@, result_events@),
            here == points[pos as int],
            new_pos < length ==> ahead == points[new_pos as int],
            forall|p: int|
                0 <= p < result_events.len() ==> #[trigger] result_events[p] < sorted_events.len(),
            forall|j: i32| pos < j < new_pos ==> #[trigger] points[j as int] == points[pos as int],
            forall|j: i32| pos < j < new_pos ==> #[trigger] processed@.contains(j),
        decreases length - new_pos,
    {
        if !processed.contains(&new_pos) {
            proof {
                reveal(is_next_pos);
                assert(in_run(points, pos, new_pos));
            }
            return new_pos;
        } else {
            new_pos += 1;
        }
        if new_pos < length {
            ahead = sorted_events[result_events[new_pos as usize]].point;
        }
    }
    proof {
        reveal(is_next_pos);
        assert forall|j: i32| !goes_on_at(points, processed@, pos, j) by {
            if pos < j < length && in_run(points, pos, j) && new_pos <= j {
                assert(points[new_pos as int] == points[pos as int]);
            }
        }
    }

    new_pos = pos - 1;

    while processed.contains(&new_pos) && new_pos > orig_pos
        invariant
            new_pos < pos,
            forall|j: i32| new_pos < j < pos ==> !stops_at(processed@, orig_pos, j),
        decreases new_pos - orig_pos,
    {
        new_pos -= 1;
    }
    new_pos
}

/// Marks position `pos` as visited and puts its event on ring number `contour_id`.
pub fn mark_as_processed(
    processed: &mut HashSet<i32>,
    sorted_events: &mut [SweepEvent],
    result_events: &[usize],
    pos: i32,
    contour_id: i32,
)
    requires
        0 <= pos < result_events.len(),
        result_events[pos as int] < old(sorted_events).len(),
    ensures
        final(processed)@ == old(processed)@.insert(pos),
        final(sorted_events)@ == old(sorted_events)@.update(
            result_events[pos as int] as int,
            SweepEvent {
                output_contour_id: contour_id,
                ..old(sorted_events)[result_events[pos as int] as int]
            },
        ),
{
    processed.insert(pos);
    sorted_events[result_events[pos as usize]].output_contour_id = contour_id;
}

/// Whether the event at `index` lies on the boundary of the result.
fn lies_on_boundary(sorted_events: &[SweepEvent], index: usize) -> (on: bool)
    requires
        index < sorted_events.len(),
        has_partner(sorted_events@, index as int),
    ensures
        on == on_boundary(sorted_events@, index as int),
{
    let event = sorted_events[index];
    if event.is_left {
        event.is_in_result
    } else {
        sorted_events[event.other_event].is_in_result
    }
}

/// Whether `connect_edges` can be called on these events: there are no more of them than
/// positions can be counted, each has its partner, and whatever lies below an event of the
/// result boundary is on the boundary and comes before the event.
pub fn is_well_formed(sorted_events: &[SweepEvent]) -> (ok: bool)
    ensures
        ok == (sorted_events.len() <= i32::MAX && is_paired(sorted_events@) && rests_on_earlier(
            sorted_events@,
        )),
{
    let n = sorted_events.len();
    if n > 0x7fff_ffff {
        return false;
    }
    for i in 0..n
        invariant
            n == sorted_events.len(),
            forall|j: int| 0 <= j < i ==> #[trigger] has_partner(sorted_events@, j),
    {
        let event = sorted_events[i];
        let other = event.other_event;
        if other >= n || sorted_events[other].other_event != i || sorted_events[other].is_left
            == event.is_left {
            assert(!has_partner(sorted_events@, i as int));
            return false;
        }
    }
    for i in 0..n
        invariant
            n == sorted_events.len(),
            is_paired(sorted_events@),
            forall|j: int| 0 <= j < i ==> #[trigger] has_earlier_below(sorted_events@, j),
    {
        assert(has_partner(sorted_events@, i as int));
        if lies_on_boundary(sorted_events, i) {
            let event = sorted_events[i];
            match event.prev_in_result {
                Some(below) => {
                    if below >= n {
                        assert(!has_earlier_below(sorted_events@, i as int));
                        return false;
                    }
                    assert(has_partner(sorted_events@, below as int));
                    let lower = sorted_events[below];
                    let before = lower.order_key < event.order_key || (lower.order_key
                        == event.order_key && below < i);
                    if !lies_on_boundary(sorted_events, below) || !before {
                        assert(!has_earlier_below(sorted_events@, i as int));
                        return false;
                    }
                },
                None => {},
            }
        }
    }
    true
}

/// Joins the segments of the result boundary into rings.
///
/// The events of the boundary are put into traversal order. Then, from the lowest position
/// that is on no ring yet, a walk goes along a segment to the partner, from there to the next
/// event on the same point that is on no ring, and so on until it is back where it began:
/// that is one ring. Each ring is told which ring it is a hole of, if any, by what lies
/// just below the event it begins at.
///
/// Every event of the boundary is left with the position of its partner in `other_pos` and
/// the number of its ring in `output_contour_id`.
pub fn connect_edges(sorted_events: &mut [SweepEvent]) -> (contours: Vec<Contour>)
    requires
        is_paired(old(sorted_events)@),
        rests_on_earlier(old(sorted_events)@),
        old(sorted_events).len() <= i32::MAX,
    ensures
        exists|order: Seq<usize>, walks: Seq<Seq<i32>>|
            connects(
                old(sorted_events)@,
                final(sorted_events)@,
                order,
                walks,
                views(contours@),
            ),
        is_forest(views(contours@)),
        final(sorted_events).len() == old(sorted_events).len(),
        forall|i: int|
            0 <= i < old(sorted_events).len() && !on_boundary(old(sorted_events)@, i)
                ==> #[trigger] final(sorted_events)[i] == old(sorted_events)[i],
        forall|i: int|
            on_boundary(old(sorted_events)@, i) ==> is_tagged(
                old(sorted_events)[i],
                #[trigger] final(sorted_events)[i],
            ) && 0 <= final(sorted_events)[i].output_contour_id < contours.len(),
{
    let ghost input = sorted_events@;
    let result_events = order_events(sorted_events);
    let ghost linked = sorted_events@;
    let ghost order = result_events@;
    let ghost points = points_along(linked, order);
    let ghost partners = partners_along(linked, order);
    let length = result_events.len() as i32;

    let mut contours: Vec<Contour> = Vec::new();
    let mut processed: HashSet<i32> = HashSet::new();
    let ghost mut walks = Seq::<Seq<i32>>::empty();
    let ghost mut ring_of = Seq::new(order.len(), |p: int| -1int);
    let ghost mut remaining = set_int_range(0, length as int);
    proof {
        lemma_laid_out(input, linked, order);
        lemma_nothing_done(linked, order, points, partners);
        lemma_int_range(0, length as int);
        assert(views(contours@) =~= Seq::<ContourView>::empty());
    }

    let mut i: i32 = 0;
    while i < length
        invariant
            0 <= i <= length == result_events.len(),
            result_events@ == order,
            sorted_events.len() == linked.len(),
            is_laid_out(linked, order, points, partners),
            is_progress(linked, order, sorted_events@, processed@, ring_of, contours.len() as int),
            rings_so_far(points, order, sorted_events@, walks, ring_of, views(contours@), i as int),
            contours.len() <= i,
            processed@ == visited_by(walks, walks.len() as int),
            are_ring_walks(points, partners, walks),
            is_pairwise(processed@, partners),
            forall|j: i32| 0 <= j < i ==> processed@.contains(j),
            forall|p: i32| #[trigger] processed@.contains(p) ==> 0 <= p < length,
            remaining.finite(),
            forall|p: int|
                remaining.contains(p) <==> 0 <= p < length && !processed@.contains(p as i32),
        decreases length - i,
    {
        if !processed.contains(&i) {
            let contour_id = contours.len() as i32;
            let ghost rings = views(contours@);
            let ghost before = processed@;
            proof {
                lemma_at(
                    linked,
                    order,
                    points,
                    partners,
                    sorted_events@,
                    processed@,
                    ring_of,
                    contours.len() as int,
                    i as int,
                );
                lemma_seed(
                    linked,
                    order,
                    points,
                    partners,
                    sorted_events@,
                    processed@,
                    ring_of,
                    walks,
                    rings,
                    i as int,
                );
            }
            let event = sorted_events[result_events[i as usize]];
            let ghost below = ring_below(event, sorted_events@);
            let mut contour = Contour::initialize_from_context(
                &event,
                sorted_events,
                contours.as_mut_slice(),
                contour_id,
            );
            let ghost fresh = contour@;
            proof {
                assert(fresh.points =~= Seq::<Coordinate>::empty());
                assert(fresh.hole_ids =~= Seq::<i32>::empty());
                assert(fresh == new_ring(below, rings));
            }

            let orig_pos = i;
            let mut pos = i;

            let initial = sorted_events[result_events[pos as usize]].point;
            contour.points.push(initial);
            let ghost mut walk = Seq::<i32>::empty();
            proof {
                assert(contour@.points =~= points_from(points, orig_pos, walk));
                reveal(is_walk_so_far);
            }

            loop
                invariant_except_break
                    0 <= pos < length,
                    !processed@.contains(pos),
                    walk.len() == 0 ==> pos == orig_pos,
                    walk.len() > 0 ==> walk[0] == orig_pos && pos != orig_pos && is_next_pos(
                        points,
                        processed@,
                        walk[walk.len() - 1],
                        orig_pos,
                        pos,
                    ),
                invariant
                    0 <= orig_pos < length == result_events.len(),
                    result_events@ == order,
                    sorted_events.len() == linked.len(),
                    contour_id == rings.len(),
                    contour_id == contours.len(),
                    contour_id <= orig_pos,
                    is_laid_out(linked, order, points, partners),
                    is_progress(
                        linked,
                        order,
                        sorted_events@,
                        processed@,
                        ring_of,
                        contour_id + 1,
                    ),
                    rings_so_far(
                        points,
                        order,
                        sorted_events@,
                        walks,
                        ring_of,
                        rings,
                        orig_pos as int,
                    ),
                    views(contours@) == with_hole(rings, fresh.hole_of, contour_id),
                    below == ring_below(
                        sorted_events@[order[orig_pos as int] as int],
                        sorted_events@,
                    ),
                    is_on_ring_below(below, rings.len() as int),
                    fresh == new_ring(below, rings),
                    contour@ == (ContourView { points: contour@.points, ..fresh }),
                    contour@.points == points_from(points, orig_pos, walk),
                    is_walk_so_far(points, partners, before, walk),
                    walk.len() % 2 == 0,
                    processed@ == visited_along(before, walk, walk.len() as int),
                    before == visited_by(walks, walks.len() as int),
                    forall|j: i32| 0 <= j < orig_pos ==> before.contains(j),
                    forall|j: i32| 0 <= j < orig_pos ==> processed@.contains(j),
                    walk.len() > 0 ==> processed@.contains(orig_pos),
                    forall|k: int|
                        0 <= k < walk.len() ==> 0 <= #[trigger] walk[k] < length
                            && ring_of[walk[k] as int] == contour_id,
                    are_ring_walks(points, partners, walks),
                    is_pairwise(processed@, partners),
                    forall|p: i32| #[trigger] processed@.contains(p) ==> 0 <= p < length,
                    remaining.finite(),
                    forall|p: int|
                        remaining.contains(p) <==> 0 <= p < length && !processed@.contains(
                            p as i32,
                        ),
                ensures
                    walk.len() >= 2,
                    walk[0] == orig_pos,
                    is_next_pos(points, processed@, walk[walk.len() - 1], orig_pos, orig_pos),
                decreases remaining.len(),
            {
                // An iteration moves `pos` twice: (A) along a segment, by `other_pos`, and
                // (B) to the next segment that leaves from the point reached. At the
                // beginning of an iteration `pos` is not marked yet, so there are two
                // marks. The ring gets a vertex after (A). When (B) gives `orig_pos` there
                // is no segment to go on with, and the ring is closed.
                let ghost start = pos;
                let ghost done0 = processed@;
                proof {
                    lemma_at(
                        linked,
                        order,
                        points,
                        partners,
                        sorted_events@,
                        done0,
                        ring_of,
                        contour_id + 1,
                        pos as int,
                    );
                    lemma_mark(
                        linked,
                        order,
                        points,
                        partners,
                        sorted_events@,
                        done0,
                        ring_of,
                        contour_id + 1,
                        walks,
                        rings,
                        orig_pos as int,
                        pos,
                        contour_id,
                    );
                    lemma_partner_free(done0, partners, pos);
                }
                mark_as_processed(
                    &mut processed,
                    sorted_events,
                    result_events.as_slice(),
                    pos,
                    contour_id,
                );
                proof {
                    ring_of = ring_of.update(pos as int, contour_id as int);
                    remaining = remaining.remove(pos as int);
                    lemma_at(
                        linked,
                        order,
                        points,
                        partners,
                        sorted_events@,
                        processed@,
                        ring_of,
                        contour_id + 1,
                        pos as int,
                    );
                }

                pos = sorted_events[result_events[pos as usize]].other_pos;  // (A)

                proof {
                    lemma_mark(
                        linked,
                        order,
                        points,
                        partners,
                        sorted_events@,
                        processed@,
                        ring_of,
                        contour_id + 1,
                        walks,
                        rings,
                        orig_pos as int,
                        pos,
                        contour_id,
                    );
                    lemma_walk_goes_on(points, partners, before, walk, start, pos);
                }
                mark_as_processed(
                    &mut processed,
                    sorted_events,
                    result_events.as_slice(),
                    pos,
                    contour_id,
                );
                proof {
                    ring_of = ring_of.update(pos as int, contour_id as int);
                    remaining = remaining.remove(pos as int);
                    lemma_at(
                        linked,
                        order,
                        points,
                        partners,
                        sorted_events@,
                        processed@,
                        ring_of,
                        contour_id + 1,
                        pos as int,
                    );
                }
                let reached = sorted_events[result_events[pos as usize]].point;
                contour.points.push(reached);
                proof {
                    let longer = walk.push(start).push(pos);
                    assert(contour@.points =~= points_from(points, orig_pos, longer)) by {
                        assert forall|k: int|
                            0 <= k < longer.len() / 2 + 1 implies contour@.points[k]
                            == points_from(points, orig_pos, longer)[k] by {
                            if 0 < k < walk.len() / 2 + 1 {
                                assert(longer[2 * k - 1] == walk[2 * k - 1]);
                            }
                        }
                    }
                    assert forall|k: int| 0 <= k < longer.len() implies 0 <= #[trigger] longer[k]
                        < length && ring_of[longer[k] as int] == contour_id by {
                        if k < walk.len() {
                            assert(longer[k] == walk[k]);
                        }
                    }
                    walk = longer;
                }

                pos = next_pos(
                    pos,
                    sorted_events,
                    result_events.as_slice(),
                    &processed,
                    orig_pos,
                );  // (B)

                proof {
                    if pos != orig_pos {
                        lemma_next_pos_goes_on(
                            points,
                            processed@,
                            walk[walk.len() - 1],
                            orig_pos,
                            pos,
                        );
                    }
                }
                if pos == orig_pos {
                    break ;
                }
            }

            // The walk is back where it began: the ring is closed.
            contours.push(contour);
            proof {
                let closed = contour@;
                assert(closed.points =~= points_of_walk(points, walk));
                lemma_ring_closed(
                    points,
                    order,
                    sorted_events@,
                    walks,
                    ring_of,
                    rings,
                    orig_pos as int,
                    walk,
                    closed,
                );
                assert(views(contours@) =~= with_hole(rings, closed.hole_of, contour_id).push(
                    closed,
                ));
                lemma_walk_closed(points, partners, before, walk);
                lemma_walks_extend(points, partners, walks, walk);
                walks = walks.push(walk);
            }
        } else {
            proof {
                lemma_bound_grows(
                    points,
                    order,
                    sorted_events@,
                    walks,
                    ring_of,
                    views(contours@),
                    i as int,
                );
            }
        }
        i += 1;
    }
    proof {
        let rings = views(contours@);
        lemma_connected(
            input,
            linked,
            order,
            points,
            partners,
            sorted_events@,
            processed@,
            ring_of,
            walks,
            rings,
        );
        assert forall|i: int| on_boundary(input, i) implies is_tagged(
            input[i],
            #[trigger] sorted_events[i],
        ) && 0 <= sorted_events[i].output_contour_id < contours.len() by {
            let p = choose|p: int| 0 <= p < order.len() && #[trigger] order[p] == i;
            assert(is_tagged_at(input, order, sorted_events@, p));
            lemma_event_is_on_its_ring(input, sorted_events@, order, walks, rings, p);
        }
    }
    contours
}

// What follows is what the proof of `connect_edges` is made of: what holds between two
// steps of the walk, and why each step keeps it.

/// `f` is `e` but for the ring it is on.
spec fn same_but_ring(e: SweepEvent, f: SweepEvent) -> bool {
    f == (SweepEvent { output_contour_id: f.output_contour_id, ..e })
}

/// The part of a ring walk that has been made: its steps.
#[verifier::opaque]
spec fn is_walk_so_far(
    points: Seq<Coordinate>,
    partners: Seq<i32>,
    before: Set<i32>,
    walk: Seq<i32>,
) -> bool {
    &&& walk.len() % 2 == 0
    &&& forall|k: int| 0 <= k < walk.len() ==> #[trigger] is_step(points, partners, before, walk, k)
}

/// A walk goes on by a step along a segment, from `a` to `b`.
proof fn lemma_walk_goes_on(
    points: Seq<Coordinate>,
    partners: Seq<i32>,
    before: Set<i32>,
    walk: Seq<i32>,
    a: i32,
    b: i32,
)
    requires
        is_walk_so_far(points, partners, before, walk),
        0 <= a < points.len(),
        0 <= b < points.len(),
        b == partners[a as int],
        a != b,
        !visited_along(before, walk, walk.len() as int).contains(a),
        !visited_along(before, walk, walk.len() as int).contains(b),
        walk.len() > 0 ==> a != walk[0] && is_next_pos(
            points,
            visited_along(before, walk, walk.len() as int),
            walk[walk.len() - 1],
            walk[0],
            a,
        ),
    ensures
        is_walk_so_far(points, partners, before, walk.push(a).push(b)),
        visited_along(before, walk.push(a).push(b), (walk.len() + 2) as int) == visited_along(
            before,
            walk,
            walk.len() as int,
        ).insert(a).insert(b),
{
    reveal(is_walk_so_far);
    let longer = walk.push(a).push(b);
    let n = walk.len() as int;
    lemma_visited_along_prefix(before, longer, walk, n);
    assert(visited_along(before, longer, n + 1) == visited_along(before, longer, n).insert(
        longer[n],
    ));
    assert(visited_along(before, longer, n + 2) == visited_along(before, longer, n + 1).insert(
        longer[n + 1],
    ));
    assert forall|k: int| 0 <= k < longer.len() implies #[trigger] is_step(
        points,
        partners,
        before,
        longer,
        k,
    ) by {
        if k < n {
            assert(is_step(points, partners, before, walk, k));
            lemma_visited_along_prefix(before, longer, walk, k);
            assert(longer[k] == walk[k]);
            assert(longer[0] == walk[0]);
            if k > 0 {
                assert(longer[k - 1] == walk[k - 1]);
            }
        } else if k == n {
            if n > 0 {
                assert(longer[0] == walk[0]);
                assert(longer[n - 1] == walk[n - 1]);
            }
        } else {
        }
    }
}

/// What lies below the event at position `p`, if anything, stands at a lower position.
spec fn has_lower_pos(linked: Seq<SweepEvent>, order: Seq<usize>, p: int) -> bool {
    match linked[order[p] as int].prev_in_result {
        Some(j) => exists|q: int| 0 <= q < p && #[trigger] order[q] == j,
        None => true,
    }
}

/// What stays as it is while the rings are made: where the ordered events lie, how they are
/// paired, that no event stands at two positions, and that whatever lies below an event
/// stands at a lower position.
#[verifier::opaque]
spec fn is_laid_out(
    linked: Seq<SweepEvent>,
    order: Seq<usize>,
    points: Seq<Coordinate>,
    partners: Seq<i32>,
) -> bool {
    &&& order.len() <= i32::MAX
    &&& points == points_along(linked, order)
    &&& partners == partners_along(linked, order)
    &&& is_matching(partners)
    &&& forall|p: int| 0 <= p < order.len() ==> #[trigger] order[p] < linked.len()
    &&& forall|p: int, q: int|
        0 <= p < q < order.len() ==> #[trigger] order[p] != #[trigger] order[q]
    &&& forall|p: int| 0 <= p < order.len() ==> #[trigger] has_lower_pos(linked, order, p)
}

proof fn lemma_laid_out(input: Seq<SweepEvent>, linked: Seq<SweepEvent>, order: Seq<usize>)
    requires
        is_paired(input),
        rests_on_earlier(input),
        is_event_order(input, order),
        links_partners(input, order, linked),
        order.len() <= i32::MAX,
    ensures
        is_laid_out(linked, order, points_along(linked, order), partners_along(linked, order)),
{
    reveal(is_laid_out);
    let partners = partners_along(linked, order);
    assert forall|p: int, q: int| 0 <= p < q < order.len() implies #[trigger] order[p]
        != #[trigger] order[q] by {
        assert(sweeps_before(input, order[p] as int, order[q] as int));
    }
    assert forall|p: int| 0 <= p < order.len() implies #[trigger] order[p] < linked.len() by {
        assert(on_boundary(input, order[p] as int));
    }
    assert forall|p: int| 0 <= p < partners.len() implies #[trigger] is_matched_at(
        partners,
        p,
    ) by {
        let i = order[p] as int;
        assert(on_boundary(input, i));
        assert(has_partner(input, i));
        assert(is_linked_at(input, order, linked, p));
        let o = input[i].other_event as int;
        let q = linked[i].other_pos as int;
        assert(order[q] == o);
        assert(is_linked_at(input, order, linked, q));
        let back = linked[order[q] as int].other_pos as int;
        assert(order[back] == input[o].other_event);
        if back < p {
            assert(order[back] != order[p]);
        } else if p < back {
            assert(order[p] != order[back]);
        }
    }
    assert forall|p: int| 0 <= p < order.len() implies #[trigger] has_lower_pos(
        linked,
        order,
        p,
    ) by {
        let i = order[p] as int;
        assert(on_boundary(input, i));
        assert(has_earlier_below(input, i));
        assert(is_linked_at(input, order, linked, p));
        match input[i].prev_in_result {
            Some(j) => {
                assert(on_boundary(input, j as int));
                let q = choose|q: int| 0 <= q < order.len() && #[trigger] order[q] == j as int;
                if p < q {
                    assert(sweeps_before(input, order[p] as int, order[q] as int));
                }
                assert(0 <= q < p && order[q] == j);
            },
            None => {},
        }
    }
}

/// How far the marking has come: the events are as they were linked, but for the rings they
/// are on; `ring_of` tells of each position the ring that its event is on, and -1 of a
/// position that has not been visited; and the rings in use are those below `count`.
#[verifier::opaque]
spec fn is_progress(
    linked: Seq<SweepEvent>,
    order: Seq<usize>,
    now: Seq<SweepEvent>,
    done: Set<i32>,
    ring_of: Seq<int>,
    count: int,
) -> bool {
    &&& now.len() == linked.len()
    &&& forall|i: int| 0 <= i < linked.len() ==> same_but_ring(linked[i], #[trigger] now[i])
    &&& forall|i: int|
        0 <= i < linked.len() && #[trigger] now[i] != linked[i] ==> exists|p: int|
            0 <= p < order.len() && #[trigger] order[p] == i
    &&& ring_of.len() == order.len()
    &&& forall|p: i32| #[trigger] done.contains(p) ==> 0 <= p < order.len()
    &&& forall|p: int|
        0 <= p < order.len() ==> if done.contains(p as i32) {
            0 <= #[trigger] ring_of[p] < count && now[order[p] as int].output_contour_id
                == ring_of[p]
        } else {
            ring_of[p] == -1
        }
}

/// Ring `r` is what walk `r` leaves behind, and the walk began below `bound`.
spec fn is_ring_so_far(
    points: Seq<Coordinate>,
    order: Seq<usize>,
    now: Seq<SweepEvent>,
    walks: Seq<Seq<i32>>,
    rings: Seq<ContourView>,
    bound: int,
    r: int,
) -> bool {
    let first = now[order[walks[r][0] as int] as int];
    &&& rings[r].points == points_of_walk(points, walks[r])
    &&& walks[r].len() >= 2
    &&& 0 <= walks[r][0] < bound
    &&& (rings[r].hole_of, rings[r].depth as int) == nesting(ring_below(first, now), rings)
    &&& is_on_ring_below(ring_below(first, now), r)
}

/// The rings that are closed, as far as the events and the walks say what they are.
#[verifier::opaque]
spec fn rings_so_far(
    points: Seq<Coordinate>,
    order: Seq<usize>,
    now: Seq<SweepEvent>,
    walks: Seq<Seq<i32>>,
    ring_of: Seq<int>,
    rings: Seq<ContourView>,
    bound: int,
) -> bool {
    &&& rings.len() == walks.len()
    &&& is_forest(rings)
    &&& forall|r: int|
        0 <= r < rings.len() ==> #[trigger] is_ring_so_far(
            points,
            order,
            now,
            walks,
            rings,
            bound,
            r,
        )
    &&& forall|r: int, k: int|
        0 <= r < walks.len() && 0 <= k < walks[r].len() ==> 0 <= #[trigger] walks[r][k]
            < order.len() && ring_of[walks[r][k] as int] == r
}

/// The events after the one at position `pos` has been put on ring `id`.
spec fn marked(now: Seq<SweepEvent>, order: Seq<usize>, pos: i32, id: i32) -> Seq<SweepEvent> {
    now.update(
        order[pos as int] as int,
        SweepEvent { output_contour_id: id, ..now[order[pos as int] as int] },
    )
}

/// Marking a position that has not been visited, at or above `bound`, leaves the closed
/// rings as they are.
proof fn lemma_mark(
    linked: Seq<SweepEvent>,
    order: Seq<usize>,
    points: Seq<Coordinate>,
    partners: Seq<i32>,
    now: Seq<SweepEvent>,
    done: Set<i32>,
    ring_of: Seq<int>,
    count: int,
    walks: Seq<Seq<i32>>,
    rings: Seq<ContourView>,
    bound: int,
    pos: i32,
    id: i32,
)
    requires
        is_laid_out(linked, order, points, partners),
        is_progress(linked, order, now, done, ring_of, count),
        rings_so_far(points, order, now, walks, ring_of, rings, bound),
        0 <= bound <= pos < order.len(),
        !done.contains(pos),
        forall|j: i32| 0 <= j < bound ==> done.contains(j),
        0 <= id < count,
    ensures
        is_progress(
            linked,
            order,
            marked(now, order, pos, id),
            done.insert(pos),
            ring_of.update(pos as int, id as int),
            count,
        ),
        rings_so_far(
            points,
            order,
            marked(now, order, pos, id),
            walks,
            ring_of.update(pos as int, id as int),
            rings,
            bound,
        ),
        ring_below(marked(now, order, pos, id)[order[bound] as int], marked(now, order, pos, id))
            == ring_below(now[order[bound] as int], now),
{
    reveal(is_laid_out);
    reveal(is_progress);
    reveal(rings_so_far);
    let then = marked(now, order, pos, id);
    let rings_of = ring_of.update(pos as int, id as int);
    let changed = order[pos as int] as int;
    assert forall|i: int| 0 <= i < linked.len() implies same_but_ring(
        linked[i],
        #[trigger] then[i],
    ) by {
        assert(same_but_ring(linked[i], now[i]));
    }
    assert forall|i: int| 0 <= i < linked.len() && #[trigger] then[i] != linked[i] implies exists|
        p: int,
    | 0 <= p < order.len() && #[trigger] order[p] == i by {
        if i == changed {
            assert(order[pos as int] == i);
        } else {
            assert(now[i] != linked[i]);
        }
    }
    assert forall|p: int| 0 <= p < order.len() implies if done.insert(pos).contains(p as i32) {
        0 <= #[trigger] rings_of[p] < count && then[order[p] as int].output_contour_id
            == rings_of[p]
    } else {
        rings_of[p] == -1
    } by {
        if p != pos {
            if p < pos {
                assert(order[p] != order[pos as int]);
            } else {
                assert(order[pos as int] != order[p]);
            }
            assert(done.contains(p as i32) ==> 0 <= ring_of[p] < count);
        }
    }
    // What lies below the event at a position up to `bound` stands below `bound`, and is
    // not the event that was marked.
    assert forall|s: int| 0 <= s <= bound implies ring_below(
        then[#[trigger] order[s] as int],
        then,
    ) == ring_below(now[order[s] as int], now) by {
        let first = order[s] as int;
        assert(same_but_ring(linked[first], now[first]));
        assert(same_but_ring(linked[first], then[first]));
        assert(has_lower_pos(linked, order, s));
        match linked[first].prev_in_result {
            Some(j) => {
                let q = choose|q: int| 0 <= q < s && #[trigger] order[q] == j;
                assert(order[q] != order[pos as int]);
            },
            None => {},
        }
    }
    assert forall|r: int| 0 <= r < rings.len() implies #[trigger] is_ring_so_far(
        points,
        order,
        then,
        walks,
        rings,
        bound,
        r,
    ) by {
        assert(is_ring_so_far(points, order, now, walks, rings, bound, r));
        let s = walks[r][0] as int;
        assert(ring_below(then[order[s] as int], then) == ring_below(now[order[s] as int], now));
    }
    assert forall|r: int, k: int|
        0 <= r < walks.len() && 0 <= k < walks[r].len() implies 0 <= #[trigger] walks[r][k]
        < order.len() && rings_of[walks[r][k] as int] == r by {
        assert(ring_of[walks[r][k] as int] == r);
    }
}

/// The vertices gathered on a walk that began at `orig_pos` and has come as far as `walk`.
spec fn points_from(points: Seq<Coordinate>, orig_pos: i32, walk: Seq<i32>) -> Seq<Coordinate> {
    Seq::new(
        (walk.len() / 2 + 1) as nat,
        |k: int|
            if k == 0 {
                points[orig_pos as int]
            } else {
                points[walk[2 * k - 1] as int]
            },
    )
}

/// Whether rings form a forest does not depend on their vertices.
proof fn lemma_forest_ignores_points(a: Seq<ContourView>, b: Seq<ContourView>)
    requires
        is_forest(a),
        a.len() == b.len(),
        forall|r: int|
            0 <= r < a.len() ==> (#[trigger] b[r]).hole_of == a[r].hole_of && b[r].depth
                == a[r].depth && b[r].hole_ids == a[r].hole_ids,
    ensures
        is_forest(b),
{
    reveal(is_forest);
    assert forall|r: int| 0 <= r < b.len() implies 0 <= (#[trigger] b[r]).depth <= r by {
        assert(0 <= a[r].depth <= r);
    }
    assert forall|r: int| 0 <= r < b.len() implies #[trigger] is_in_place(b, r) by {
        assert(is_in_place(a, r));
        assert(b[r].hole_of == a[r].hole_of);
        match a[r].hole_of {
            Some(p) => {
                assert(b[p as int].hole_of == a[p as int].hole_of);
            },
            None => {},
        }
    }
    assert forall|p: int, k: int| 0 <= p < b.len() && 0 <= k < b[p].hole_ids.len() implies {
        let h = #[trigger] b[p].hole_ids[k];
        &&& p < h < b.len()
        &&& b[h as int].hole_of == Some(p as i32)
    } by {
        assert(b[p].hole_ids == a[p].hole_ids);
        let h = a[p].hole_ids[k];
        assert(p < h < a.len());
        assert(b[h as int].hole_of == a[h as int].hole_of);
    }
    assert forall|p: int, k: int, l: int|
        0 <= p < b.len() && 0 <= k < l < b[p].hole_ids.len() implies #[trigger] b[p].hole_ids[k]
        < #[trigger] b[p].hole_ids[l] by {
        assert(b[p].hole_ids == a[p].hole_ids);
        assert(a[p].hole_ids[k] < a[p].hole_ids[l]);
    }
}

/// The closed rings began below any position above `bound`.
proof fn lemma_bound_grows(
    points: Seq<Coordinate>,
    order: Seq<usize>,
    now: Seq<SweepEvent>,
    walks: Seq<Seq<i32>>,
    ring_of: Seq<int>,
    rings: Seq<ContourView>,
    bound: int,
)
    requires
        rings_so_far(points, order, now, walks, ring_of, rings, bound),
    ensures
        rings_so_far(points, order, now, walks, ring_of, rings, bound + 1),
{
    reveal(rings_so_far);
    assert forall|r: int| 0 <= r < rings.len() implies #[trigger] is_ring_so_far(
        points,
        order,
        now,
        walks,
        rings,
        bound + 1,
        r,
    ) by {
        assert(is_ring_so_far(points, order, now, walks, rings, bound, r));
    }
}

/// A ring that has been walked along joins the closed rings.
proof fn lemma_ring_closed(
    points: Seq<Coordinate>,
    order: Seq<usize>,
    now: Seq<SweepEvent>,
    walks: Seq<Seq<i32>>,
    ring_of: Seq<int>,
    rings: Seq<ContourView>,
    bound: int,
    walk: Seq<i32>,
    closed: ContourView,
)
    requires
        rings_so_far(points, order, now, walks, ring_of, rings, bound),
        rings.len() < i32::MAX,
        0 <= bound < order.len(),
        is_on_ring_below(ring_below(now[order[bound] as int], now), rings.len() as int),
        closed == (ContourView {
            points: points_of_walk(points, walk),
            ..new_ring(ring_below(now[order[bound] as int], now), rings)
        }),
        walk.len() >= 2,
        walk[0] == bound,
        forall|k: int|
            0 <= k < walk.len() ==> 0 <= #[trigger] walk[k] < order.len() && ring_of[walk[k] as int]
                == rings.len(),
    ensures
        rings_so_far(
            points,
            order,
            now,
            walks.push(walk),
            ring_of,
            with_hole(rings, closed.hole_of, rings.len() as i32).push(closed),
            bound + 1,
        ),
{
    reveal(rings_so_far);
    let below = ring_below(now[order[bound] as int], now);
    let id = rings.len() as i32;
    let empty = with_hole(rings, closed.hole_of, id).push(new_ring(below, rings));
    let grown = with_hole(rings, closed.hole_of, id).push(closed);
    let longer = walks.push(walk);
    lemma_forest_grows(rings, below);
    assert forall|r: int| 0 <= r < empty.len() implies (#[trigger] grown[r]).hole_of
        == empty[r].hole_of && grown[r].depth == empty[r].depth && grown[r].hole_ids
        == empty[r].hole_ids by {}
    lemma_forest_ignores_points(empty, grown);
    assert forall|r: int| 0 <= r < grown.len() implies #[trigger] is_ring_so_far(
        points,
        order,
        now,
        longer,
        grown,
        bound + 1,
        r,
    ) by {
        if r < rings.len() {
            assert(is_ring_so_far(points, order, now, walks, rings, bound, r));
            assert(longer[r] == walks[r]);
            assert(grown[r].points == rings[r].points);
            assert(grown[r].hole_of == rings[r].hole_of);
            assert(grown[r].depth == rings[r].depth);
            let first = now[order[walks[r][0] as int] as int];
            match ring_below(first, now) {
                Some((lower, _)) => {
                    assert(grown[lower as int].hole_of == rings[lower as int].hole_of);
                    assert(grown[lower as int].depth == rings[lower as int].depth);
                },
                None => {},
            }
        } else {
            assert(longer[r] == walk);
            assert(grown[r] == closed);
            match below {
                Some((lower, _)) => {
                    assert(grown[lower as int].hole_of == rings[lower as int].hole_of);
                    assert(grown[lower as int].depth == rings[lower as int].depth);
                },
                None => {},
            }
        }
    }
    assert forall|r: int, k: int|
        0 <= r < longer.len() && 0 <= k < longer[r].len() implies 0 <= #[trigger] longer[r][k]
        < order.len() && ring_of[longer[r][k] as int] == r by {
        if r < walks.len() {
            assert(longer[r] == walks[r]);
            assert(ring_of[walks[r][k] as int] == r);
        } else {
            assert(longer[r] == walk);
            assert(ring_of[walk[k] as int] == rings.len());
        }
    }
}

/// Each walk is the walk along one ring, made after the walks before it.
#[verifier::opaque]
spec fn are_ring_walks(points: Seq<Coordinate>, partners: Seq<i32>, walks: Seq<Seq<i32>>) -> bool {
    forall|r: int| 0 <= r < walks.len() ==> #[trigger] is_ring_walk_at(points, partners, walks, r)
}

/// With a position its partner has been visited too.
#[verifier::opaque]
spec fn is_pairwise(done: Set<i32>, partners: Seq<i32>) -> bool {
    forall|p: i32| #[trigger] done.contains(p) ==> done.contains(partners[p as int])
}

/// Before the first walk nothing has been visited and no ring is closed.
proof fn lemma_nothing_done(
    linked: Seq<SweepEvent>,
    order: Seq<usize>,
    points: Seq<Coordinate>,
    partners: Seq<i32>,
)
    requires
        is_laid_out(linked, order, points, partners),
    ensures
        is_progress(
            linked,
            order,
            linked,
            Set::<i32>::empty(),
            Seq::new(order.len(), |p: int| -1int),
            0,
        ),
        rings_so_far(
            points,
            order,
            linked,
            Seq::<Seq<i32>>::empty(),
            Seq::new(order.len(), |p: int| -1int),
            Seq::<ContourView>::empty(),
            0,
        ),
        are_ring_walks(points, partners, Seq::<Seq<i32>>::empty()),
        is_pairwise(Set::<i32>::empty(), partners),
{
    reveal(is_progress);
    reveal(rings_so_far);
    reveal(are_ring_walks);
    reveal(is_pairwise);
    lemma_no_rings_are_a_forest();
}

/// What stands at position `p`.
proof fn lemma_at(
    linked: Seq<SweepEvent>,
    order: Seq<usize>,
    points: Seq<Coordinate>,
    partners: Seq<i32>,
    now: Seq<SweepEvent>,
    done: Set<i32>,
    ring_of: Seq<int>,
    count: int,
    p: int,
)
    requires
        is_laid_out(linked, order, points, partners),
        is_progress(linked, order, now, done, ring_of, count),
        0 <= p < order.len(),
    ensures
        order.len() <= i32::MAX,
        points.len() == order.len(),
        partners.len() == order.len(),
        ring_of.len() == order.len(),
        is_matching(partners),
        forall|q: int| 0 <= q < order.len() ==> #[trigger] order[q] < now.len(),
        points_along(now, order) == points,
        now[order[p] as int].point == points[p],
        now[order[p] as int].other_pos == partners[p],
        is_matched_at(partners, p),
{
    reveal(is_laid_out);
    reveal(is_progress);
    assert(points_along(now, order) =~= points) by {
        assert forall|q: int| 0 <= q < order.len() implies now[order[q] as int].point
            == linked[order[q] as int].point by {
            assert(same_but_ring(linked[order[q] as int], now[order[q] as int]));
        }
    }
    assert(same_but_ring(linked[order[p] as int], now[order[p] as int]));
    assert(is_matched_at(partners, p));
}

/// What the ring needs to know that begins at position `i`, the lowest that has not been
/// visited: the closed rings form a forest, and whatever lies below the event at `i` is on
/// one of them.
proof fn lemma_seed(
    linked: Seq<SweepEvent>,
    order: Seq<usize>,
    points: Seq<Coordinate>,
    partners: Seq<i32>,
    now: Seq<SweepEvent>,
    done: Set<i32>,
    ring_of: Seq<int>,
    walks: Seq<Seq<i32>>,
    rings: Seq<ContourView>,
    i: int,
)
    requires
        is_laid_out(linked, order, points, partners),
        is_progress(linked, order, now, done, ring_of, rings.len() as int),
        rings_so_far(points, order, now, walks, ring_of, rings, i),
        0 <= i < order.len(),
        forall|j: i32| 0 <= j < i ==> done.contains(j),
    ensures
        is_forest(rings),
        now[order[i] as int].prev_in_result matches Some(j) ==> j < now.len(),
        is_on_ring_below(ring_below(now[order[i] as int], now), rings.len() as int),
        rings.len() <= i32::MAX ==> has_place(ring_below(now[order[i] as int], now), rings),
        is_progress(linked, order, now, done, ring_of, (rings.len() + 1) as int),
{
    reveal(is_laid_out);
    reveal(is_progress);
    reveal(rings_so_far);
    assert(same_but_ring(linked[order[i] as int], now[order[i] as int]));
    assert(has_lower_pos(linked, order, i));
    match now[order[i] as int].prev_in_result {
        Some(j) => {
            let q = choose|q: int| 0 <= q < i && #[trigger] order[q] == j;
            assert(done.contains(q as i32));
            assert(0 <= ring_of[q] < rings.len());
        },
        None => {},
    }
    assert forall|p: int| 0 <= p < order.len() implies if done.contains(p as i32) {
        0 <= #[trigger] ring_of[p] < rings.len() + 1 && now[order[p] as int].output_contour_id
            == ring_of[p]
    } else {
        ring_of[p] == -1
    } by {
        assert(done.contains(p as i32) ==> 0 <= ring_of[p] < rings.len());
    }
    if rings.len() <= i32::MAX {
        lemma_forest_has_places(rings, ring_below(now[order[i] as int], now));
    }
}

/// The partner of a position that has not been visited has not been visited either, and
/// visiting both keeps the pairs together.
proof fn lemma_partner_free(done: Set<i32>, partners: Seq<i32>, a: i32)
    requires
        is_matching(partners),
        is_pairwise(done, partners),
        forall|p: i32| #[trigger] done.contains(p) ==> 0 <= p < partners.len(),
        0 <= a < partners.len(),
        !done.contains(a),
    ensures
        !done.contains(partners[a as int]),
        is_pairwise(done.insert(a).insert(partners[a as int]), partners),
{
    reveal(is_pairwise);
    let b = partners[a as int];
    assert(is_matched_at(partners, a as int));
    if done.contains(b) {
        assert(done.contains(partners[b as int]));
    }
    assert forall|p: i32| #[trigger] done.insert(a).insert(b).contains(p) implies done.insert(
        a,
    ).insert(b).contains(partners[p as int]) by {
        if done.contains(p) {
            assert(done.contains(partners[p as int]));
        }
    }
}

/// Where a walk goes on, unless it is back where it began, is a position that has not been
/// visited.
proof fn lemma_next_pos_goes_on(
    points: Seq<Coordinate>,
    done: Set<i32>,
    last: i32,
    orig_pos: i32,
    next: i32,
)
    requires
        is_next_pos(points, done, last, orig_pos, next),
        0 <= orig_pos < last < points.len(),
        done.contains(orig_pos),
        next != orig_pos,
    ensures
        orig_pos < next < points.len(),
        !done.contains(next),
{
    reveal(is_next_pos);
    if next < orig_pos {
        assert(stops_at(done, orig_pos, orig_pos));
    }
}

/// A walk that is back where it began is the walk along a ring.
proof fn lemma_walk_closed(
    points: Seq<Coordinate>,
    partners: Seq<i32>,
    before: Set<i32>,
    walk: Seq<i32>,
)
    requires
        is_walk_so_far(points, partners, before, walk),
        walk.len() >= 2,
        forall|j: i32| 0 <= j < walk[0] ==> before.contains(j),
        is_next_pos(
            points,
            visited_along(before, walk, walk.len() as int),
            walk[walk.len() - 1],
            walk[0],
            walk[0],
        ),
    ensures
        is_ring_walk(points, partners, before, walk),
{
    reveal(is_walk_so_far);
}

/// One more ring walk after the others.
proof fn lemma_walks_extend(
    points: Seq<Coordinate>,
    partners: Seq<i32>,
    walks: Seq<Seq<i32>>,
    walk: Seq<i32>,
)
    requires
        are_ring_walks(points, partners, walks),
        is_ring_walk(points, partners, visited_by(walks, walks.len() as int), walk),
    ensures
        are_ring_walks(points, partners, walks.push(walk)),
        visited_by(walks.push(walk), (walks.len() + 1) as int) == visited_along(
            visited_by(walks, walks.len() as int),
            walk,
            walk.len() as int,
        ),
{
    reveal(are_ring_walks);
    let longer = walks.push(walk);
    lemma_visited_by_prefix(longer, walks, walks.len() as int);
    assert forall|r: int| 0 <= r < longer.len() implies #[trigger] is_ring_walk_at(
        points,
        partners,
        longer,
        r,
    ) by {
        lemma_visited_by_prefix(longer, walks, r);
        if r < walks.len() {
            assert(is_ring_walk_at(points, partners, walks, r));
            assert(longer[r] == walks[r]);
        } else {
            assert(longer[r] == walk);
        }
    }
}

/// When every position has been visited, the rings are those of the result boundary.
proof fn lemma_connected(
    input: Seq<SweepEvent>,
    linked: Seq<SweepEvent>,
    order: Seq<usize>,
    points: Seq<Coordinate>,
    partners: Seq<i32>,
    now: Seq<SweepEvent>,
    done: Set<i32>,
    ring_of: Seq<int>,
    walks: Seq<Seq<i32>>,
    rings: Seq<ContourView>,
)
    requires
        is_event_order(input, order),
        links_partners(input, order, linked),
        is_laid_out(linked, order, points, partners),
        is_progress(linked, order, now, done, ring_of, rings.len() as int),
        rings_so_far(points, order, now, walks, ring_of, rings, order.len() as int),
        are_ring_walks(points, partners, walks),
        done == visited_by(walks, walks.len() as int),
        forall|j: i32| 0 <= j < order.len() ==> done.contains(j),
    ensures
        connects(input, now, order, walks, rings),
{
    reveal(is_laid_out);
    reveal(is_progress);
    reveal(rings_so_far);
    reveal(are_ring_walks);
    assert(points_along(now, order) =~= points) by {
        assert forall|p: int| 0 <= p < order.len() implies now[order[p] as int].point
            == linked[order[p] as int].point by {
            assert(same_but_ring(linked[order[p] as int], now[order[p] as int]));
        }
    }
    assert(partners_along(now, order) =~= partners) by {
        assert forall|p: int| 0 <= p < order.len() implies now[order[p] as int].other_pos
            == linked[order[p] as int].other_pos by {
            assert(same_but_ring(linked[order[p] as int], now[order[p] as int]));
        }
    }
    assert forall|i: int| 0 <= i < input.len() && !on_boundary(input, i) implies #[trigger] now[i]
        == input[i] by {
        if now[i] != linked[i] {
            let p = choose|p: int| 0 <= p < order.len() && #[trigger] order[p] == i;
            assert(on_boundary(input, order[p] as int));
        }
    }
    assert forall|p: int| 0 <= p < order.len() implies #[trigger] is_tagged_at(
        input,
        order,
        now,
        p,
    ) by {
        assert(is_linked_at(input, order, linked, p));
        assert(same_but_ring(linked[order[p] as int], now[order[p] as int]));
    }
    assert forall|r: int, k: int|
        0 <= r < walks.len() && 0 <= k < walks[r].len() implies is_on_ring(
        now[order[#[trigger] walks[r][k] as int] as int],
        r,
    ) by {
        let p = walks[r][k] as int;
        assert(ring_of[p] == r);
        assert(done.contains(p as i32));
    }
    assert forall|r: int| 0 <= r < rings.len() implies #[trigger] ring_follows(
        now,
        order,
        walks,
        rings,
        r,
    ) by {
        assert(is_ring_so_far(points, order, now, walks, rings, order.len() as int, r));
    }
}

} // verus!
