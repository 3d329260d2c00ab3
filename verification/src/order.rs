//! Picking the events of the result boundary and putting them into traversal order.

use crate::sweep_event::{has_partner, is_paired, on_boundary, sweeps_before, SweepEvent};
use vstd::prelude::*;

verus! {

/// `order` lists the indices of exactly the events on the result boundary, each once, in
/// traversal order.
pub open spec fn is_event_order(events: Seq<SweepEvent>, order: Seq<usize>) -> bool {
    &&& order.len() <= events.len()
    &&& forall|p: int| 0 <= p < order.len() ==> on_boundary(events, #[trigger] order[p] as int)
    &&& forall|i: int| #[trigger]
        on_boundary(events, i) ==> exists|p: int| 0 <= p < order.len() && #[trigger] order[p] == i
    &&& forall|p: int, q: int|
        0 <= p < q < order.len() ==> sweeps_before(
            events,
            #[trigger] order[p] as int,
            #[trigger] order[q] as int,
        )
}

/// The event at position `p` of `order` is in `after` what it was in `before`, but for its
/// `other_pos`, which is the position of its partner in `order`.
pub open spec fn is_linked_at(
    before: Seq<SweepEvent>,
    order: Seq<usize>,
    after: Seq<SweepEvent>,
    p: int,
) -> bool {
    let e = before[order[p] as int];
    let f = after[order[p] as int];
    &&& f == (SweepEvent { other_pos: f.other_pos, ..e })
    &&& 0 <= f.other_pos < order.len()
    &&& order[f.other_pos as int] == e.other_event
}

/// `after` is `before` with the `other_pos` of every event on the result boundary set to the
/// position that its partner has in `order`, and nothing else changed.
pub open spec fn links_partners(
    before: Seq<SweepEvent>,
    order: Seq<usize>,
    after: Seq<SweepEvent>,
) -> bool {
    &&& after.len() == before.len()
    &&& forall|i: int|
        0 <= i < before.len() && !on_boundary(before, i) ==> #[trigger] after[i] == before[i]
    &&& forall|p: int| 0 <= p < order.len() ==> #[trigger] is_linked_at(before, order, after, p)
}

/// `pos_of` gives for each event on the result boundary its position in `order`, and -1 for
/// every other event.
spec fn is_position_table(events: Seq<SweepEvent>, order: Seq<usize>, pos_of: Seq<int>) -> bool {
    &&& pos_of.len() == events.len()
    &&& order.len() <= events.len()
    &&& forall|q: int|
        0 <= q < order.len() ==> #[trigger] order[q] < events.len() && pos_of[order[q] as int] == q
    &&& forall|i: int|
        0 <= i < events.len() ==> if on_boundary(events, i) {
            0 <= #[trigger] pos_of[i] < order.len() && order[pos_of[i]] == i
        } else {
            pos_of[i] == -1
        }
}

/// `f` is `e` with `other_pos` set to `pos`.
spec fn relinked(e: SweepEvent, f: SweepEvent, pos: int) -> bool {
    f == (SweepEvent { other_pos: f.other_pos, ..e }) && f.other_pos == pos
}

/// What `other_pos` of the event at index `i` holds once the left events at the positions
/// below `p` have exchanged theirs with their partners: the partner's position where the
/// exchange has been made, the event's own position where it has not.
spec fn link_after(events: Seq<SweepEvent>, pos_of: Seq<int>, p: int, i: int) -> int {
    let o = events[i].other_event as int;
    if pos_of[i] < 0 {
        events[i].other_pos as int
    } else if (events[i].is_left && pos_of[i] < p) || (!events[i].is_left && pos_of[o] < p) {
        pos_of[o]
    } else {
        pos_of[i]
    }
}

/// Sorts the indices in `result_events` by the place of their events in the sweep's order.
/// The sort only ever exchanges neighbours that are in the wrong order.
fn sort_events(sorted_events: &[SweepEvent], result_events: &mut Vec<usize>)
    requires
        forall|p: int|
            0 <= p < old(result_events).len() ==> #[trigger] old(result_events)[p]
                < sorted_events.len(),
        forall|p: int, q: int|
            0 <= p < q < old(result_events).len() ==> #[trigger] old(result_events)[p]
                < #[trigger] old(result_events)[q],
    ensures
        final(result_events).len() == old(result_events).len(),
        forall|p: int|
            0 <= p < final(result_events).len() ==> old(result_events)@.contains(
                #[trigger] final(result_events)[p],
            ),
        forall|p: int|
            0 <= p < old(result_events).len() ==> final(result_events)@.contains(
                #[trigger] old(result_events)[p],
            ),
        forall|p: int, q: int|
            0 <= p < q < final(result_events).len() ==> sweeps_before(
                sorted_events@,
                #[trigger] final(result_events)[p] as int,
                #[trigger] final(result_events)[q] as int,
            ),
{
    let ghost orig = result_events@;
    let n = result_events.len();
    let mut k: usize = 1;
    while k < n
        invariant
            1 <= k,
            result_events.len() == n,
            orig.len() == n,
            forall|p: int| 0 <= p < n ==> #[trigger] orig[p] < sorted_events.len(),
            forall|p: int| 0 <= p < n ==> orig.contains(#[trigger] result_events[p]),
            forall|p: int| 0 <= p < n ==> result_events@.contains(#[trigger] orig[p]),
            forall|p: int, q: int|
                0 <= p < q < k && q < n ==> sweeps_before(
                    sorted_events@,
                    #[trigger] result_events[p] as int,
                    #[trigger] result_events[q] as int,
                ),
            forall|p: int| k <= p < n ==> #[trigger] result_events[p] == orig[p],
            forall|p: int, q: int|
                0 <= p < k <= q < n ==> #[trigger] result_events[p] < #[trigger] orig[q],
            forall|p: int, q: int| 0 <= p < q < n ==> #[trigger] orig[p] < #[trigger] orig[q],
        decreases n - k,
    {
        let mut j: usize = k;
        while j > 0 && sorted_events[result_events[j - 1]].order_key
            > sorted_events[result_events[j]].order_key
            invariant
                0 <= j <= k < n,
                result_events.len() == n,
                orig.len() == n,
                forall|p: int| 0 <= p < n ==> #[trigger] orig[p] < sorted_events.len(),
                forall|p: int| 0 <= p < n ==> orig.contains(#[trigger] result_events[p]),
                forall|p: int| 0 <= p < n ==> result_events@.contains(#[trigger] orig[p]),
                forall|p: int, q: int|
                    0 <= p < q <= k && p != j && q != j ==> sweeps_before(
                        sorted_events@,
                        #[trigger] result_events[p] as int,
                        #[trigger] result_events[q] as int,
                    ),
                forall|q: int|
                    j < q <= k ==> sweeps_before(
                        sorted_events@,
                        result_events[j as int] as int,
                        #[trigger] result_events[q] as int,
                    ),
                forall|p: int|
                    0 <= p <= k && p != j ==> #[trigger] result_events[p]
                        < result_events[j as int],
                forall|p: int| k < p < n ==> #[trigger] result_events[p] == orig[p],
                forall|p: int, q: int|
                    0 <= p <= k < q < n ==> #[trigger] result_events[p] < #[trigger] orig[q],
                forall|p: int, q: int| 0 <= p < q < n ==> #[trigger] orig[p] < #[trigger] orig[q],
            decreases j,
        {
            let ghost prev = result_events@;
            let lower = result_events[j - 1];
            let upper = result_events[j];
            result_events[j - 1] = upper;
            result_events[j] = lower;
            proof {
                assert forall|p: int| 0 <= p < n implies result_events@.contains(
                    #[trigger] orig[p],
                ) by {
                    let w = choose|w: int| 0 <= w < n && prev[w] == orig[p];
                    if w == j {
                        assert(result_events@[j - 1] == orig[p]);
                    } else if w == j - 1 {
                        assert(result_events@[j as int] == orig[p]);
                    } else {
                        assert(result_events@[w] == orig[p]);
                    }
                }
                assert forall|p: int| 0 <= p < n implies orig.contains(
                    #[trigger] result_events[p],
                ) by {
                    if p == j {
                        assert(orig.contains(prev[j - 1]));
                    } else if p == j - 1 {
                        assert(orig.contains(prev[j as int]));
                    } else {
                        assert(orig.contains(prev[p]));
                    }
                }
            }
            j -= 1;
        }
        k += 1;
    }
}

/// Picks the events on the result boundary out of `sorted_events`, puts them into traversal
/// order, and tells each of them in `other_pos` at which position its partner stands.
///
/// The events stay where they are: what comes back is the list of their indices.
pub fn order_events(sorted_events: &mut [SweepEvent]) -> (result_events: Vec<usize>)
    requires
        is_paired(old(sorted_events)@),
        old(sorted_events).len() <= i32::MAX,
    ensures
        is_event_order(old(sorted_events)@, result_events@),
        links_partners(old(sorted_events)@, result_events@, final(sorted_events)@),
{
    let ghost before = sorted_events@;
    let n = sorted_events.len();
    let mut result_events: Vec<usize> = Vec::new();

    for i in 0..n
        invariant
            n == before.len(),
            sorted_events@ == before,
            is_paired(before),
            result_events.len() <= i,
            forall|p: int|
                0 <= p < result_events.len() ==> on_boundary(
                    before,
                    #[trigger] result_events[p] as int,
                ) && result_events[p] < i,
            forall|j: int|
                0 <= j < i && #[trigger] on_boundary(before, j) ==> result_events@.contains(
                    j as usize,
                ),
            forall|p: int, q: int|
                0 <= p < q < result_events.len() ==> #[trigger] result_events[p]
                    < #[trigger] result_events[q],
    {
        let event = sorted_events[i];
        assert(has_partner(before, i as int));
        if (event.is_left && event.is_in_result) || (!event.is_left
            && sorted_events[event.other_event].is_in_result) {
            let ghost prev = result_events@;
            result_events.push(i);
            proof {
                assert(result_events@[prev.len() as int] == i);
                assert forall|j: int|
                    0 <= j < i + 1 && #[trigger] on_boundary(
                        before,
                        j,
                    ) implies result_events@.contains(j as usize) by {
                    if j < i {
                        let w = choose|w: int| 0 <= w < prev.len() && prev[w] == j as usize;
                        assert(result_events@[w] == j as usize);
                    }
                }
            }
        }
    }

    let ghost filtered = result_events@;
    sort_events(sorted_events, &mut result_events);
    let count = result_events.len();

    // Where each event of the boundary stands in the order.
    let ghost pos_of = Seq::new(
        n as nat,
        |i: int|
            if on_boundary(before, i) {
                choose|p: int| 0 <= p < count && result_events@[p] == i
            } else {
                -1
            },
    );
    proof {
        assert forall|p: int| 0 <= p < count implies on_boundary(
            before,
            #[trigger] result_events[p] as int,
        ) by {
            let w = choose|w: int| 0 <= w < filtered.len() && filtered[w] == result_events[p];
            assert(on_boundary(before, filtered[w] as int));
        }
        assert forall|i: int| #[trigger] on_boundary(before, i) implies exists|p: int|
            0 <= p < count && #[trigger] result_events[p] == i by {
            assert(filtered.contains(i as usize));
            let w = choose|w: int| 0 <= w < filtered.len() && filtered[w] == i as usize;
            assert(result_events@.contains(filtered[w]));
        }
        assert(is_event_order(before, result_events@));
        assert forall|p: int| 0 <= p < count implies pos_of[#[trigger] result_events[p] as int]
            == p by {
            let i = result_events[p] as int;
            let w = pos_of[i];
            assert(0 <= w < count && result_events[w] == i);
            if w < p {
                assert(sweeps_before(before, result_events[w] as int, result_events[p] as int));
            } else if p < w {
                assert(sweeps_before(before, result_events[p] as int, result_events[w] as int));
            }
        }
        assert(is_position_table(before, result_events@, pos_of));
    }

    for p in 0..count
        invariant
            count == result_events.len(),
            n == before.len(),
            n <= i32::MAX,
            sorted_events.len() == n,
            is_position_table(before, result_events@, pos_of),
            forall|i: int|
                0 <= i < n ==> relinked(
                    before[i],
                    #[trigger] sorted_events[i],
                    if 0 <= pos_of[i] < p {
                        pos_of[i]
                    } else {
                        before[i].other_pos as int
                    },
                ),
    {
        let ghost prev = sorted_events@;
        sorted_events[result_events[p]].other_pos = p as i32;
        proof {
            assert forall|i: int| 0 <= i < n implies relinked(
                before[i],
                #[trigger] sorted_events[i],
                if 0 <= pos_of[i] < p + 1 {
                    pos_of[i]
                } else {
                    before[i].other_pos as int
                },
            ) by {
                assert(relinked(
                    before[i],
                    prev[i],
                    if 0 <= pos_of[i] < p {
                        pos_of[i]
                    } else {
                        before[i].other_pos as int
                    },
                ));
            }
        }
    }

    proof {
        assert forall|i: int| 0 <= i < n implies relinked(
            before[i],
            #[trigger] sorted_events[i],
            link_after(before, pos_of, 0, i),
        ) by {
            assert(has_partner(before, i));
            assert(has_partner(before, before[i].other_event as int));
        }
    }

    for p in 0..count
        invariant
            count == result_events.len(),
            n == before.len(),
            n <= i32::MAX,
            sorted_events.len() == n,
            is_paired(before),
            is_position_table(before, result_events@, pos_of),
            forall|i: int|
                0 <= i < n ==> relinked(
                    before[i],
                    #[trigger] sorted_events[i],
                    link_after(before, pos_of, p as int, i),
                ),
    {
        let ghost prev = sorted_events@;
        let index = result_events[p];
        let event = sorted_events[index];
        proof {
            assert(pos_of[result_events[p as int] as int] == p);
            assert(has_partner(before, index as int));
            assert(has_partner(before, before[index as int].other_event as int));
            assert(relinked(
                before[index as int],
                prev[index as int],
                link_after(before, pos_of, p as int, index as int),
            ));
        }
        if event.is_left {
            let other = event.other_event;
            proof {
                assert(relinked(
                    before[other as int],
                    prev[other as int],
                    link_after(before, pos_of, p as int, other as int),
                ));
            }
            let a = event.other_pos;
            let b = sorted_events[other].other_pos;
            sorted_events[index].other_pos = b;
            sorted_events[other].other_pos = a;
        }
        proof {
            assert forall|i: int| 0 <= i < n implies relinked(
                before[i],
                #[trigger] sorted_events[i],
                link_after(before, pos_of, p + 1, i),
            ) by {
                assert(relinked(before[i], prev[i], link_after(before, pos_of, p as int, i)));
                assert(has_partner(before, i));
                let o = before[i].other_event as int;
                assert(has_partner(before, o));
                if pos_of[i] >= 0 && pos_of[o] == p {
                    assert(o == index);
                }
            }
        }
    }
    proof {
        assert forall|p: int| 0 <= p < count implies #[trigger] is_linked_at(
            before,
            result_events@,
            sorted_events@,
            p,
        ) by {
            let i = result_events[p] as int;
            let o = before[i].other_event as int;
            assert(pos_of[i] == p);
            assert(has_partner(before, i));
            assert(has_partner(before, o));
            assert(relinked(
                before[i],
                sorted_events[i],
                link_after(before, pos_of, count as int, i),
            ));
        }
        assert forall|i: int|
            0 <= i < n && !on_boundary(before, i) implies #[trigger] sorted_events[i]
            == before[i] by {
            assert(relinked(
                before[i],
                sorted_events[i],
                link_after(before, pos_of, count as int, i),
            ));
        }
    }
    result_events
}

/// Two orders of traversal of the same events agree below position `p`.
proof fn lemma_event_orders_agree(events: Seq<SweepEvent>, a: Seq<usize>, b: Seq<usize>, p: int)
    requires
        is_event_order(events, a),
        is_event_order(events, b),
        0 <= p <= a.len(),
        p <= b.len(),
    ensures
        forall|q: int| 0 <= q < p ==> a[q] == b[q],
    decreases p,
{
    if p > 0 {
        lemma_event_orders_agree(events, a, b, p - 1);
        let t = p - 1;
        let x = a[t] as int;
        let y = b[t] as int;
        assert(on_boundary(events, x));
        assert(on_boundary(events, y));
        let in_b = choose|q: int| 0 <= q < b.len() && #[trigger] b[q] == x;
        let in_a = choose|q: int| 0 <= q < a.len() && #[trigger] a[q] == y;
        if in_b < t {
            assert(sweeps_before(events, a[in_b] as int, a[t] as int));
        }
        if in_a < t {
            assert(sweeps_before(events, b[in_a] as int, b[t] as int));
        }
        if in_b > t && in_a > t {
            assert(sweeps_before(events, b[t] as int, b[in_b] as int));
            assert(sweeps_before(events, a[t] as int, a[in_a] as int));
        }
    }
}

/// There is only one order of traversal: what `order_events` returns is determined by the
/// events.
pub proof fn lemma_event_order_unique(events: Seq<SweepEvent>, a: Seq<usize>, b: Seq<usize>)
    requires
        is_event_order(events, a),
        is_event_order(events, b),
    ensures
        a == b,
{
    if a.len() <= b.len() {
        lemma_event_orders_agree(events, a, b, a.len() as int);
        if a.len() < b.len() {
            let extra = b[a.len() as int] as int;
            assert(on_boundary(events, extra));
            let q = choose|q: int| 0 <= q < a.len() && #[trigger] a[q] == extra;
            assert(sweeps_before(events, b[q] as int, b[a.len() as int] as int));
        }
    } else {
        lemma_event_orders_agree(events, a, b, b.len() as int);
        let extra = a[b.len() as int] as int;
        assert(on_boundary(events, extra));
        let q = choose|q: int| 0 <= q < b.len() && #[trigger] b[q] == extra;
        assert(sweeps_before(events, a[q] as int, a[b.len() as int] as int));
    }
    assert(a =~= b);
}

/// The events determine what `order_events` does: there is one order of traversal, and one
/// way to link the partners.
pub proof fn lemma_order_events_unique(
    events: Seq<SweepEvent>,
    order: Seq<usize>,
    linked: Seq<SweepEvent>,
    other_order: Seq<usize>,
    other_linked: Seq<SweepEvent>,
)
    requires
        is_event_order(events, order),
        links_partners(events, order, linked),
        is_event_order(events, other_order),
        links_partners(events, other_order, other_linked),
    ensures
        other_order == order,
        other_linked == linked,
{
    lemma_event_order_unique(events, order, other_order);
    assert forall|i: int| 0 <= i < events.len() implies other_linked[i] == linked[i] by {
        if on_boundary(events, i) {
            let p = choose|p: int| 0 <= p < order.len() && #[trigger] order[p] == i;
            assert(is_linked_at(events, order, linked, p));
            assert(is_linked_at(events, order, other_linked, p));
            let q = linked[i].other_pos as int;
            let other_q = other_linked[i].other_pos as int;
            assert(order[q] == order[other_q]);
            if q < other_q {
                assert(sweeps_before(events, order[q] as int, order[other_q] as int));
            } else if other_q < q {
                assert(sweeps_before(events, order[other_q] as int, order[q] as int));
            }
        }
    }
    assert(other_linked =~= linked);
}

/// Linking the partners changes nothing but `other_pos`, so the events on the result
/// boundary and their order stay what they were.
pub proof fn lemma_links_keep_order(
    events: Seq<SweepEvent>,
    order: Seq<usize>,
    linked: Seq<SweepEvent>,
)
    requires
        is_event_order(events, order),
        links_partners(events, order, linked),
    ensures
        forall|i: int|
            0 <= i < events.len() ==> #[trigger] linked[i] == (SweepEvent {
                other_pos: linked[i].other_pos,
                ..events[i]
            }),
        forall|i: int| on_boundary(linked, i) == on_boundary(events, i),
        forall|i: int, j: int|
            0 <= i < events.len() && 0 <= j < events.len() ==> sweeps_before(linked, i, j)
                == sweeps_before(events, i, j),
        is_paired(events) ==> is_paired(linked),
{
    assert forall|i: int| 0 <= i < events.len() implies #[trigger] linked[i] == (SweepEvent {
        other_pos: linked[i].other_pos,
        ..events[i]
    }) by {
        if on_boundary(events, i) {
            let p = choose|p: int| 0 <= p < order.len() && #[trigger] order[p] == i;
            assert(is_linked_at(events, order, linked, p));
        }
    }
    assert forall|i: int| on_boundary(linked, i) == on_boundary(events, i) by {
        if 0 <= i < events.len() {
            let o = events[i].other_event as int;
            if o < events.len() {
                assert(linked[o].is_in_result == events[o].is_in_result);
            }
        }
    }
    assert forall|i: int, j: int|
        0 <= i < events.len() && 0 <= j < events.len() implies sweeps_before(linked, i, j)
        == sweeps_before(events, i, j) by {
        assert(linked[i].order_key == events[i].order_key);
        assert(linked[j].order_key == events[j].order_key);
    }
    if is_paired(events) {
        assert forall|i: int| 0 <= i < linked.len() implies #[trigger] has_partner(linked, i) by {
            assert(has_partner(events, i));
        }
    }
}

/// Ordering events that have been ordered gives the same order again and changes nothing.
pub proof fn lemma_order_events_idempotent(
    events: Seq<SweepEvent>,
    order: Seq<usize>,
    linked: Seq<SweepEvent>,
    order_again: Seq<usize>,
    linked_again: Seq<SweepEvent>,
)
    requires
        is_event_order(events, order),
        links_partners(events, order, linked),
        is_event_order(linked, order_again),
        links_partners(linked, order_again, linked_again),
    ensures
        order_again == order,
        linked_again == linked,
{
    lemma_links_keep_order(events, order, linked);
    assert(is_event_order(events, order_again)) by {
        assert forall|p: int| 0 <= p < order_again.len() implies on_boundary(
            events,
            #[trigger] order_again[p] as int,
        ) by {
            assert(on_boundary(linked, order_again[p] as int));
        }
        assert forall|i: int| #[trigger] on_boundary(events, i) implies exists|p: int|
            0 <= p < order_again.len() && #[trigger] order_again[p] == i by {
            assert(on_boundary(linked, i));
        }
        assert forall|p: int, q: int| 0 <= p < q < order_again.len() implies sweeps_before(
            events,
            #[trigger] order_again[p] as int,
            #[trigger] order_again[q] as int,
        ) by {
            assert(on_boundary(linked, order_again[p] as int));
            assert(on_boundary(linked, order_again[q] as int));
            assert(sweeps_before(linked, order_again[p] as int, order_again[q] as int));
        }
    }
    lemma_event_order_unique(events, order, order_again);
    assert forall|i: int| 0 <= i < linked.len() implies linked_again[i] == linked[i] by {
        if on_boundary(linked, i) {
            let p = choose|p: int| 0 <= p < order.len() && #[trigger] order[p] == i;
            assert(is_linked_at(events, order, linked, p));
            assert(is_linked_at(linked, order, linked_again, p));
            let q = linked[i].other_pos as int;
            let q_again = linked_again[i].other_pos as int;
            assert(order[q] == order[q_again]);
            if q < q_again {
                assert(sweeps_before(events, order[q] as int, order[q_again] as int));
            } else if q_again < q {
                assert(sweeps_before(events, order[q_again] as int, order[q] as int));
            }
        }
    }
    assert(linked_again =~= linked);
}

/// Events that are all on the result boundary and stand in the order of their keys are in
/// traversal order as they stand: sorting them moves none.
pub proof fn lemma_sorted_events_stay(events: Seq<SweepEvent>, order: Seq<usize>)
    requires
        is_event_order(events, order),
        events.len() <= usize::MAX,
        forall|i: int| 0 <= i < events.len() ==> on_boundary(events, i),
        forall|i: int, j: int|
            0 <= i < j < events.len() ==> events[i].order_key <= events[j].order_key,
    ensures
        order == Seq::new(events.len(), |i: int| i as usize),
{
    let same = Seq::new(events.len(), |i: int| i as usize);
    assert(is_event_order(events, same)) by {
        assert forall|i: int| #[trigger] on_boundary(events, i) implies exists|p: int|
            0 <= p < same.len() && #[trigger] same[p] == i by {
            assert(same[i] == i);
        }
    }
    lemma_event_order_unique(events, order, same);
}

} // verus!
