//! The rings that come out, and how a new ring finds its place among those already there.

use crate::sweep_event::{Coordinate, ResultTransition, SweepEvent};
use vstd::prelude::*;

verus! {

/// A closed ring of the result.
///
/// Rings are known by their index in the list of all rings.
#[derive(Clone, Debug, PartialEq, Eq)]
pub struct Contour {
    /// The vertices of the ring, in the order of the walk along it.
    pub points: Vec<Coordinate>,
    /// The rings that are holes of this one.
    pub hole_ids: Vec<i32>,
    /// The ring that this one is a hole of, if it is a hole.
    pub hole_of: Option<i32>,
    /// How deeply the ring is nested: 0 for a ring with nothing around it.
    pub depth: i32,
}

/// What a `Contour` holds.
pub struct ContourView {
    pub points: Seq<Coordinate>,
    pub hole_ids: Seq<i32>,
    pub hole_of: Option<i32>,
    pub depth: i32,
}

impl View for Contour {
    type V = ContourView;

    open spec fn view(&self) -> ContourView {
        ContourView {
            points: self.points@,
            hole_ids: self.hole_ids@,
            hole_of: self.hole_of,
            depth: self.depth,
        }
    }
}

/// What a list of rings holds.
pub open spec fn views(contours: Seq<Contour>) -> Seq<ContourView> {
    Seq::new(contours.len(), |r: int| contours[r]@)
}

/// Ring `r` is where it belongs: if it is a hole, the ring it is a hole of comes before it,
/// is an exterior ring, lists it among its holes, and lies one level higher.
pub open spec fn is_in_place(rings: Seq<ContourView>, r: int) -> bool {
    match rings[r].hole_of {
        Some(p) => {
            &&& 0 <= p < r
            &&& rings[p as int].hole_of is None
            &&& rings[r].depth == rings[p as int].depth + 1
            &&& rings[p as int].hole_ids.contains(r as i32)
        },
        None => true,
    }
}

/// The rings form a forest of exterior rings and their holes: every ring is where it
/// belongs; every ring that is listed as a hole of another is a hole of it; the lists of
/// holes are ascending; and no ring lies deeper than its index.
#[verifier::opaque]
pub open spec fn is_forest(rings: Seq<ContourView>) -> bool {
    &&& forall|r: int| 0 <= r < rings.len() ==> 0 <= (#[trigger] rings[r]).depth <= r
    &&& forall|r: int| 0 <= r < rings.len() ==> #[trigger] is_in_place(rings, r)
    &&& forall|p: int, k: int|
        0 <= p < rings.len() && 0 <= k < rings[p].hole_ids.len() ==> {
            let h = #[trigger] rings[p].hole_ids[k];
            &&& p < h < rings.len()
            &&& rings[h as int].hole_of == Some(p as i32)
        }
    &&& forall|p: int, k: int, l: int|
        0 <= p < rings.len() && 0 <= k < l < rings[p].hole_ids.len()
            ==> #[trigger] rings[p].hole_ids[k] < #[trigger] rings[p].hole_ids[l]
}

/// The ring that holds the segment just below `event`, when there is such a segment, with
/// what crossing that segment does.
pub open spec fn ring_below(event: SweepEvent, events: Seq<SweepEvent>) -> Option<
    (i32, ResultTransition),
> {
    match event.prev_in_result {
        Some(j) => Some((events[j as int].output_contour_id, events[j as int].result_transition)),
        None => None,
    }
}

/// Where a ring belongs that has `below` just below its first segment: the ring it is a
/// hole of, if any, and its depth.
///
/// With nothing below, it is an exterior ring of depth 0. Above a segment that does not lead
/// into the result, it is an exterior ring as deep as the ring below. Above a segment that
/// leads into the result, it is a hole: of the ring below, one level deeper, where that is
/// an exterior ring; and beside the ring below, in the same ring and as deep, where that is a
/// hole itself.
pub open spec fn nesting(below: Option<(i32, ResultTransition)>, rings: Seq<ContourView>) -> (
    Option<i32>,
    int,
) {
    match below {
        None => (None, 0),
        Some((lower, transition)) => {
            if transition == ResultTransition::OutIn {
                match rings[lower as int].hole_of {
                    Some(parent) => (Some(parent), rings[lower as int].depth as int),
                    None => (Some(lower), rings[lower as int].depth + 1),
                }
            } else {
                (None, rings[lower as int].depth as int)
            }
        },
    }
}

/// What lies below, if anything, is on one of the first `count` rings.
pub open spec fn is_on_ring_below(below: Option<(i32, ResultTransition)>, count: int) -> bool {
    below matches Some((lower, _)) ==> 0 <= lower < count
}

/// The place of a ring above `below` can be worked out: the ring below is one of `rings`, and
/// where the new ring is a hole, the ring it is a hole of is one of `rings` too, and the
/// depth can be counted.
pub open spec fn has_place(
    below: Option<(i32, ResultTransition)>,
    rings: Seq<ContourView>,
) -> bool {
    match below {
        None => true,
        Some((lower, transition)) => {
            &&& 0 <= lower < rings.len()
            &&& transition == ResultTransition::OutIn ==> match rings[lower as int].hole_of {
                Some(parent) => 0 <= parent < rings.len(),
                None => rings[lower as int].depth < i32::MAX,
            }
        },
    }
}

/// `rings` with `id` added to the holes of `parent`, if there is a parent.
pub open spec fn with_hole(rings: Seq<ContourView>, parent: Option<i32>, id: i32) -> Seq<
    ContourView,
> {
    match parent {
        Some(p) => rings.update(
            p as int,
            ContourView { hole_ids: rings[p as int].hole_ids.push(id), ..rings[p as int] },
        ),
        None => rings,
    }
}

impl Contour {
    /// A ring without vertices and holes.
    pub fn new(hole_of: Option<i32>, depth: i32) -> (contour: Contour)
        ensures
            contour@ == (ContourView {
                points: Seq::empty(),
                hole_ids: Seq::empty(),
                hole_of: hole_of,
                depth: depth,
            }),
    {
        Contour { points: Vec::new(), hole_ids: Vec::new(), hole_of, depth }
    }

    /// Makes the ring that starts at `event` and will be number `contour_id`, and enters it
    /// as a hole where it is one.
    pub fn initialize_from_context(
        event: &SweepEvent,
        sorted_events: &[SweepEvent],
        contours: &mut [Contour],
        contour_id: i32,
    ) -> (contour: Contour)
        requires
            event.prev_in_result matches Some(j) ==> j < sorted_events.len(),
            has_place(ring_below(*event, sorted_events@), views(old(contours)@)),
        ensures
            contour@.points.len() == 0,
            contour@.hole_ids.len() == 0,
            (contour@.hole_of, contour@.depth as int) == nesting(
                ring_below(*event, sorted_events@),
                views(old(contours)@),
            ),
            final(contours).len() == old(contours).len(),
            views(final(contours)@) == with_hole(
                views(old(contours)@),
                contour@.hole_of,
                contour_id,
            ),
            is_forest(views(old(contours)@)) && contour_id == old(contours).len() ==> is_forest(
                views(final(contours)@).push(contour@),
            ),
    {
        let ghost rings = views(contours@);
        let ghost below_ring = ring_below(*event, sorted_events@);
        let ghost grows = is_forest(rings) && contour_id == rings.len();
        match event.prev_in_result {
            Some(prev) => {
                let below = sorted_events[prev];
                let lower_contour_id = below.output_contour_id;
                assert(rings[lower_contour_id as int] == contours[lower_contour_id as int]@);
                if below.result_transition == ResultTransition::OutIn {
                    match contours[lower_contour_id as usize].hole_of {
                        Some(parent_contour_id) => {
                            assert(rings[parent_contour_id as int]
                                == contours[parent_contour_id as int]@);
                            contours[parent_contour_id as usize].hole_ids.push(contour_id);
                            let depth = contours[lower_contour_id as usize].depth;
                            let contour = Contour::new(Some(parent_contour_id), depth);
                            proof {
                                assert(views(contours@) =~= with_hole(
                                    rings,
                                    Some(parent_contour_id),
                                    contour_id,
                                ));
                                if grows {
                                    lemma_forest_grows(rings, below_ring);
                                }
                            }
                            contour
                        },
                        None => {
                            contours[lower_contour_id as usize].hole_ids.push(contour_id);
                            let depth = contours[lower_contour_id as usize].depth + 1;
                            let contour = Contour::new(Some(lower_contour_id), depth);
                            proof {
                                assert(views(contours@) =~= with_hole(
                                    rings,
                                    Some(lower_contour_id),
                                    contour_id,
                                ));
                                if grows {
                                    lemma_forest_grows(rings, below_ring);
                                }
                            }
                            contour
                        },
                    }
                } else {
                    let depth = contours[lower_contour_id as usize].depth;
                    let contour = Contour::new(None, depth);
                    proof {
                        assert(views(contours@) =~= rings);
                        if grows {
                            lemma_forest_grows(rings, below_ring);
                        }
                    }
                    contour
                }
            },
            None => {
                let contour = Contour::new(None, 0);
                proof {
                    assert(views(contours@) =~= rings);
                    if grows {
                        lemma_forest_grows(rings, below_ring);
                    }
                }
                contour
            },
        }
    }

    /// Whether the ring is an exterior ring: one that is no hole. An exterior ring may
    /// still lie inside a hole of another.
    pub fn is_exterior(&self) -> (exterior: bool)
        ensures
            exterior == (self@.hole_of is None),
    {
        self.hole_of.is_none()
    }
}

/// In a forest every ring has a place that lies above one of its rings.
pub proof fn lemma_forest_has_places(
    rings: Seq<ContourView>,
    below: Option<(i32, ResultTransition)>,
)
    requires
        is_forest(rings),
        rings.len() <= i32::MAX,
        is_on_ring_below(below, rings.len() as int),
    ensures
        has_place(below, rings),
{
    reveal(is_forest);
    match below {
        Some((lower, _)) => {
            assert(is_in_place(rings, lower as int));
            assert(0 <= rings[lower as int].depth <= lower);
        },
        None => {},
    }
}

/// No rings are a forest.
pub proof fn lemma_no_rings_are_a_forest()
    ensures
        is_forest(Seq::<ContourView>::empty()),
{
    reveal(is_forest);
}

/// The ring that is made from what lies below it, with no vertices and no holes yet.
pub open spec fn new_ring(
    below: Option<(i32, ResultTransition)>,
    rings: Seq<ContourView>,
) -> ContourView {
    ContourView {
        points: Seq::empty(),
        hole_ids: Seq::empty(),
        hole_of: nesting(below, rings).0,
        depth: nesting(below, rings).1 as i32,
    }
}

/// A forest stays a forest when a new ring is put where `nesting` says: the ring is
/// entered as a hole of its parent, if it has one, and added at the end.
pub proof fn lemma_forest_grows(rings: Seq<ContourView>, below: Option<(i32, ResultTransition)>)
    requires
        is_forest(rings),
        rings.len() <= i32::MAX,
        is_on_ring_below(below, rings.len() as int),
    ensures
        is_forest(
            with_hole(rings, nesting(below, rings).0, rings.len() as i32).push(
                new_ring(below, rings),
            ),
        ),
        0 <= nesting(below, rings).1 <= rings.len(),
        nesting(below, rings).0 matches Some(parent) ==> 0 <= parent < rings.len(),
{
    reveal(is_forest);
    let id = rings.len() as i32;
    let fresh = new_ring(below, rings);
    let grown = with_hole(rings, fresh.hole_of, id).push(fresh);
    match below {
        Some((lower, _)) => {
            assert(0 <= rings[lower as int].depth <= lower);
            assert(is_in_place(rings, lower as int));
        },
        None => {},
    }
    assert forall|r: int| 0 <= r < grown.len() implies (#[trigger] grown[r]).hole_of
        == if r < rings.len() {
        rings[r].hole_of
    } else {
        fresh.hole_of
    } && grown[r].depth == if r < rings.len() {
        rings[r].depth
    } else {
        fresh.depth
    } by {}
    assert forall|p: int, k: int|
        0 <= p < grown.len() && 0 <= k < grown[p].hole_ids.len() implies {
        let h = #[trigger] grown[p].hole_ids[k];
        &&& p < h < grown.len()
        &&& grown[h as int].hole_of == Some(p as i32)
    } by {
        if p < rings.len() && k < rings[p].hole_ids.len() {
            let h = rings[p].hole_ids[k];
            assert(p < h < rings.len());
            assert(grown[p].hole_ids[k] == h);
        }
    }
    assert forall|p: int, k: int, l: int|
        0 <= p < grown.len() && 0 <= k < l < grown[p].hole_ids.len() implies
        #[trigger] grown[p].hole_ids[k] < #[trigger] grown[p].hole_ids[l] by {
        if p < rings.len() {
            if l < rings[p].hole_ids.len() {
                assert(rings[p].hole_ids[k] < rings[p].hole_ids[l]);
            } else {
                let h = rings[p].hole_ids[k];
                assert(p < h < rings.len());
            }
        }
    }
    assert forall|r: int| 0 <= r < grown.len() implies #[trigger] is_in_place(grown, r) by {
        if r < rings.len() {
            assert(is_in_place(rings, r));
            match rings[r].hole_of {
                Some(p) => {
                    let k = choose|k: int|
                        0 <= k < rings[p as int].hole_ids.len() && rings[p as int].hole_ids[k]
                            == r as i32;
                    assert(grown[p as int].hole_ids[k] == r as i32);
                },
                None => {},
            }
        } else {
            match below {
                Some((lower, _)) => {
                    assert(is_in_place(rings, lower as int));
                },
                None => {},
            }
            match fresh.hole_of {
                Some(p) => {
                    let last = rings[p as int].hole_ids.len() as int;
                    assert(grown[p as int].hole_ids[last] == r as i32);
                },
                None => {},
            }
        }
    }
}

/// The ring that is reached from ring `r` by going from a hole to the ring that it is a hole
/// of, for as long as there is one.
pub open spec fn outermost(rings: Seq<ContourView>, r: int) -> int
    decreases r,
{
    match rings[r].hole_of {
        Some(p) => if 0 <= p < r {
            outermost(rings, p as int)
        } else {
            r
        },
        None => r,
    }
}

/// In a forest, going from hole to ring ends at an exterior ring. It ends after one step at
/// most: the ring that a hole is a hole of is an exterior ring.
pub proof fn lemma_holes_lead_to_exterior(rings: Seq<ContourView>, r: int)
    requires
        is_forest(rings),
        0 <= r < rings.len(),
    ensures
        0 <= outermost(rings, r) <= r,
        rings[outermost(rings, r)].hole_of is None,
        rings[r].hole_of matches Some(p) ==> outermost(rings, r) == p,
        rings[r].hole_of is None ==> outermost(rings, r) == r,
{
    reveal(is_forest);
    assert(is_in_place(rings, r));
    match rings[r].hole_of {
        Some(p) => {
            assert(is_in_place(rings, p as int));
            assert(outermost(rings, p as int) == p);
        },
        None => {},
    }
}

/// In a forest, the holes that a ring lists are exactly the rings that are holes of it, in
/// ascending order.
pub proof fn lemma_forest_lists_holes(rings: Seq<ContourView>, p: int, r: int)
    requires
        is_forest(rings),
        rings.len() <= i32::MAX,
        0 <= p < rings.len(),
        0 <= r < rings.len(),
    ensures
        rings[p].hole_ids.contains(r as i32) <==> rings[r].hole_of == Some(p as i32),
        forall|k: int, l: int|
            0 <= k < l < rings[p].hole_ids.len() ==> rings[p].hole_ids[k] < rings[p].hole_ids[l],
{
    reveal(is_forest);
    assert(is_in_place(rings, r));
    if rings[p].hole_ids.contains(r as i32) {
        let k = choose|k: int| 0 <= k < rings[p].hole_ids.len() && rings[p].hole_ids[k] == r as i32;
        assert(rings[rings[p].hole_ids[k] as int].hole_of == Some(p as i32));
    }
}

/// In a forest, a hole lies one level deeper than the ring it is a hole of, and no ring lies
/// deeper than its index.
pub proof fn lemma_hole_is_one_deeper(rings: Seq<ContourView>, r: int)
    requires
        is_forest(rings),
        0 <= r < rings.len(),
    ensures
        0 <= rings[r].depth <= r,
        rings[r].hole_of matches Some(p) ==> 0 <= p < r && rings[r].depth == rings[p as int].depth
            + 1,
{
    reveal(is_forest);
    assert(is_in_place(rings, r));
}

} // verus!
