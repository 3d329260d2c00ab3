//! The events that the sweep hands over: one for each end of each segment.
//!
//! The events stand in one sequence, in the order in which the sweep made them, and name
//! each other by their index in it. Where an event stands in the total order of the sweep is
//! told by its key: that order is the sweep's own, and is taken from it as it is.

use geo_types::Coord;
use vstd::prelude::*;

verus! {

/// A vertex of the plane, on the integer grid.
#[derive(Clone, Copy, Debug, PartialEq, Eq)]
pub struct Coordinate {
    pub x: i64,
    pub y: i64,
}

/// What crossing a segment of the result boundary upwards does.
#[derive(Clone, Copy, Debug, PartialEq, Eq, Structural)]
pub enum ResultTransition {
    /// The segment is no transition.
    NoTransition,
    /// From the outside of the result into it.
    OutIn,
    /// From the inside of the result out of it.
    InOut,
}

/// One end of a segment.
///
/// Events live in a sequence and refer to each other by their index in it.
#[derive(Clone, Copy, Debug, PartialEq, Eq)]
pub struct SweepEvent {
    /// Where this end of the segment lies.
    pub point: Coordinate,
    /// Whether this is the end that the sweep meets first.
    pub is_left: bool,
    /// The index of the other end of the same segment.
    pub other_event: usize,
    /// Whether the segment bounds the result. This is read on left events only: a right event
    /// goes by its partner.
    pub is_in_result: bool,
    /// The index of the left event of the nearest segment of the result boundary below this
    /// one, if there is any.
    pub prev_in_result: Option<usize>,
    /// What crossing this segment upwards does.
    pub result_transition: ResultTransition,
    /// The event's place in the total order of the sweep: of two events the one with the
    /// smaller key comes first, and of two with the same key the one with the smaller index.
    pub order_key: u64,
    /// The ring that this event was put on; written by `connect_edges`.
    pub output_contour_id: i32,
    /// The position of the other end among the ordered events of the result boundary;
    /// written by `order_events`.
    pub other_pos: i32,
}

/// The event at index `i` names a partner, the partner names it back, and exactly one of the
/// two is the left end.
pub open spec fn has_partner(events: Seq<SweepEvent>, i: int) -> bool {
    let o = events[i].other_event as int;
    &&& o < events.len()
    &&& events[o].other_event == i
    &&& events[o].is_left != events[i].is_left
}

/// Every event has its partner.
pub open spec fn is_paired(events: Seq<SweepEvent>) -> bool {
    forall|i: int| 0 <= i < events.len() ==> #[trigger] has_partner(events, i)
}

/// The event at index `i` lies on the boundary of the result: a left event does when its
/// segment is in the result, a right event when its partner's segment is.
pub open spec fn on_boundary(events: Seq<SweepEvent>, i: int) -> bool {
    &&& 0 <= i < events.len()
    &&& if events[i].is_left {
        events[i].is_in_result
    } else {
        let o = events[i].other_event as int;
        o < events.len() && events[o].is_in_result
    }
}

/// The event at index `i` comes before the one at index `j` in traversal order.
pub open spec fn sweeps_before(events: Seq<SweepEvent>, i: int, j: int) -> bool {
    events[i].order_key < events[j].order_key || (events[i].order_key == events[j].order_key && i
        < j)
}

/// Whether two points are the same point.
///
/// Calls `==` of `geo_types::Coord`, which `geo_types` derives: it holds when `x` equals `x`
/// and `y` equals `y`. That the answer is `true` for equal points and for no others is taken
/// from there and not proved here.
#[verifier::external_body]
pub(crate) fn same_point(a: &Coordinate, b: &Coordinate) -> (same: bool)
    ensures
        same == (*a == *b),
{
    Coord { x: a.x, y: a.y } == Coord { x: b.x, y: b.y }
}

} // verus!
