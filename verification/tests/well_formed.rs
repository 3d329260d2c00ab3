use geo_booleanop::connect_edges::is_well_formed;
use geo_booleanop::sweep_event::{Coordinate, ResultTransition, SweepEvent};

fn event(is_left: bool, other_event: usize, below: Option<usize>, order_key: u64) -> SweepEvent {
    SweepEvent {
        point: Coordinate { x: 0, y: 0 },
        is_left,
        other_event,
        is_in_result: is_left,
        prev_in_result: below,
        result_transition: ResultTransition::OutIn,
        order_key,
        output_contour_id: -1,
        other_pos: -1,
    }
}

/// Two segments of the result, the second above the first.
fn two_segments() -> Vec<SweepEvent> {
    vec![
        event(true, 1, None, 0),
        event(false, 0, None, 3),
        event(true, 3, Some(0), 1),
        event(false, 2, None, 2),
    ]
}

#[test]
fn paired_events_above_earlier_ones_are_well_formed() {
    assert!(is_well_formed(&two_segments()));
    assert!(is_well_formed(&[]));
}

#[test]
fn a_partner_out_of_reach_is_not_well_formed() {
    let mut events = two_segments();
    events[3].other_event = 4;
    assert!(!is_well_formed(&events));
}

#[test]
fn a_partner_that_names_another_is_not_well_formed() {
    let mut events = two_segments();
    events[1].other_event = 2;
    assert!(!is_well_formed(&events));
}

#[test]
fn an_event_that_is_its_own_partner_is_not_well_formed() {
    let mut events = two_segments();
    events[0].other_event = 0;
    assert!(!is_well_formed(&events));
}

#[test]
fn two_left_ends_are_not_well_formed() {
    let mut events = two_segments();
    events[1].is_left = true;
    assert!(!is_well_formed(&events));
}

#[test]
fn a_segment_below_that_comes_later_is_not_well_formed() {
    let mut events = two_segments();
    events[0].order_key = 1;
    events[2].order_key = 0;
    assert!(!is_well_formed(&events));
}

#[test]
fn with_the_same_key_the_segment_below_has_the_lower_index() {
    let mut events = two_segments();
    events[2].order_key = 0;
    assert!(is_well_formed(&events));
    events[0].prev_in_result = Some(2);
    events[2].prev_in_result = None;
    assert!(!is_well_formed(&events));
}

#[test]
fn a_segment_below_that_is_missing_is_not_well_formed() {
    let mut events = two_segments();
    events[2].prev_in_result = Some(9);
    assert!(!is_well_formed(&events));
}

#[test]
fn a_segment_below_outside_the_result_is_not_well_formed() {
    let mut events = two_segments();
    events[0].is_in_result = false;
    assert!(!is_well_formed(&events));
}

#[test]
fn what_lies_below_an_event_outside_the_result_does_not_matter() {
    let mut events = two_segments();
    events[2].is_in_result = false;
    events[2].prev_in_result = Some(9);
    assert!(is_well_formed(&events));
}
