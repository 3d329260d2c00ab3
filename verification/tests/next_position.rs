use geo_booleanop::connect_edges::{mark_as_processed, next_pos};
use geo_booleanop::sweep_event::{Coordinate, ResultTransition, SweepEvent};
use std::collections::HashSet;

fn event_at(x: i64, y: i64) -> SweepEvent {
    SweepEvent {
        point: Coordinate { x, y },
        is_left: true,
        other_event: 0,
        is_in_result: true,
        prev_in_result: None,
        result_transition: ResultTransition::NoTransition,
        order_key: 0,
        output_contour_id: -1,
        other_pos: -1,
    }
}

/// Events on the given points, with the order that they stand in.
fn events_at(points: &[(i64, i64)]) -> (Vec<SweepEvent>, Vec<usize>) {
    let events: Vec<SweepEvent> = points.iter().map(|&(x, y)| event_at(x, y)).collect();
    let order = (0..events.len()).collect();
    (events, order)
}

fn visited(positions: &[i32]) -> HashSet<i32> {
    positions.iter().copied().collect()
}

#[test]
fn goes_on_at_the_next_event_on_the_same_point() {
    let (events, order) = events_at(&[(0, 0), (1, 1), (1, 1), (2, 2)]);
    assert_eq!(next_pos(1, &events, &order, &visited(&[0, 1]), 0), 2);
}

#[test]
fn skips_visited_events_on_the_same_point() {
    let (events, order) = events_at(&[(0, 0), (1, 1), (1, 1), (1, 1), (1, 1), (2, 2)]);
    assert_eq!(next_pos(1, &events, &order, &visited(&[0, 1, 2, 3]), 0), 4);
}

#[test]
fn does_not_go_on_at_another_point() {
    let (events, order) = events_at(&[(0, 0), (0, 0), (1, 1), (2, 2)]);
    // Position 3 is free, but lies on another point: the search turns back.
    assert_eq!(next_pos(2, &events, &order, &visited(&[0, 2]), 0), 1);
}

#[test]
fn a_point_is_the_same_only_if_both_coordinates_are() {
    let (events, order) = events_at(&[(0, 0), (1, 1), (1, 2), (1, 1)]);
    assert_eq!(next_pos(1, &events, &order, &visited(&[1]), 0), 0);
    let (events, order) = events_at(&[(0, 0), (1, 1), (2, 1), (1, 1)]);
    assert_eq!(next_pos(1, &events, &order, &visited(&[1]), 0), 0);
    let (events, order) = events_at(&[(0, 0), (1, 1), (1, 1), (1, 1)]);
    assert_eq!(next_pos(1, &events, &order, &visited(&[1]), 0), 2);
}

#[test]
fn does_not_look_beyond_the_end_of_the_run() {
    let (events, order) = events_at(&[(0, 0), (1, 1), (2, 2), (1, 1)]);
    // Position 3 lies on the point of position 1 but does not stand beside it.
    assert_eq!(next_pos(1, &events, &order, &visited(&[1]), 0), 0);
}

#[test]
fn turns_back_to_the_nearest_free_event() {
    let (events, order) = events_at(&[(0, 0), (1, 0), (2, 0), (3, 0), (4, 0), (5, 0)]);
    assert_eq!(next_pos(4, &events, &order, &visited(&[0, 3, 4]), 0), 2);
}

#[test]
fn turns_back_over_events_on_other_points() {
    let (events, order) = events_at(&[(0, 0), (7, 7), (8, 8), (9, 9)]);
    assert_eq!(next_pos(3, &events, &order, &visited(&[1, 2, 3]), 0), 0);
}

#[test]
fn stops_where_the_ring_began() {
    let (events, order) = events_at(&[(0, 0), (1, 0), (2, 0), (3, 0), (4, 0)]);
    let all = visited(&[0, 1, 2, 3, 4]);
    assert_eq!(next_pos(4, &events, &order, &all, 2), 2);
    assert_eq!(next_pos(4, &events, &order, &all, 0), 0);
}

#[test]
fn stops_at_once_when_it_began_above() {
    let (events, order) = events_at(&[(0, 0), (1, 0), (2, 0), (3, 0), (4, 0)]);
    let all = visited(&[0, 1, 2, 3, 4]);
    assert_eq!(next_pos(2, &events, &order, &all, 3), 1);
    assert_eq!(next_pos(2, &events, &order, &all, 1), 1);
}

#[test]
fn falls_off_the_front_when_nothing_is_below() {
    let (events, order) = events_at(&[(0, 0), (1, 0)]);
    assert_eq!(next_pos(0, &events, &order, &visited(&[0]), 0), -1);
    assert_eq!(next_pos(0, &events, &order, &visited(&[0]), -5), -1);
    assert_eq!(next_pos(0, &events, &order, &visited(&[0, -1]), -5), -2);
    assert_eq!(next_pos(0, &events, &order, &visited(&[0, -1, -2]), -2), -2);
}

#[test]
fn goes_forward_rather_than_back() {
    let (events, order) = events_at(&[(1, 1), (1, 1), (1, 1)]);
    assert_eq!(next_pos(1, &events, &order, &visited(&[1]), 0), 2);
    assert_eq!(next_pos(1, &events, &order, &visited(&[1, 2]), 0), 0);
}

#[test]
fn the_last_position_has_nothing_after_it() {
    let (events, order) = events_at(&[(1, 1), (1, 1), (1, 1)]);
    assert_eq!(next_pos(2, &events, &order, &visited(&[2]), 0), 1);
}

#[test]
fn positions_are_looked_up_through_the_order() {
    let events = vec![event_at(5, 5), event_at(1, 1), event_at(5, 5), event_at(9, 9)];
    // In traversal order: (1, 1), (5, 5), (5, 5), (9, 9).
    let order = vec![1, 0, 2, 3];
    assert_eq!(next_pos(1, &events, &order, &visited(&[0, 1]), 0), 2);
    assert_eq!(next_pos(0, &events, &order, &visited(&[0]), 0), -1);
}

#[test]
fn marking_visits_the_position_and_tags_its_event() {
    let mut events = vec![event_at(5, 5), event_at(1, 1), event_at(9, 9)];
    let order = vec![1, 2, 0];
    let mut processed = HashSet::new();
    let before = events.clone();

    mark_as_processed(&mut processed, &mut events, &order, 1, 4);

    assert_eq!(processed, visited(&[1]));
    assert_eq!(events[2].output_contour_id, 4);
    assert_eq!(SweepEvent { output_contour_id: -1, ..events[2] }, before[2]);
    assert_eq!(events[0], before[0]);
    assert_eq!(events[1], before[1]);

    mark_as_processed(&mut processed, &mut events, &order, 2, 0);
    mark_as_processed(&mut processed, &mut events, &order, 1, 6);

    assert_eq!(processed, visited(&[1, 2]));
    assert_eq!(events[0].output_contour_id, 0);
    assert_eq!(events[2].output_contour_id, 6);
    assert_eq!(events[1], before[1]);
}
