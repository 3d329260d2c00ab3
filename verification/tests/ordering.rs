use geo_booleanop::order::order_events;
use geo_booleanop::sweep_event::{Coordinate, ResultTransition, SweepEvent};

fn event(
    x: i64,
    is_left: bool,
    other_event: usize,
    is_in_result: bool,
    order_key: u64,
) -> SweepEvent {
    SweepEvent {
        point: Coordinate { x, y: 0 },
        is_left,
        other_event,
        is_in_result,
        prev_in_result: None,
        result_transition: ResultTransition::NoTransition,
        order_key,
        output_contour_id: -1,
        other_pos: -7,
    }
}

#[test]
fn events_are_put_in_the_order_of_their_keys() {
    let mut events = vec![
        event(5, false, 1, false, 30),
        event(1, true, 0, true, 10),
        event(9, false, 3, false, 40),
        event(3, true, 2, true, 20),
    ];

    let order = order_events(&mut events);

    assert_eq!(order, vec![1, 3, 0, 2]);
}

#[test]
fn each_event_learns_the_position_of_its_partner() {
    let mut events = vec![
        event(5, false, 1, false, 30),
        event(1, true, 0, true, 10),
        event(9, false, 3, false, 40),
        event(3, true, 2, true, 20),
    ];

    let order = order_events(&mut events);

    assert_eq!(events[1].other_pos, 2);
    assert_eq!(events[0].other_pos, 0);
    assert_eq!(events[3].other_pos, 3);
    assert_eq!(events[2].other_pos, 1);
    for (position, &index) in order.iter().enumerate() {
        let partner = events[index].other_pos as usize;
        assert_eq!(order[partner], events[index].other_event);
        assert_eq!(events[order[partner]].other_pos as usize, position);
    }
}

#[test]
fn only_events_of_the_result_are_kept() {
    let mut events = vec![
        // A segment of the result.
        event(0, true, 1, true, 0),
        event(4, false, 0, false, 3),
        // A segment that is not: the flag of its right event does not count.
        event(1, true, 3, false, 1),
        event(2, false, 2, true, 2),
    ];
    let before = events.clone();

    let order = order_events(&mut events);

    assert_eq!(order, vec![0, 1]);
    assert_eq!(events[0].other_pos, 1);
    assert_eq!(events[1].other_pos, 0);
    assert_eq!(events[2], before[2]);
    assert_eq!(events[3], before[3]);
}

#[test]
fn a_right_event_is_kept_for_the_flag_of_its_left_event() {
    let mut events = vec![event(0, false, 1, false, 5), event(4, true, 0, true, 2)];

    let order = order_events(&mut events);

    assert_eq!(order, vec![1, 0]);
}

#[test]
fn events_with_the_same_key_keep_their_order() {
    let mut events = vec![
        event(0, true, 1, true, 7),
        event(0, false, 0, false, 7),
        event(0, true, 3, true, 3),
        event(0, false, 2, false, 7),
        event(0, true, 5, true, 7),
        event(0, false, 4, false, 3),
    ];

    let order = order_events(&mut events);

    assert_eq!(order, vec![2, 5, 0, 1, 3, 4]);
}

#[test]
fn nothing_but_other_pos_is_changed() {
    let mut events = vec![
        event(5, false, 1, false, 30),
        event(1, true, 0, true, 10),
        event(9, false, 3, false, 40),
        event(3, true, 2, true, 20),
    ];
    let before = events.clone();

    order_events(&mut events);

    for (event, was) in events.iter().zip(&before) {
        assert_ne!(event.other_pos, -7);
        assert_eq!(SweepEvent { other_pos: -7, ..*event }, *was);
    }
}

#[test]
fn ordering_twice_changes_nothing() {
    let mut events = vec![
        event(5, false, 1, false, 30),
        event(1, true, 0, true, 10),
        event(7, true, 5, false, 15),
        event(9, false, 4, false, 40),
        event(3, true, 3, true, 20),
        event(8, false, 2, false, 25),
    ];

    let order = order_events(&mut events);
    let linked = events.clone();
    let order_again = order_events(&mut events);

    assert_eq!(order, vec![1, 4, 0, 3]);
    assert_eq!(order_again, order);
    assert_eq!(events, linked);
}

#[test]
fn sorted_events_stay_where_they_are() {
    let mut events = vec![
        event(0, true, 2, true, 1),
        event(0, true, 3, true, 1),
        event(2, false, 0, false, 4),
        event(2, false, 1, false, 4),
    ];

    let order = order_events(&mut events);

    assert_eq!(order, vec![0, 1, 2, 3]);
    assert_eq!(events[0].other_pos, 2);
    assert_eq!(events[1].other_pos, 3);
    assert_eq!(events[2].other_pos, 0);
    assert_eq!(events[3].other_pos, 1);
}

#[test]
fn no_events_no_order() {
    let mut events: Vec<SweepEvent> = Vec::new();
    assert_eq!(order_events(&mut events), Vec::<usize>::new());
}
