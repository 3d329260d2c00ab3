use geo_booleanop::contour::Contour;
use geo_booleanop::sweep_event::{Coordinate, ResultTransition, SweepEvent};

fn event(below: Option<usize>, transition: ResultTransition, ring: i32) -> SweepEvent {
    SweepEvent {
        point: Coordinate { x: 0, y: 0 },
        is_left: true,
        other_event: 0,
        is_in_result: true,
        prev_in_result: below,
        result_transition: transition,
        order_key: 0,
        output_contour_id: ring,
        other_pos: -1,
    }
}

/// An exterior ring of depth 0, a hole of it, and an exterior ring of depth 2.
fn rings() -> Vec<Contour> {
    let mut outer = Contour::new(None, 0);
    outer.hole_ids.push(1);
    outer.points.push(Coordinate { x: 1, y: 2 });
    vec![outer, Contour::new(Some(0), 1), Contour::new(None, 2)]
}

#[test]
fn new_contour_is_empty() {
    let contour = Contour::new(Some(3), 2);
    assert!(contour.points.is_empty());
    assert!(contour.hole_ids.is_empty());
    assert_eq!(contour.hole_of, Some(3));
    assert_eq!(contour.depth, 2);
}

#[test]
fn exterior_is_what_is_no_hole() {
    assert!(Contour::new(None, 0).is_exterior());
    assert!(Contour::new(None, 5).is_exterior());
    assert!(!Contour::new(Some(0), 1).is_exterior());
}

#[test]
fn nothing_below_makes_an_exterior_ring_of_depth_0() {
    let events = vec![event(None, ResultTransition::OutIn, -1)];
    let mut contours = rings();
    let before = contours.clone();

    let contour = Contour::initialize_from_context(&events[0], &events, &mut contours, 3);

    assert_eq!(contour, Contour::new(None, 0));
    assert_eq!(contours, before);
}

#[test]
fn above_a_way_out_is_an_exterior_ring_of_the_same_depth() {
    let events = vec![
        event(None, ResultTransition::InOut, 2),
        event(Some(0), ResultTransition::OutIn, -1),
    ];
    let mut contours = rings();
    let before = contours.clone();

    let contour = Contour::initialize_from_context(&events[1], &events, &mut contours, 3);

    assert_eq!(contour, Contour::new(None, 2));
    assert_eq!(contours, before);
}

#[test]
fn above_a_segment_that_is_no_transition_is_an_exterior_ring_too() {
    let events = vec![
        event(None, ResultTransition::NoTransition, 1),
        event(Some(0), ResultTransition::OutIn, -1),
    ];
    let mut contours = rings();
    let before = contours.clone();

    let contour = Contour::initialize_from_context(&events[1], &events, &mut contours, 3);

    assert_eq!(contour, Contour::new(None, 1));
    assert_eq!(contours, before);
}

#[test]
fn above_a_way_into_a_hole_is_a_hole_beside_it() {
    let events = vec![
        event(None, ResultTransition::OutIn, 1),
        event(Some(0), ResultTransition::InOut, -1),
    ];
    let mut contours = rings();
    let before = contours.clone();

    let contour = Contour::initialize_from_context(&events[1], &events, &mut contours, 3);

    assert_eq!(contour, Contour::new(Some(0), 1));
    assert_eq!(contours[0].hole_ids, vec![1, 3]);
    assert_eq!(contours[0].points, before[0].points);
    assert_eq!((contours[0].hole_of, contours[0].depth), (None, 0));
    assert_eq!(contours[1], before[1]);
    assert_eq!(contours[2], before[2]);
}

#[test]
fn above_a_way_into_an_exterior_ring_is_a_hole_of_it() {
    let events = vec![
        event(None, ResultTransition::OutIn, 2),
        event(Some(0), ResultTransition::InOut, -1),
    ];
    let mut contours = rings();
    let before = contours.clone();

    let contour = Contour::initialize_from_context(&events[1], &events, &mut contours, 3);

    assert_eq!(contour, Contour::new(Some(2), 3));
    assert_eq!(contours[2].hole_ids, vec![3]);
    assert_eq!((contours[2].hole_of, contours[2].depth), (None, 2));
    assert_eq!(contours[0], before[0]);
    assert_eq!(contours[1], before[1]);
}

#[test]
fn the_first_ring_has_nothing_below() {
    let events = vec![event(None, ResultTransition::OutIn, -1)];
    let mut contours: Vec<Contour> = Vec::new();

    let contour = Contour::initialize_from_context(&events[0], &events, &mut contours, 0);

    assert_eq!(contour, Contour::new(None, 0));
    assert!(contours.is_empty());
}
