use geo_booleanop::connect_edges::{connect_edges, is_well_formed};
use geo_booleanop::contour::Contour;
use geo_booleanop::sweep_event::{Coordinate, ResultTransition, SweepEvent};

fn at(x: i64, y: i64) -> Coordinate {
    Coordinate { x, y }
}

/// The place of an event in the sweep: by `x`, then by `y`, and on one point the right events
/// before the left ones and the lower segment before the upper one (`slot`).
fn key(point: Coordinate, slot: u64) -> u64 {
    ((point.x * 1000 + point.y) * 4) as u64 + slot
}

/// Adds the two events of a segment of the result boundary and returns the index of the left one.
fn segment(
    events: &mut Vec<SweepEvent>,
    left: (Coordinate, u64),
    right: (Coordinate, u64),
    transition: ResultTransition,
    below: Option<usize>,
) -> usize {
    let index = events.len();
    events.push(SweepEvent {
        point: left.0,
        is_left: true,
        other_event: index + 1,
        is_in_result: true,
        prev_in_result: below,
        result_transition: transition,
        order_key: key(left.0, left.1),
        output_contour_id: -1,
        other_pos: -1,
    });
    events.push(SweepEvent {
        point: right.0,
        is_left: false,
        other_event: index,
        is_in_result: false,
        prev_in_result: None,
        result_transition: ResultTransition::NoTransition,
        order_key: key(right.0, right.1),
        output_contour_id: -1,
        other_pos: -1,
    });
    index
}

/// A square with its lower left corner at `(x, y)`. `filled` says whether the result lies
/// inside the square (an outer boundary) or outside it (a hole); `below` is the left event of
/// the segment just below the square. Returns the indices of the left events of the bottom,
/// left, top and right side.
fn square(
    events: &mut Vec<SweepEvent>,
    x: i64,
    y: i64,
    side: i64,
    filled: bool,
    below: Option<usize>,
) -> [usize; 4] {
    let (up, down) = if filled {
        (ResultTransition::OutIn, ResultTransition::InOut)
    } else {
        (ResultTransition::InOut, ResultTransition::OutIn)
    };
    let (x1, y1) = (x + side, y + side);
    let bottom = segment(events, (at(x, y), 2), (at(x1, y), 0), up, below);
    let left = segment(events, (at(x, y), 3), (at(x, y1), 0), up, Some(bottom));
    let top = segment(events, (at(x, y1), 2), (at(x1, y1), 1), down, Some(bottom));
    let right = segment(events, (at(x1, y), 2), (at(x1, y1), 0), down, below);
    [bottom, left, top, right]
}

fn ring(corners: [(i64, i64); 5]) -> Vec<Coordinate> {
    corners.iter().map(|&(x, y)| at(x, y)).collect()
}

fn square_ring(x: i64, y: i64, side: i64) -> Vec<Coordinate> {
    ring([(x, y), (x + side, y), (x + side, y + side), (x, y + side), (x, y)])
}

fn assert_on_ring(events: &[SweepEvent], sides: [usize; 4], id: i32) {
    for side in sides {
        assert_eq!(events[side].output_contour_id, id);
        assert_eq!(events[side + 1].output_contour_id, id);
    }
}

#[test]
fn annulus_is_an_exterior_ring_with_one_hole() {
    let mut events = Vec::new();
    let outer = square(&mut events, 0, 0, 10, true, None);
    let inner = square(&mut events, 3, 3, 4, false, Some(outer[0]));
    assert!(is_well_formed(&events));

    let contours = connect_edges(&mut events);

    assert_eq!(contours.len(), 2);
    assert_eq!(contours[0].hole_of, None);
    assert_eq!(contours[0].depth, 0);
    assert_eq!(contours[0].hole_ids, vec![1]);
    assert!(contours[0].is_exterior());
    assert_eq!(contours[0].points, square_ring(0, 0, 10));
    assert_eq!(contours[1].hole_of, Some(0));
    assert_eq!(contours[1].depth, 1);
    assert_eq!(contours[1].hole_ids, Vec::<i32>::new());
    assert!(!contours[1].is_exterior());
    assert_eq!(contours[1].points, square_ring(3, 3, 4));
    assert_on_ring(&events, outer, 0);
    assert_on_ring(&events, inner, 1);
}

#[test]
fn two_disjoint_squares_are_two_exterior_rings() {
    let mut events = Vec::new();
    let first = square(&mut events, 0, 0, 2, true, None);
    let second = square(&mut events, 5, 0, 2, true, None);

    let contours = connect_edges(&mut events);

    assert_eq!(contours.len(), 2);
    for contour in &contours {
        assert_eq!(contour.hole_of, None);
        assert_eq!(contour.depth, 0);
        assert!(contour.hole_ids.is_empty());
        assert!(contour.is_exterior());
    }
    assert_eq!(contours[0].points, square_ring(0, 0, 2));
    assert_eq!(contours[1].points, square_ring(5, 0, 2));
    for point in &contours[0].points {
        assert!(!contours[1].points.contains(point));
    }
    // Each ring was found from its own lowest event.
    assert_on_ring(&events, first, 0);
    assert_on_ring(&events, second, 1);
}

#[test]
fn figure_eight_is_two_rings_through_the_shared_vertex() {
    let mut events = Vec::new();
    // The upper right corner of the first square is the lower left corner of the second:
    // there the two right events of the first come before the two left events of the second.
    let first = square(&mut events, 0, 0, 2, true, None);
    let second = square(&mut events, 2, 2, 2, true, None);

    let contours = connect_edges(&mut events);

    assert_eq!(contours.len(), 2);
    assert_eq!(contours[0].points, square_ring(0, 0, 2));
    assert_eq!(contours[1].points, square_ring(2, 2, 2));
    assert!(contours[0].points.contains(&at(2, 2)));
    assert!(contours[1].points.contains(&at(2, 2)));
    for contour in &contours {
        assert_eq!(contour.points.first(), contour.points.last());
        assert_eq!(contour.hole_of, None);
        assert_eq!(contour.depth, 0);
    }
    assert_on_ring(&events, first, 0);
    assert_on_ring(&events, second, 1);
}

#[test]
fn no_events_give_no_rings() {
    let mut events: Vec<SweepEvent> = Vec::new();
    let contours: Vec<Contour> = connect_edges(&mut events);
    assert!(contours.is_empty());
}

#[test]
fn segments_outside_the_result_are_left_alone() {
    let mut events = Vec::new();
    let kept = square(&mut events, 0, 0, 4, true, None);
    // A segment that is no part of the result, between the events of the square.
    let dropped = segment(
        &mut events,
        (at(1, 1), 2),
        (at(3, 1), 0),
        ResultTransition::NoTransition,
        None,
    );
    events[dropped].is_in_result = false;
    let before = events.clone();

    let contours = connect_edges(&mut events);

    assert_eq!(contours.len(), 1);
    assert_eq!(contours[0].points, square_ring(0, 0, 4));
    assert_on_ring(&events, kept, 0);
    assert_eq!(events[dropped], before[dropped]);
    assert_eq!(events[dropped + 1], before[dropped + 1]);
}

#[test]
fn island_in_a_hole_is_an_exterior_ring_as_deep_as_the_hole() {
    let mut events = Vec::new();
    let outer = square(&mut events, 0, 0, 20, true, None);
    let hole = square(&mut events, 4, 4, 12, false, Some(outer[0]));
    let island = square(&mut events, 8, 8, 4, true, Some(hole[0]));

    let contours = connect_edges(&mut events);

    assert_eq!(contours.len(), 3);
    assert_eq!((contours[0].hole_of, contours[0].depth), (None, 0));
    assert_eq!((contours[1].hole_of, contours[1].depth), (Some(0), 1));
    // Below the island lies the bottom of the hole, which leads out of the result.
    assert_eq!((contours[2].hole_of, contours[2].depth), (None, 1));
    assert_eq!(contours[0].hole_ids, vec![1]);
    assert!(contours[1].hole_ids.is_empty());
    assert!(contours[2].hole_ids.is_empty());
    assert_eq!(contours[2].points, square_ring(8, 8, 4));
    assert_on_ring(&events, island, 2);
}

#[test]
fn hole_above_a_hole_is_a_hole_of_the_same_ring() {
    let mut events = Vec::new();
    let outer = square(&mut events, 0, 0, 20, true, None);
    let lower = square(&mut events, 4, 2, 4, false, Some(outer[0]));
    // Below the upper hole lies the top of the lower hole, which leads into the result.
    let upper = square(&mut events, 4, 10, 4, false, Some(lower[2]));

    let contours = connect_edges(&mut events);

    assert_eq!(contours.len(), 3);
    assert_eq!((contours[0].hole_of, contours[0].depth), (None, 0));
    assert_eq!((contours[1].hole_of, contours[1].depth), (Some(0), 1));
    assert_eq!((contours[2].hole_of, contours[2].depth), (Some(0), 1));
    assert_eq!(contours[0].hole_ids, vec![1, 2]);
    assert_eq!(contours[1].points, square_ring(4, 2, 4));
    assert_eq!(contours[2].points, square_ring(4, 10, 4));
    assert_on_ring(&events, upper, 2);
}

#[test]
fn square_beside_a_square_above_the_same_segment_is_as_deep() {
    let mut events = Vec::new();
    let outer = square(&mut events, 0, 0, 20, true, None);
    let hole = square(&mut events, 2, 2, 16, false, Some(outer[0]));
    let first = square(&mut events, 4, 4, 2, true, Some(hole[0]));
    let second = square(&mut events, 10, 4, 2, true, Some(hole[0]));

    let contours = connect_edges(&mut events);

    assert_eq!(contours.len(), 4);
    assert_eq!((contours[2].hole_of, contours[2].depth), (None, 1));
    assert_eq!((contours[3].hole_of, contours[3].depth), (None, 1));
    assert_on_ring(&events, first, 2);
    assert_on_ring(&events, second, 3);
}

#[test]
fn every_event_of_the_boundary_is_on_exactly_one_ring() {
    let mut events = Vec::new();
    let outer = square(&mut events, 0, 0, 20, true, None);
    let lower = square(&mut events, 4, 2, 4, false, Some(outer[0]));
    square(&mut events, 4, 10, 4, false, Some(lower[2]));
    square(&mut events, 30, 0, 5, true, None);

    let contours = connect_edges(&mut events);

    assert_eq!(contours.len(), 4);
    // Each walk visits two events for each vertex it adds after the first.
    let visits: usize = contours.iter().map(|contour| 2 * (contour.points.len() - 1)).sum();
    assert_eq!(visits, events.len());
    for event in &events {
        assert!(0 <= event.output_contour_id && event.output_contour_id < 4);
    }
    for id in 0..4 {
        let on_ring = events.iter().filter(|event| event.output_contour_id == id).count();
        assert_eq!(on_ring, 2 * (contours[id as usize].points.len() - 1));
    }
}

#[test]
fn rings_are_closed_and_have_four_corners() {
    let mut events = Vec::new();
    let outer = square(&mut events, 0, 0, 20, true, None);
    let hole = square(&mut events, 4, 4, 12, false, Some(outer[0]));
    square(&mut events, 8, 8, 4, true, Some(hole[0]));

    let contours = connect_edges(&mut events);

    for contour in &contours {
        assert_eq!(contour.points.first(), contour.points.last());
        assert_eq!(contour.points.len(), 5);
        assert_ne!(contour.points[0], contour.points[1]);
        assert_ne!(contour.points[1], contour.points[2]);
        assert_ne!(contour.points[0], contour.points[2]);
    }
}

#[test]
fn holes_and_the_rings_they_are_holes_of_agree() {
    let mut events = Vec::new();
    let outer = square(&mut events, 0, 0, 20, true, None);
    let lower = square(&mut events, 4, 2, 4, false, Some(outer[0]));
    square(&mut events, 4, 10, 4, false, Some(lower[2]));
    let other = square(&mut events, 30, 0, 10, true, None);
    square(&mut events, 32, 2, 2, false, Some(other[0]));

    let contours = connect_edges(&mut events);

    assert_eq!(contours.len(), 5);
    for (id, contour) in contours.iter().enumerate() {
        match contour.hole_of {
            Some(parent) => {
                let parent = &contours[parent as usize];
                assert!(parent.is_exterior());
                assert!(parent.hole_ids.contains(&(id as i32)));
                assert_eq!(contour.depth, parent.depth + 1);
            }
            None => assert!(contour.is_exterior()),
        }
        for &hole in &contour.hole_ids {
            assert_eq!(contours[hole as usize].hole_of, Some(id as i32));
        }
    }
    assert_eq!(contours[0].hole_ids, vec![1, 2]);
    assert_eq!(contours[3].hole_ids, vec![4]);
}

#[test]
fn events_keep_everything_but_the_two_slots() {
    let mut events = Vec::new();
    let outer = square(&mut events, 0, 0, 10, true, None);
    square(&mut events, 3, 3, 4, false, Some(outer[0]));
    let before = events.clone();

    connect_edges(&mut events);

    for (event, was) in events.iter().zip(&before) {
        let restored = SweepEvent {
            output_contour_id: was.output_contour_id,
            other_pos: was.other_pos,
            ..*event
        };
        assert_eq!(restored, *was);
    }
}

#[test]
fn two_triangles_tip_to_tip_are_two_rings() {
    let mut events = Vec::new();
    let up = ResultTransition::OutIn;
    let down = ResultTransition::InOut;
    // The left triangle, with its tip at (2, 2).
    let rising = segment(&mut events, (at(0, 0), 2), (at(2, 2), 0), up, None);
    segment(&mut events, (at(0, 0), 3), (at(0, 4), 0), up, Some(rising));
    segment(&mut events, (at(0, 4), 2), (at(2, 2), 1), down, Some(rising));
    // The right triangle, with its tip at the same point.
    let falling = segment(&mut events, (at(2, 2), 2), (at(4, 0), 0), up, None);
    segment(&mut events, (at(2, 2), 3), (at(4, 4), 1), down, Some(falling));
    segment(&mut events, (at(4, 0), 2), (at(4, 4), 0), down, None);

    let contours = connect_edges(&mut events);

    assert_eq!(contours.len(), 2);
    assert_eq!(contours[0].points, vec![at(0, 0), at(2, 2), at(0, 4), at(0, 0)]);
    assert_eq!(contours[1].points, vec![at(2, 2), at(4, 0), at(4, 4), at(2, 2)]);
    for contour in &contours {
        assert_eq!((contour.hole_of, contour.depth), (None, 0));
    }
}

#[test]
fn two_triangles_one_above_the_other_are_one_ring_through_the_tip_twice() {
    let mut events = Vec::new();
    let up = ResultTransition::OutIn;
    let down = ResultTransition::InOut;
    // The lower triangle, with its tip at (2, 2).
    let bottom = segment(&mut events, (at(0, 0), 2), (at(4, 0), 0), up, None);
    segment(&mut events, (at(0, 0), 3), (at(2, 2), 0), down, Some(bottom));
    segment(&mut events, (at(2, 2), 2), (at(4, 0), 1), down, Some(bottom));
    // The upper triangle, which stands on the tip.
    let falling = segment(&mut events, (at(0, 4), 2), (at(2, 2), 1), up, None);
    segment(&mut events, (at(0, 4), 3), (at(4, 4), 1), down, Some(falling));
    segment(&mut events, (at(2, 2), 3), (at(4, 4), 0), up, Some(bottom));

    let contours = connect_edges(&mut events);

    // At the tip the walk goes on with the next segment that is free, which belongs to the
    // upper triangle: the ring is not cut in two where it touches itself.
    assert_eq!(contours.len(), 1);
    assert_eq!(
        contours[0].points,
        vec![at(0, 0), at(4, 0), at(2, 2), at(4, 4), at(0, 4), at(2, 2), at(0, 0)]
    );
    assert_eq!((contours[0].hole_of, contours[0].depth), (None, 0));
    for event in &events {
        assert_eq!(event.output_contour_id, 0);
    }
}

#[test]
fn a_segment_alone_is_a_ring_that_does_not_close() {
    let mut events = Vec::new();
    segment(&mut events, (at(0, 0), 2), (at(5, 0), 0), ResultTransition::OutIn, None);
    assert!(is_well_formed(&events));

    let contours = connect_edges(&mut events);

    // The walk ends where no segment is left to go on with, and the ring is left as it is.
    assert_eq!(contours.len(), 1);
    assert_eq!(contours[0].points, vec![at(0, 0), at(5, 0)]);
    assert_eq!(events[0].other_pos, 1);
    assert_eq!(events[1].other_pos, 0);
}
