//! Why the walks come back to where they began: on a boundary where the events on one point
//! stand together and an even number of segments ends at every point, every walk goes on
//! from the point it has reached, and stops on the point it began at.

use crate::contour::ContourView;
use crate::sweep_event::{Coordinate, SweepEvent};
use crate::traversal::{
    connects, goes_on_at, in_run, is_matched_at, is_matching, is_next_pos, is_ring_walk,
    is_ring_walk_at, is_step, is_traversal, lemma_each_position_once,
    lemma_visited_along_contains, partners_along, points_along, points_of_walk, ring_follows,
    stops_at, visited_along, visited_by,
};
use vstd::prelude::*;

verus! {

/// How many of the positions below `m` lie on the point `c`.
pub open spec fn count_at(points: Seq<Coordinate>, c: Coordinate, m: int) -> int
    decreases m,
{
    if m <= 0 {
        0
    } else {
        count_at(points, c, m - 1) + if points[m - 1] == c {
            1int
        } else {
            0int
        }
    }
}

/// How many of the positions below `m` that lie on the point `c` are in `done`.
pub open spec fn count_done(points: Seq<Coordinate>, done: Set<i32>, c: Coordinate, m: int) -> int
    decreases m,
{
    if m <= 0 {
        0
    } else {
        count_done(points, done, c, m - 1) + if points[m - 1] == c && done.contains(
            (m - 1) as i32,
        ) {
            1int
        } else {
            0int
        }
    }
}

/// Where positions `a` and `c` lie on one point, position `b` between them lies on it too.
pub open spec fn stands_together(points: Seq<Coordinate>, a: int, b: int, c: int) -> bool {
    0 <= a <= b <= c < points.len() && points[a] == points[c] ==> points[b] == points[a]
}

/// The events on one point stand together in the traversal order.
pub open spec fn is_clustered(points: Seq<Coordinate>) -> bool {
    forall|a: int, b: int, c: int| #[trigger] stands_together(points, a, b, c)
}

/// An even number of segment ends lies on every point.
pub open spec fn has_even_degrees(points: Seq<Coordinate>) -> bool {
    forall|c: Coordinate| #[trigger] count_at(points, c, points.len() as int) % 2 == 0
}

/// The segment that ends at position `p` has two different end points.
pub open spec fn has_length_at(points: Seq<Coordinate>, partners: Seq<i32>, p: int) -> bool {
    points[p] != points[partners[p] as int]
}

/// No segment of the boundary is a single point.
pub open spec fn has_no_point_segments(points: Seq<Coordinate>, partners: Seq<i32>) -> bool {
    forall|p: int| 0 <= p < points.len() ==> #[trigger] has_length_at(points, partners, p)
}

/// The segments that end at positions `p` and `q`, if they are two segments, do not join the
/// same two points.
pub open spec fn is_single_at(
    points: Seq<Coordinate>,
    partners: Seq<i32>,
    p: int,
    q: int,
) -> bool {
    0 <= p < points.len() && 0 <= q < points.len() && q != p && q != partners[p] && points[p]
        == points[q] ==> points[partners[p] as int] != points[partners[q] as int]
}

/// No two segments of the boundary join the same two points.
pub open spec fn has_no_double_segments(points: Seq<Coordinate>, partners: Seq<i32>) -> bool {
    forall|p: int, q: int| #[trigger] is_single_at(points, partners, p, q)
}

/// An even number of the positions in `done` lies on every point, but for the points `s` and
/// `b` if they are two: there the number is odd.
spec fn is_open_between(
    points: Seq<Coordinate>,
    done: Set<i32>,
    s: Coordinate,
    b: Coordinate,
) -> bool {
    forall|c: Coordinate|
        (#[trigger] count_done(points, done, c, points.len() as int)) % 2 == if (c == s) != (c
            == b) {
            1int
        } else {
            0int
        }
}

/// Visiting one more position counts for the point it lies on.
proof fn lemma_count_insert(points: Seq<Coordinate>, done: Set<i32>, x: i32, c: Coordinate, m: int)
    requires
        0 <= m <= points.len() <= i32::MAX,
    ensures
        count_done(points, done.insert(x), c, m) == count_done(points, done, c, m) + (if 0 <= x
            < m && !done.contains(x) && points[x as int] == c {
            1int
        } else {
            0int
        }),
    decreases m,
{
    if m > 0 {
        lemma_count_insert(points, done, x, c, m - 1);
    }
}

/// While fewer positions on a point have been visited than lie on it, one of them has not
/// been visited.
proof fn lemma_some_left(points: Seq<Coordinate>, done: Set<i32>, c: Coordinate, m: int)
    requires
        0 <= m <= points.len() <= i32::MAX,
    ensures
        count_done(points, done, c, m) <= count_at(points, c, m),
        count_done(points, done, c, m) != count_at(points, c, m) ==> exists|u: int|
            0 <= u < m && points[u] == c && !done.contains(u as i32),
    decreases m,
{
    if m > 0 {
        lemma_some_left(points, done, c, m - 1);
        if count_done(points, done, c, m) != count_at(points, c, m) {
            if count_done(points, done, c, m - 1) != count_at(points, c, m - 1) {
                let u = choose|u: int| 0 <= u < m - 1 && points[u] == c && !done.contains(u as i32);
                assert(0 <= u < m && points[u] == c && !done.contains(u as i32));
            } else {
                assert(0 <= m - 1 < m && points[m - 1] == c && !done.contains((m - 1) as i32));
            }
        }
    }
}

/// Where a walk has arrived at a point other than the one it began at, an event on that
/// point has not been visited.
proof fn lemma_unvisited_on_point(
    points: Seq<Coordinate>,
    done: Set<i32>,
    s: Coordinate,
    b: Coordinate,
) -> (u: int)
    requires
        points.len() <= i32::MAX,
        has_even_degrees(points),
        is_open_between(points, done, s, b),
        s != b,
    ensures
        0 <= u < points.len(),
        points[u] == b,
        !done.contains(u as i32),
{
    let n = points.len() as int;
    assert(count_done(points, done, b, n) % 2 == 1);
    assert(count_at(points, b, n) % 2 == 0);
    lemma_some_left(points, done, b, n);
    choose|u: int| 0 <= u < n && points[u] == b && !done.contains(u as i32)
}

/// A walk goes on from the point it has reached.
proof fn lemma_goes_on_from_point(
    points: Seq<Coordinate>,
    done: Set<i32>,
    b: i32,
    s: i32,
    next: i32,
)
    requires
        points.len() <= i32::MAX,
        is_clustered(points),
        has_even_degrees(points),
        0 <= s < b < points.len(),
        is_next_pos(points, done, b, s, next),
        next != s,
        done.contains(b),
        is_open_between(points, done, points[s as int], points[b as int]),
    ensures
        s < next < points.len(),
        points[next as int] == points[b as int],
{
    reveal(is_next_pos);
    let c = points[b as int];
    if goes_on_at(points, done, b, next) {
        assert(points[next as int] == points[b as int]);
    } else {
        if next < s {
            assert(stops_at(done, s, s));
        }
        if c == points[s as int] {
            assert(stands_together(points, s as int, next as int, b as int));
        } else {
            let u = lemma_unvisited_on_point(points, done, points[s as int], c);
            if u > b {
                assert(in_run(points, b, u as i32)) by {
                    assert forall|k: i32| b < k <= u as i32 implies #[trigger] points[k as int]
                        == points[b as int] by {
                        assert(stands_together(points, b as int, k as int, u));
                    }
                }
                assert(goes_on_at(points, done, b, u as i32));
            }
            if next < u {
                assert(stops_at(done, s, u as i32));
            }
            assert(stands_together(points, u, next as int, b as int));
        }
    }
}

/// A walk stops on the point it began at.
proof fn lemma_stops_on_first_point(points: Seq<Coordinate>, done: Set<i32>, b: i32, s: i32)
    requires
        points.len() <= i32::MAX,
        is_clustered(points),
        has_even_degrees(points),
        0 <= s < b < points.len(),
        is_next_pos(points, done, b, s, s),
        done.contains(b),
        done.contains(s),
        forall|j: i32| 0 <= j < s ==> done.contains(j),
        is_open_between(points, done, points[s as int], points[b as int]),
    ensures
        points[b as int] == points[s as int],
{
    reveal(is_next_pos);
    let c = points[b as int];
    if c != points[s as int] {
        let u = lemma_unvisited_on_point(points, done, points[s as int], c);
        if u > b {
            assert(in_run(points, b, u as i32)) by {
                assert forall|k: i32| b < k <= u as i32 implies #[trigger] points[k as int]
                    == points[b as int] by {
                    assert(stands_together(points, b as int, k as int, u));
                }
            }
            assert(goes_on_at(points, done, b, u as i32));
        }
        if s < u {
            assert(stops_at(done, s, u as i32));
        }
    }
}

/// The steps of a ring walk after the first visit positions above the one it began at.
proof fn lemma_step_above_first(
    points: Seq<Coordinate>,
    partners: Seq<i32>,
    before: Set<i32>,
    walk: Seq<i32>,
    k: int,
)
    requires
        is_ring_walk(points, partners, before, walk),
        0 < k < walk.len(),
    ensures
        walk[0] < walk[k] < points.len(),
        0 <= walk[0],
{
    assert(is_step(points, partners, before, walk, k));
    assert(is_step(points, partners, before, walk, 0));
    lemma_visited_along_contains(before, walk, k, walk[k]);
    if walk[k] <= walk[0] {
        if walk[k] == walk[0] {
            assert(0 <= 0 < k && walk[0] == walk[k]);
        }
    }
}

/// What has been visited after `k` steps of a ring walk, for an even `k` above 0: besides an
/// even number of positions on every point, the ends of a path from the point where the walk
/// began to the point it has reached. And each segment walked along so far begins where the
/// one before ended.
proof fn lemma_walk_stays_open(
    points: Seq<Coordinate>,
    partners: Seq<i32>,
    before: Set<i32>,
    walk: Seq<i32>,
    k: int,
)
    requires
        points.len() <= i32::MAX,
        is_clustered(points),
        has_even_degrees(points),
        is_ring_walk(points, partners, before, walk),
        forall|c: Coordinate| #[trigger]
            count_done(points, before, c, points.len() as int) % 2 == 0,
        2 <= k <= walk.len(),
        k % 2 == 0,
    ensures
        is_open_between(
            points,
            visited_along(before, walk, k),
            points[walk[0] as int],
            points[walk[k - 1] as int],
        ),
        forall|j: int|
            0 < j < k && j % 2 == 0 ==> points[#[trigger] walk[j] as int] == points[walk[j
                - 1] as int],
    decreases k,
{
    let n = points.len() as int;
    let a = walk[k - 2];
    let b = walk[k - 1];
    let so_far = visited_along(before, walk, k - 2);
    assert(is_step(points, partners, before, walk, k - 2));
    assert(is_step(points, partners, before, walk, k - 1));
    assert(visited_along(before, walk, k - 1) == so_far.insert(a));
    assert(visited_along(before, walk, k) == so_far.insert(a).insert(b));
    if k == 2 {
        assert(so_far == before);
    } else {
        lemma_walk_stays_open(points, partners, before, walk, k - 2);
        let reached = walk[k - 3];
        lemma_step_above_first(points, partners, before, walk, k - 3);
        lemma_visited_along_contains(before, walk, k - 2, reached);
        assert(0 <= k - 3 < k - 2 && walk[k - 3] == reached);
        lemma_goes_on_from_point(points, so_far, reached, walk[0], a);
    }
    assert forall|c: Coordinate|
        (#[trigger] count_done(points, so_far.insert(a).insert(b), c, n)) % 2 == if (c
            == points[walk[0] as int]) != (c == points[b as int]) {
        1int
    } else {
        0int
    } by {
        lemma_count_insert(points, so_far, a, c, n);
        lemma_count_insert(points, so_far.insert(a), b, c, n);
        if k == 2 {
            assert(count_done(points, before, c, n) % 2 == 0);
        } else {
            assert(count_done(points, so_far, c, n) % 2 == if (c == points[walk[0] as int]) != (c
                == points[walk[k - 3] as int]) {
                1int
            } else {
                0int
            });
        }
    }
}

/// A ring walk ends on the point it began at, each of its segments begins where the one
/// before ended, and after it an even number of visited positions lies on every point.
proof fn lemma_walk_closes(
    points: Seq<Coordinate>,
    partners: Seq<i32>,
    before: Set<i32>,
    walk: Seq<i32>,
)
    requires
        points.len() <= i32::MAX,
        is_clustered(points),
        has_even_degrees(points),
        is_ring_walk(points, partners, before, walk),
        forall|c: Coordinate| #[trigger]
            count_done(points, before, c, points.len() as int) % 2 == 0,
    ensures
        points[walk[walk.len() - 1] as int] == points[walk[0] as int],
        forall|j: int|
            0 < j < walk.len() && j % 2 == 0 ==> points[#[trigger] walk[j] as int]
                == points[walk[j - 1] as int],
        forall|c: Coordinate| #[trigger]
            count_done(
                points,
                visited_along(before, walk, walk.len() as int),
                c,
                points.len() as int,
            ) % 2 == 0,
{
    let len = walk.len() as int;
    let done = visited_along(before, walk, len);
    let last = walk[len - 1];
    lemma_walk_stays_open(points, partners, before, walk, len);
    lemma_step_above_first(points, partners, before, walk, len - 1);
    lemma_visited_along_contains(before, walk, len, last);
    assert(0 <= len - 1 < len && walk[len - 1] == last);
    lemma_visited_along_contains(before, walk, len, walk[0]);
    assert(0 <= 0 < len && walk[0] == walk[0]);
    assert forall|j: i32| 0 <= j < walk[0] implies done.contains(j) by {
        lemma_visited_along_contains(before, walk, len, j);
    }
    lemma_stops_on_first_point(points, done, last, walk[0]);
}

/// After any number of ring walks an even number of visited positions lies on every point.
proof fn lemma_even_between_walks(
    points: Seq<Coordinate>,
    partners: Seq<i32>,
    walks: Seq<Seq<i32>>,
    r: int,
)
    requires
        points.len() <= i32::MAX,
        is_clustered(points),
        has_even_degrees(points),
        is_traversal(points, partners, walks),
        0 <= r <= walks.len(),
    ensures
        forall|c: Coordinate| #[trigger]
            count_done(points, visited_by(walks, r), c, points.len() as int) % 2 == 0,
    decreases r,
{
    if r == 0 {
        assert forall|c: Coordinate| #[trigger]
            count_done(points, visited_by(walks, r), c, points.len() as int) % 2 == 0 by {
            lemma_count_nothing(points, c, points.len() as int);
        }
    } else {
        lemma_even_between_walks(points, partners, walks, r - 1);
        assert(is_ring_walk_at(points, partners, walks, r - 1));
        lemma_walk_closes(points, partners, visited_by(walks, r - 1), walks[r - 1]);
    }
}

/// Where nothing has been visited, nothing counts.
proof fn lemma_count_nothing(points: Seq<Coordinate>, c: Coordinate, m: int)
    ensures
        count_done(points, Set::<i32>::empty(), c, m) == 0,
    decreases m,
{
    if m > 0 {
        lemma_count_nothing(points, c, m - 1);
    }
}

/// On a boundary where the events on one point stand together and an even number of
/// segment ends lies on every point, every ring is closed: its walk ends on the point it began
/// at, and each segment along it begins on the point where the segment before it ended.
pub proof fn lemma_rings_close(
    points: Seq<Coordinate>,
    partners: Seq<i32>,
    walks: Seq<Seq<i32>>,
    r: int,
)
    requires
        points.len() <= i32::MAX,
        is_clustered(points),
        has_even_degrees(points),
        is_traversal(points, partners, walks),
        0 <= r < walks.len(),
    ensures
        points_of_walk(points, walks[r]).len() >= 2,
        points_of_walk(points, walks[r]).first() == points_of_walk(points, walks[r]).last(),
        forall|j: int|
            0 < j < walks[r].len() && j % 2 == 0 ==> points[#[trigger] walks[r][j] as int]
                == points[walks[r][j - 1] as int],
{
    lemma_even_between_walks(points, partners, walks, r);
    assert(is_ring_walk_at(points, partners, walks, r));
    lemma_walk_closes(points, partners, visited_by(walks, r), walks[r]);
}

/// If moreover no segment is a single point and no two segments join the same two points,
/// every ring has three different vertices at least: its first three.
pub proof fn lemma_rings_have_three_points(
    points: Seq<Coordinate>,
    partners: Seq<i32>,
    walks: Seq<Seq<i32>>,
    r: int,
)
    requires
        points.len() <= i32::MAX,
        is_clustered(points),
        has_even_degrees(points),
        has_no_point_segments(points, partners),
        has_no_double_segments(points, partners),
        is_matching(partners),
        partners.len() == points.len(),
        is_traversal(points, partners, walks),
        0 <= r < walks.len(),
    ensures
        points_of_walk(points, walks[r]).len() >= 4,
        points_of_walk(points, walks[r])[0] != points_of_walk(points, walks[r])[1],
        points_of_walk(points, walks[r])[1] != points_of_walk(points, walks[r])[2],
        points_of_walk(points, walks[r])[0] != points_of_walk(points, walks[r])[2],
{
    let walk = walks[r];
    lemma_rings_close(points, partners, walks, r);
    lemma_each_position_once(points, partners, walks);
    assert(is_ring_walk_at(points, partners, walks, r));
    let before = visited_by(walks, r);
    assert(is_step(points, partners, before, walk, 0));
    assert(is_step(points, partners, before, walk, 1));
    assert(has_length_at(points, partners, walk[0] as int));
    if walk.len() == 2 {
        assert(points[walk[1] as int] == points[walk[0] as int]);
    }
    assert(is_step(points, partners, before, walk, 2));
    assert(is_step(points, partners, before, walk, 3));
    assert(has_length_at(points, partners, walk[2] as int));
    assert(points[walk[2] as int] == points[walk[1] as int]);
    assert(walks[r][3] != walks[r][0]);
    assert(walks[r][3] != walks[r][1]);
    assert(is_matched_at(partners, walk[2] as int));
    assert(is_single_at(points, partners, walk[0] as int, walk[3] as int));
}

/// The rings that `connect_edges` makes are closed, on a boundary where the events on one
/// point stand together and an even number of segment ends lies on every point: the last
/// vertex of each ring is its first.
pub proof fn lemma_connected_rings_close(
    before: Seq<SweepEvent>,
    after: Seq<SweepEvent>,
    order: Seq<usize>,
    walks: Seq<Seq<i32>>,
    rings: Seq<ContourView>,
    r: int,
)
    requires
        before.len() <= i32::MAX,
        connects(before, after, order, walks, rings),
        is_clustered(points_along(after, order)),
        has_even_degrees(points_along(after, order)),
        0 <= r < rings.len(),
    ensures
        rings[r].points.len() >= 2,
        rings[r].points.first() == rings[r].points.last(),
{
    assert(ring_follows(after, order, walks, rings, r));
    lemma_rings_close(points_along(after, order), partners_along(after, order), walks, r);
}

/// The rings that `connect_edges` makes have three different vertices at least, if moreover
/// no segment is a single point and no two segments join the same two points.
pub proof fn lemma_connected_rings_have_three_points(
    before: Seq<SweepEvent>,
    after: Seq<SweepEvent>,
    order: Seq<usize>,
    walks: Seq<Seq<i32>>,
    rings: Seq<ContourView>,
    r: int,
)
    requires
        before.len() <= i32::MAX,
        connects(before, after, order, walks, rings),
        is_clustered(points_along(after, order)),
        has_even_degrees(points_along(after, order)),
        has_no_point_segments(points_along(after, order), partners_along(after, order)),
        has_no_double_segments(points_along(after, order), partners_along(after, order)),
        0 <= r < rings.len(),
    ensures
        rings[r].points.len() >= 4,
        rings[r].points[0] != rings[r].points[1],
        rings[r].points[1] != rings[r].points[2],
        rings[r].points[0] != rings[r].points[2],
{
    assert(ring_follows(after, order, walks, rings, r));
    lemma_rings_have_three_points(
        points_along(after, order),
        partners_along(after, order),
        walks,
        r,
    );
}

} // verus!
