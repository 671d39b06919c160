use std::collections::VecDeque;
use starsurge::movement::{follow_path, PROGRESS_FULL};
use starsurge::{Path, PathFollower, Position, WorldPoint};

fn route(cells: &[(i32, i32)]) -> Path {
    Path(cells.iter().map(|(x, y)| Position::new(*x, *y, 0)).collect::<VecDeque<Position>>())
}

fn point(x: i64, y: i64, z: i64) -> WorldPoint {
    WorldPoint::new(x, y, z)
}

#[test]
fn follower_starts_at_rest_with_one_hop_per_second() {
    let follower = PathFollower::default();
    assert_eq!(follower.speed, 1000);
    assert_eq!(follower.progress(), 0);
    assert_eq!(follower.start_position(), None);
}

#[test]
fn whole_hop_in_one_tick_lands_on_the_target() {
    let mut path = route(&[(1, 0)]);
    let mut follower = PathFollower::default();
    let target = point(1500, 250, 500);
    let moved = follow_path(&mut path, &mut follower, point(500, 0, 500), target, 1_000_000);
    assert_eq!(moved, Some(target));
    assert!(path.0.is_empty());
    assert_eq!(follower.progress(), 0);
    assert_eq!(follower.start_position(), Some(target));
}

#[test]
fn whole_hop_of_a_fast_follower_in_a_short_tick() {
    let mut path = route(&[(1, 0), (2, 0)]);
    let mut follower = PathFollower::with_speed(4000);
    let target = point(1500, 0, 500);
    let moved = follow_path(&mut path, &mut follower, point(500, 0, 500), target, 250_000);
    assert_eq!(moved, Some(target));
    assert_eq!(path.0.len(), 1);
    assert_eq!(path.0.front(), Some(&Position::new(2, 0, 0)));
}

#[test]
fn half_a_hop_stops_halfway() {
    let mut path = route(&[(1, 2)]);
    let mut follower = PathFollower::default();
    let start = point(0, 0, 0);
    let target = point(1000, -300, 2000);
    let moved = follow_path(&mut path, &mut follower, start, target, 500_000);
    assert_eq!(moved, Some(point(500, -150, 1000)));
    assert_eq!(path.0.len(), 1);
    assert_eq!(follower.progress(), PROGRESS_FULL / 2);
    assert_eq!(follower.start_position(), Some(start));
}

#[test]
fn hop_goes_on_from_where_it_began() {
    let mut path = route(&[(1, 0)]);
    let mut follower = PathFollower::default();
    let start = point(0, 0, 0);
    let target = point(1000, 0, 0);
    let first = follow_path(&mut path, &mut follower, start, target, 250_000).unwrap();
    assert_eq!(first, point(250, 0, 0));
    let second = follow_path(&mut path, &mut follower, first, target, 250_000).unwrap();
    assert_eq!(second, point(500, 0, 0));
    let third = follow_path(&mut path, &mut follower, second, target, 500_000).unwrap();
    assert_eq!(third, target);
    assert!(path.0.is_empty());
}

#[test]
fn overshoot_is_not_carried_over() {
    let mut path = route(&[(1, 0), (2, 0)]);
    let mut follower = PathFollower::default();
    let first = point(1000, 0, 0);
    let moved = follow_path(&mut path, &mut follower, point(0, 0, 0), first, 1_500_000);
    assert_eq!(moved, Some(first));
    assert_eq!(follower.progress(), 0);
    // Half a hop was left over; the next tick does not get it.
    let second = point(2000, 0, 0);
    let moved = follow_path(&mut path, &mut follower, point(1000, 0, 1), second, 1000).unwrap();
    assert_eq!(path.0.len(), 1);
    assert_eq!(moved, point(1001, 0, 0));
    assert_eq!(follower.progress(), 1_000_000);
}

#[test]
fn next_hop_begins_at_the_target_reached() {
    let mut path = route(&[(1, 0), (2, 0)]);
    let mut follower = PathFollower::default();
    let first = point(1000, 0, 0);
    follow_path(&mut path, &mut follower, point(0, 0, 0), first, 1_000_000);
    let second = point(2000, 0, 1000);
    // The agent was moved off the route in between; the hop still starts at `first`.
    let moved = follow_path(&mut path, &mut follower, point(1000, 10, 0), second, 500_000);
    assert_eq!(moved, Some(point(1500, 0, 500)));
}

#[test]
fn agent_on_the_target_completes_the_hop_at_once() {
    let mut path = route(&[(0, 0), (1, 0)]);
    let mut follower = PathFollower::default();
    let here = point(500, 0, 500);
    let moved = follow_path(&mut path, &mut follower, here, here, 1);
    assert_eq!(moved, Some(here));
    assert_eq!(path.0.len(), 1);
    assert_eq!(follower.progress(), 0);
    assert_eq!(follower.start_position(), Some(here));
}

#[test]
fn agent_close_to_the_target_does_not_snap() {
    let mut path = route(&[(0, 0)]);
    let mut follower = PathFollower::default();
    let moved = follow_path(&mut path, &mut follower, point(499, 0, 500), point(500, 0, 500), 0);
    assert_eq!(moved, Some(point(499, 0, 500)));
    assert_eq!(path.0.len(), 1);
    assert_eq!(follower.progress(), 0);
}

#[test]
fn standing_still_takes_no_time() {
    let mut path = route(&[(1, 0)]);
    let mut follower = PathFollower::with_speed(0);
    let start = point(0, 0, 0);
    let moved = follow_path(&mut path, &mut follower, start, point(1000, 0, 0), 1_000_000);
    assert_eq!(moved, Some(start));
    assert_eq!(path.0.len(), 1);
}

#[test]
fn route_of_three_is_used_up_by_three_whole_hops() {
    let mut path = route(&[(1, 0), (2, 0), (3, 0)]);
    let mut follower = PathFollower::default();
    let mut position = point(500, 0, 500);
    for hop in 1..4 {
        let target = point(500 + 1000 * hop, 0, 500);
        position = follow_path(&mut path, &mut follower, position, target, 1_000_000).unwrap();
        assert_eq!(position, target);
        assert_eq!(path.0.len() as i64, 3 - hop);
    }
    assert!(path.0.is_empty());
    assert_eq!(follower.progress(), 0);
}

#[test]
fn empty_route_leaves_the_follower_alone() {
    let mut path = route(&[(1, 0)]);
    let mut follower = PathFollower::default();
    let start = point(0, 0, 0);
    follow_path(&mut path, &mut follower, start, point(1000, 0, 0), 400_000);
    let mut empty = route(&[]);
    assert_eq!(follow_path(&mut empty, &mut follower, start, point(1000, 0, 0), 400_000), None);
    assert_eq!(follower.progress(), 400_000_000);
    assert_eq!(follower.start_position(), Some(start));
    assert_eq!(follower.speed, 1000);
}

#[test]
fn lerp_rounds_towards_the_start() {
    let from = point(0, 0, 0);
    let to = point(10, -10, 1);
    assert_eq!(from.lerp(&to, 999_999_999), point(9, -9, 0));
    assert_eq!(from.lerp(&to, 333_333_333), point(3, -3, 0));
    assert_eq!(from.lerp(&to, 0), from);
    assert_eq!(from.lerp(&to, PROGRESS_FULL), to);
}

#[test]
fn lerp_does_not_go_beyond_the_target() {
    let from = point(0, 0, 0);
    let to = point(10, -10, 1);
    assert_eq!(from.lerp(&to, PROGRESS_FULL + 1), to);
    assert_eq!(from.lerp(&to, u64::MAX), to);
}

#[test]
fn lerp_spans_the_whole_world() {
    let from = point(i64::MIN, i64::MAX, 0);
    let to = point(i64::MAX, i64::MIN, 0);
    assert_eq!(from.lerp(&to, PROGRESS_FULL), to);
    assert_eq!(from.lerp(&to, 0), from);
    assert_eq!(from.lerp(&to, PROGRESS_FULL / 2), point(-1, 0, 0));
}

#[test]
fn only_equal_points_are_near() {
    assert!(point(1, 2, 3).is_near(&point(1, 2, 3)));
    assert!(!point(1, 2, 3).is_near(&point(1, 2, 4)));
    assert!(!point(0, 2, 3).is_near(&point(1, 2, 3)));
}

#[test]
fn set_speed_keeps_the_hop_under_way() {
    let mut path = route(&[(1, 0)]);
    let mut follower = PathFollower::default();
    let start = point(0, 0, 0);
    let target = point(1000, 0, 0);
    follow_path(&mut path, &mut follower, start, target, 250_000);
    follower.set_speed(3000);
    assert_eq!(follower.speed, 3000);
    assert_eq!(follower.progress(), 250_000_000);
    let moved = follow_path(&mut path, &mut follower, point(250, 0, 0), target, 250_000);
    assert_eq!(moved, Some(target));
}

#[test]
fn largest_step_does_not_overflow() {
    let mut path = route(&[(1, 0)]);
    let mut follower = PathFollower::with_speed(u32::MAX);
    let target = point(1000, 0, 0);
    let moved = follow_path(&mut path, &mut follower, point(0, 0, 0), target, u32::MAX);
    assert_eq!(moved, Some(target));
}
