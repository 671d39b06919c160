use starsurge::{Agent, PathFollower, Position, WorldPoint};

fn at(x: i32, y: i32) -> Position {
    Position::new(x, y, 0)
}

fn world(cell: &Position) -> WorldPoint {
    WorldPoint::new(cell.x as i64 * 1000 + 500, 0, cell.y as i64 * 1000 + 500)
}

fn route_of(agent: &Agent) -> Option<Vec<(i32, i32)>> {
    agent.path.as_ref().map(|path| path.0.iter().map(|p| (p.x, p.y)).collect())
}

#[test]
fn new_agent_carries_nothing() {
    let agent = Agent::new();
    assert!(agent.request.is_none());
    assert!(agent.path.is_none());
    assert!(agent.follower.is_none());
}

#[test]
fn served_request_attaches_a_route_and_is_gone() {
    let mut agent = Agent::new();
    agent.request_path(at(3, 3));
    assert_eq!(agent.request.as_ref().map(|r| r.target), Some(at(3, 3)));
    agent.serve_request(at(0, 0), &vec![]);
    assert!(agent.request.is_none());
    assert_eq!(route_of(&agent), Some(vec![(1, 1), (2, 2), (3, 3)]));
}

#[test]
fn request_between_layers_is_gone_without_a_route() {
    let mut agent = Agent::new();
    agent.request_path(Position::new(3, 3, 1));
    agent.serve_request(at(0, 0), &vec![]);
    assert!(agent.request.is_none());
    assert!(agent.path.is_none());
}

#[test]
fn request_beyond_the_limit_is_gone_without_a_route() {
    let mut agent = Agent::new();
    agent.request_path(at(150, 0));
    agent.serve_request(at(0, 0), &vec![]);
    assert!(agent.request.is_none());
    assert!(agent.path.is_none());
}

#[test]
fn failed_request_leaves_the_old_route() {
    let mut agent = Agent::new();
    agent.request_path(at(2, 0));
    agent.serve_request(at(0, 0), &vec![]);
    agent.request_path(Position::new(2, 0, 9));
    agent.serve_request(at(0, 0), &vec![]);
    assert!(agent.request.is_none());
    assert_eq!(route_of(&agent), Some(vec![(1, 0), (2, 0)]));
}

#[test]
fn new_route_replaces_the_old_one() {
    let mut agent = Agent::new();
    agent.request_path(at(2, 0));
    agent.serve_request(at(0, 0), &vec![]);
    agent.request_path(at(0, -2));
    agent.serve_request(at(0, 0), &vec![]);
    assert_eq!(route_of(&agent), Some(vec![(0, -1), (0, -2)]));
}

#[test]
fn search_pass_without_a_request_changes_nothing() {
    let mut agent = Agent::new();
    agent.serve_request(at(0, 0), &vec![]);
    assert!(agent.path.is_none());
    agent.request_path(at(1, 1));
    agent.serve_request(at(0, 0), &vec![]);
    agent.serve_request(at(5, 5), &vec![]);
    assert_eq!(route_of(&agent), Some(vec![(1, 1)]));
}

#[test]
fn agent_without_a_follower_is_not_moved() {
    let mut agent = Agent::new();
    agent.request_path(at(1, 0));
    agent.serve_request(at(0, 0), &vec![]);
    let here = world(&at(0, 0));
    assert_eq!(agent.advance(here, world(&at(1, 0)), 1_000_000), None);
    assert_eq!(route_of(&agent), Some(vec![(1, 0)]));
}

#[test]
fn agent_without_a_route_is_not_moved() {
    let mut agent = Agent::new();
    agent.follower = Some(PathFollower::default());
    let here = world(&at(0, 0));
    assert_eq!(agent.advance(here, world(&at(1, 0)), 1_000_000), None);
    assert!(agent.follower.is_some());
    assert!(agent.path.is_none());
}

#[test]
fn route_is_walked_and_then_taken_away() {
    let mut agent = Agent::new();
    agent.follower = Some(PathFollower::default());
    agent.request_path(at(3, 3));
    agent.serve_request(at(0, 0), &vec![]);
    let mut position = world(&at(0, 0));
    for left in [2, 1, 0] {
        let next = *agent.path.as_ref().unwrap().0.front().unwrap();
        position = agent.advance(position, world(&next), 1_000_000).unwrap();
        assert_eq!(position, world(&next));
        if left > 0 {
            assert_eq!(agent.path.as_ref().unwrap().0.len(), left);
        }
    }
    // The tick that takes the last hop takes the route away.
    assert!(agent.path.is_none());
    assert!(agent.follower.is_some());
    assert_eq!(position, world(&at(3, 3)));
    assert_eq!(agent.advance(position, position, 1_000_000), None);
    assert!(agent.path.is_none());
}

#[test]
fn route_of_one_is_gone_after_one_whole_hop() {
    let mut agent = Agent::new();
    agent.follower = Some(PathFollower::default());
    agent.request_path(at(1, 0));
    agent.serve_request(at(0, 0), &vec![]);
    let target = world(&at(1, 0));
    assert_eq!(agent.advance(world(&at(0, 0)), target, 1_000_000), Some(target));
    assert!(agent.path.is_none());
    assert_eq!(agent.follower.as_ref().unwrap().progress(), 0);
    assert_eq!(agent.follower.as_ref().unwrap().start_position(), Some(target));
}

#[test]
fn route_without_a_cell_is_taken_away() {
    let mut agent = Agent::new();
    agent.follower = Some(PathFollower::default());
    agent.request_path(at(0, 0));
    agent.serve_request(at(0, 0), &vec![]);
    assert_eq!(route_of(&agent), Some(vec![]));
    let here = world(&at(0, 0));
    assert_eq!(agent.advance(here, here, 1_000_000), None);
    assert!(agent.path.is_none());
    assert!(agent.follower.is_some());
}

#[test]
fn slow_agent_needs_several_ticks_for_a_hop() {
    let mut agent = Agent::new();
    agent.follower = Some(PathFollower::with_speed(500));
    agent.request_path(at(1, 0));
    agent.serve_request(at(0, 0), &vec![]);
    let target = world(&at(1, 0));
    let first = agent.advance(world(&at(0, 0)), target, 1_000_000).unwrap();
    assert_eq!(first, WorldPoint::new(1000, 0, 500));
    assert_eq!(route_of(&agent), Some(vec![(1, 0)]));
    let second = agent.advance(first, target, 1_000_000).unwrap();
    assert_eq!(second, target);
    assert!(agent.path.is_none());
}
