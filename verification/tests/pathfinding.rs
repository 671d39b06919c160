use starsurge::ai::{a_star, resolve_target};
use starsurge::search::{search, MAX_A_STAR_ITERATIONS};
use starsurge::{Path, PathBuilder, Position};

fn at(x: i32, y: i32) -> Position {
    Position::new(x, y, 0)
}

fn cells(path: &Path) -> Vec<(i32, i32)> {
    path.0.iter().map(|p| (p.x, p.y)).collect()
}

fn touching(a: &Position, b: &Position) -> bool {
    let dx = (a.x - b.x).abs();
    let dy = (a.y - b.y).abs();
    a.layer == b.layer && dx.max(dy) == 1
}

fn assert_walkable(start: Position, path: &Path, blocks: &Vec<Position>) {
    let mut from = start;
    for cell in path.0.iter() {
        assert!(touching(&from, cell), "{:?} and {:?} do not touch", from, cell);
        assert!(!blocks.contains(cell), "{:?} blocks", cell);
        assert_eq!(cell.layer, start.layer);
        from = *cell;
    }
}

#[test]
fn diagonal_route_on_open_ground() {
    let path = search(at(0, 0), at(3, 3), &vec![]).unwrap();
    assert_eq!(cells(&path), vec![(1, 1), (2, 2), (3, 3)]);
}

#[test]
fn straight_route_on_open_ground() {
    let path = search(at(0, 0), at(4, 0), &vec![]).unwrap();
    assert_eq!(cells(&path), vec![(1, 0), (2, 0), (3, 0), (4, 0)]);
    let path = search(at(2, 5), at(2, 2), &vec![]).unwrap();
    assert_eq!(cells(&path), vec![(2, 4), (2, 3), (2, 2)]);
}

#[test]
fn route_on_open_ground_goes_diagonal_first() {
    let path = search(at(0, 0), at(5, -2), &vec![]).unwrap();
    assert_eq!(cells(&path), vec![(1, -1), (2, -2), (3, -2), (4, -2), (5, -2)]);
}

#[test]
fn route_on_open_ground_keeps_its_layer() {
    let start = Position::new(-1, -1, 7);
    let path = search(start, Position::new(1, -3, 7), &vec![]).unwrap();
    let on_layer: Vec<Position> = path.0.iter().copied().collect();
    assert_eq!(on_layer, vec![Position::new(0, -2, 7), Position::new(1, -3, 7)]);
}

#[test]
fn route_to_the_start_is_empty() {
    let path = search(at(4, 4), at(4, 4), &vec![]).unwrap();
    assert!(path.0.is_empty());
}

#[test]
fn request_between_layers_gets_no_route() {
    let request = PathBuilder { target: Position::new(1, 1, 1) };
    assert!(a_star(at(0, 0), request, &vec![]).is_none());
    let request = PathBuilder { target: Position::new(0, 0, -1) };
    assert!(a_star(at(0, 0), request, &vec![]).is_none());
}

#[test]
fn request_on_open_ground_is_served() {
    let request = PathBuilder { target: at(3, 3) };
    let path = a_star(at(0, 0), request, &vec![]).unwrap();
    assert_eq!(cells(&path), vec![(1, 1), (2, 2), (3, 3)]);
}

#[test]
fn default_request_asks_for_the_centre() {
    assert_eq!(PathBuilder::default().target, Position::new(0, 0, 0));
}

#[test]
fn free_target_resolves_to_itself() {
    let blocks = vec![at(2, 2)];
    assert_eq!(resolve_target(&blocks, at(0, 0), at(3, 3)), Some(at(3, 3)));
}

#[test]
fn blocked_target_resolves_to_nearest_free_neighbour() {
    let blocks = vec![at(3, 3)];
    assert_eq!(resolve_target(&blocks, at(0, 0), at(3, 3)), Some(at(2, 2)));
    let blocks = vec![at(3, 0)];
    assert_eq!(resolve_target(&blocks, at(0, 0), at(3, 0)), Some(at(2, 0)));
}

#[test]
fn blocked_target_skips_blocked_neighbours() {
    let blocks = vec![at(3, 3), at(2, 2)];
    // (2, 3) and (3, 2) are equally near; (2, 3) comes first in the scan.
    assert_eq!(resolve_target(&blocks, at(0, 0), at(3, 3)), Some(at(2, 3)));
}

#[test]
fn equally_near_neighbours_resolve_by_x_then_y() {
    let blocks = vec![at(0, 2), at(0, 1)];
    assert_eq!(resolve_target(&blocks, at(0, 0), at(0, 2)), Some(at(-1, 1)));
    let blocks = vec![at(2, 0), at(1, 0)];
    assert_eq!(resolve_target(&blocks, at(0, 0), at(2, 0)), Some(at(1, -1)));
}

#[test]
fn target_walled_in_resolves_to_nothing() {
    let mut blocks = vec![];
    for x in 4..7 {
        for y in 4..7 {
            blocks.push(at(x, y));
        }
    }
    assert_eq!(resolve_target(&blocks, at(0, 0), at(5, 5)), None);
    let request = PathBuilder { target: at(5, 5) };
    assert!(a_star(at(0, 0), request, &blocks).is_none());
}

#[test]
fn route_to_blocked_target_ends_next_to_it() {
    let blocks = vec![at(3, 3)];
    let request = PathBuilder { target: at(3, 3) };
    let path = a_star(at(0, 0), request, &blocks).unwrap();
    assert_eq!(cells(&path), vec![(1, 1), (2, 2)]);
}

#[test]
fn route_leads_around_a_wall() {
    let blocks: Vec<Position> = (-3..=3).map(|y| at(2, y)).collect();
    let start = at(0, 0);
    let target = at(4, 0);
    let path = search(start, target, &blocks).unwrap();
    assert_walkable(start, &path, &blocks);
    assert_eq!(path.0.back(), Some(&target));
    assert!(path.0.len() >= 8);
}

#[test]
fn route_leads_through_a_gap() {
    let blocks: Vec<Position> = (-20..=20).filter(|y| *y != 1).map(|y| at(2, y)).collect();
    let start = at(0, 0);
    let target = at(4, 0);
    let path = search(start, target, &blocks).unwrap();
    assert_walkable(start, &path, &blocks);
    assert_eq!(path.0.back(), Some(&target));
    assert!(path.0.contains(&at(2, 1)));
}

#[test]
fn distance_that_takes_all_rounds_but_one_is_served() {
    let target = at(MAX_A_STAR_ITERATIONS as i32 - 2, 0);
    let path = search(at(0, 0), target, &vec![]).unwrap();
    assert_eq!(path.0.len(), 98);
    assert_eq!(path.0.back(), Some(&target));
}

#[test]
fn distance_that_takes_all_rounds_is_served() {
    // The target comes up in the last round there is.
    let target = at(99, 0);
    let path = search(at(0, 0), target, &vec![]).unwrap();
    assert_eq!(path.0.len(), 99);
    assert_eq!(path.0.front(), Some(&at(1, 0)));
    assert_eq!(path.0.back(), Some(&target));
    let target = at(-99, 99);
    let path = search(at(0, 0), target, &vec![]).unwrap();
    assert_eq!(path.0.len(), 99);
    assert_eq!(path.0.back(), Some(&target));
    let request = PathBuilder { target: at(99, 0) };
    assert_eq!(a_star(at(0, 0), request, &vec![]).unwrap().0.len(), 99);
}

#[test]
fn distance_that_takes_a_round_too_many_gets_no_route() {
    assert!(search(at(0, 0), at(100, 0), &vec![]).is_none());
    assert!(search(at(0, 0), at(100, 100), &vec![]).is_none());
    assert!(search(at(0, 0), at(3, -100), &vec![]).is_none());
    assert!(search(at(0, 0), at(1000, -3), &vec![]).is_none());
}

#[test]
fn room_that_empties_in_the_last_round_gets_a_route() {
    // A corridor of 100 cells, walled in: the last cell is taken in round 100,
    // and nothing is open after it.
    let mut blocks = vec![];
    for x in -1..101 {
        blocks.push(at(x, -1));
        blocks.push(at(x, 1));
    }
    blocks.push(at(-1, 0));
    blocks.push(at(100, 0));
    let start = at(0, 0);
    let path = search(start, at(200, 0), &blocks).unwrap();
    assert_walkable(start, &path, &blocks);
    assert_eq!(path.0.len(), 99);
    assert_eq!(path.0.back(), Some(&at(99, 0)));
}

#[test]
fn room_that_needs_a_round_too_many_gets_no_route() {
    let mut blocks = vec![];
    for x in -1..102 {
        blocks.push(at(x, -1));
        blocks.push(at(x, 1));
    }
    blocks.push(at(-1, 0));
    blocks.push(at(101, 0));
    assert!(search(at(0, 0), at(200, 0), &blocks).is_none());
}

#[test]
fn detour_beyond_the_limit_gets_no_route() {
    // A wall too long to walk around within the rounds of one search.
    let blocks: Vec<Position> = (-200..=200).map(|y| at(2, y)).collect();
    assert!(search(at(0, 0), at(4, 0), &blocks).is_none());
}

#[test]
fn walled_in_start_gets_an_empty_route() {
    let mut blocks = vec![];
    for x in -1..2 {
        for y in -1..2 {
            if x != 0 || y != 0 {
                blocks.push(at(x, y));
            }
        }
    }
    let path = search(at(0, 0), at(5, 0), &blocks).unwrap();
    assert!(path.0.is_empty());
}

#[test]
fn closed_room_gets_a_route_to_the_cell_taken_last() {
    // The room holds the start and the cell east of it.
    let mut blocks = vec![];
    for x in -1..3 {
        for y in -1..2 {
            if !(y == 0 && (x == 0 || x == 1)) {
                blocks.push(at(x, y));
            }
        }
    }
    let path = search(at(0, 0), at(5, 0), &blocks).unwrap();
    assert_eq!(cells(&path), vec![(1, 0)]);
}

#[test]
fn same_request_gets_the_same_route() {
    let blocks: Vec<Position> = (-3..=3).map(|y| at(2, y)).collect();
    let request = PathBuilder { target: at(4, 1) };
    let first = a_star(at(0, 0), request, &blocks).unwrap();
    let request = PathBuilder { target: at(4, 1) };
    let second = a_star(at(0, 0), request, &blocks).unwrap();
    assert_eq!(cells(&first), cells(&second));
}

#[test]
fn request_for_the_resolved_target_gets_the_same_route() {
    let blocks = vec![at(3, 3), at(2, 2)];
    let start = at(0, 0);
    let first = a_star(start, PathBuilder { target: at(3, 3) }, &blocks).unwrap();
    let resolved = resolve_target(&blocks, start, at(3, 3)).unwrap();
    assert_eq!(resolve_target(&blocks, start, resolved), Some(resolved));
    let second = a_star(start, PathBuilder { target: resolved }, &blocks).unwrap();
    assert_eq!(cells(&first), cells(&second));
    assert_eq!(first.0.back(), Some(&resolved));
}

#[test]
fn search_works_at_the_edge_of_the_grid() {
    let start = Position::new(i32::MAX, i32::MIN, 0);
    let target = Position::new(i32::MAX - 2, i32::MIN, 0);
    let path = search(start, target, &vec![]).unwrap();
    let got: Vec<Position> = path.0.iter().copied().collect();
    assert_eq!(got, vec![Position::new(i32::MAX - 1, i32::MIN, 0), target]);
}

#[test]
fn search_copes_with_the_widest_distance() {
    let start = Position::new(i32::MIN, i32::MIN, 0);
    let target = Position::new(i32::MAX, i32::MAX, 0);
    assert!(search(start, target, &vec![]).is_none());
}

fn toward(from: i32, to: i32) -> i32 {
    from + (to - from).signum()
}

#[test]
fn every_route_on_open_ground_is_the_beeline() {
    let start = Position::new(3, -4, 2);
    for dx in -9..10 {
        for dy in -9..10 {
            let target = Position::new(start.x + dx, start.y + dy, start.layer);
            let path = search(start, target, &vec![]).unwrap();
            assert_eq!(path.0.len() as i32, dx.abs().max(dy.abs()));
            let mut at = start;
            for cell in path.0.iter() {
                at = Position::new(toward(at.x, target.x), toward(at.y, target.y), at.layer);
                assert_eq!(*cell, at);
            }
            assert_eq!(at, target);
        }
    }
}

#[test]
fn cell_found_first_wins_among_equal_scores() {
    // Both ways around the block are equally good; the scan finds (1, -1) first.
    let blocks = vec![at(1, 0)];
    let path = search(at(0, 0), at(2, 0), &blocks).unwrap();
    assert_eq!(cells(&path), vec![(1, -1), (2, 0)]);
}

#[test]
fn route_out_of_a_pocket_is_walkable() {
    // Every route a search yields is walkable, whatever detours it tried.
    let blocks = vec![at(1, -1), at(1, 0), at(1, 1), at(2, 2), at(3, 2), at(3, 1), at(3, 0)];
    let start = at(0, 0);
    let target = at(2, 0);
    let path = search(start, target, &blocks).unwrap();
    assert_walkable(start, &path, &blocks);
    assert_eq!(path.0.back(), Some(&target));
}
