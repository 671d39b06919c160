use starsurge::grid::{is_blocked, neighbor, open_neighbors};
use starsurge::Position;

#[test]
fn new_position_holds_its_coordinates() {
    let p = Position::new(1, -2, 3);
    assert_eq!((p.x, p.y, p.layer), (1, -2, 3));
}

#[test]
fn zero_is_the_centre_of_the_ground_layer() {
    assert_eq!(Position::zero(), Position::new(0, 0, 0));
    assert_eq!(Position::default(), Position::zero());
}

#[test]
fn distance_squared_sums_the_squares() {
    assert_eq!(Position::new(0, 0, 0).distance_squared(&Position::new(3, 4, 0)), 25);
    assert_eq!(Position::new(1, 2, 3).distance_squared(&Position::new(4, 6, 15)), 169);
    assert_eq!(Position::new(-5, 7, 1).distance_squared(&Position::new(-5, 7, 1)), 0);
    assert_eq!(Position::new(2, 0, 0).distance_squared(&Position::new(-1, 0, 0)), 9);
}

#[test]
fn distance_squared_reaches_its_limit() {
    let far = Position::new(46340, 0, 0);
    assert_eq!(Position::new(0, 0, 0).distance_squared(&far), 2_147_395_600);
}

#[test]
fn wide_distance_squared_agrees_with_the_narrow_one() {
    let a = Position::new(-3, 9, 2);
    let b = Position::new(4, -1, 0);
    assert_eq!(a.wide_distance_squared(&b), 49 + 100 + 4);
    assert_eq!(a.wide_distance_squared(&b), a.distance_squared(&b) as u128);
}

#[test]
fn wide_distance_squared_holds_the_widest_distance() {
    let a = Position::new(i32::MIN, i32::MIN, i32::MIN);
    let b = Position::new(i32::MAX, i32::MAX, i32::MAX);
    let side: u128 = 0xffff_ffff;
    assert_eq!(a.wide_distance_squared(&b), 3 * side * side);
    assert_eq!(b.wide_distance_squared(&a), 3 * side * side);
}

#[test]
fn neighbours_come_by_x_then_y() {
    let around = open_neighbors(&vec![], Position::new(10, 20, 2));
    let expected: Vec<Position> = vec![
        Position::new(9, 19, 2),
        Position::new(9, 20, 2),
        Position::new(9, 21, 2),
        Position::new(10, 19, 2),
        Position::new(10, 21, 2),
        Position::new(11, 19, 2),
        Position::new(11, 20, 2),
        Position::new(11, 21, 2),
    ];
    assert_eq!(around, expected);
}

#[test]
fn blocking_neighbours_are_left_out() {
    let blocks = vec![Position::new(1, 1, 0), Position::new(-1, 0, 0), Position::new(0, 1, 5)];
    let around = open_neighbors(&blocks, Position::new(0, 0, 0));
    let expected: Vec<Position> = vec![
        Position::new(-1, -1, 0),
        Position::new(-1, 1, 0),
        Position::new(0, -1, 0),
        Position::new(0, 1, 0),
        Position::new(1, -1, 0),
        Position::new(1, 0, 0),
    ];
    assert_eq!(around, expected);
}

#[test]
fn centre_is_no_neighbour() {
    assert_eq!(neighbor(Position::new(3, 3, 0), 4), None);
    assert_eq!(neighbor(Position::new(3, 3, 0), 9), None);
    assert_eq!(neighbor(Position::new(3, 3, 0), 0), Some(Position::new(2, 2, 0)));
    assert_eq!(neighbor(Position::new(3, 3, 0), 5), Some(Position::new(3, 4, 0)));
    assert_eq!(neighbor(Position::new(3, 3, 0), 8), Some(Position::new(4, 4, 0)));
}

#[test]
fn grid_ends_where_the_coordinates_end() {
    let corner = Position::new(i32::MAX, i32::MIN, 0);
    assert_eq!(neighbor(corner, 7), None);
    assert_eq!(neighbor(corner, 0), None);
    assert_eq!(neighbor(corner, 1), Some(Position::new(i32::MAX - 1, i32::MIN, 0)));
    let around = open_neighbors(&vec![], corner);
    let expected: Vec<Position> = vec![
        Position::new(i32::MAX - 1, i32::MIN, 0),
        Position::new(i32::MAX - 1, i32::MIN + 1, 0),
        Position::new(i32::MAX, i32::MIN + 1, 0),
    ];
    assert_eq!(around, expected);
}

#[test]
fn blocks_are_found_by_cell_and_layer() {
    let blocks = vec![Position::new(1, 2, 0), Position::new(3, 4, 1)];
    assert!(is_blocked(&blocks, Position::new(1, 2, 0)));
    assert!(is_blocked(&blocks, Position::new(3, 4, 1)));
    assert!(!is_blocked(&blocks, Position::new(3, 4, 0)));
    assert!(!is_blocked(&vec![], Position::new(0, 0, 0)));
}
