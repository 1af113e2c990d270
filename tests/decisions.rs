use battlesnake_logic::{
    body_contains, choose_move, end, flood_fill_count, get_move, manhattan_distance, move_safety,
    nearest_food, preferred_direction, start, Battlesnake, Board, Coord, Direction, Game,
    ReachMap, SafetyMap,
};

fn c(x: i32, y: i32) -> Coord {
    Coord { x, y }
}

fn snake(id: &str, body: Vec<Coord>) -> Battlesnake {
    let head = body[0];
    let length = body.len() as i32;
    Battlesnake {
        id: id.to_string(),
        name: id.to_string(),
        health: 100,
        body,
        head,
        length,
        latency: "0".to_string(),
        shout: None,
    }
}

fn board(width: i32, height: i32, food: Vec<Coord>, snakes: Vec<Battlesnake>) -> Board {
    Board { height, width, food, snakes, hazards: vec![] }
}

fn game() -> Game {
    Game { id: "g".to_string(), timeout: 500 }
}

fn all_safe(m: &SafetyMap) -> [bool; 4] {
    [m.up, m.down, m.left, m.right]
}

#[test]
fn empty_cell_queries() {
    let b = board(5, 5, vec![c(2, 2)], vec![snake("a", vec![c(1, 1), c(1, 2), c(1, 2)])]);
    assert!(!b.is_empty(&c(1, 1)));
    assert!(!b.is_empty(&c(1, 2)));
    assert!(b.is_empty(&c(2, 2)));
    assert!(b.is_empty(&c(4, 4)));
    assert!(!b.is_empty(&c(-1, 0)));
    assert!(!b.is_empty(&c(5, 0)));
    assert!(!b.is_empty(&c(0, -1)));
    assert!(!b.is_empty(&c(0, 5)));
}

#[test]
fn body_lookup() {
    let body = vec![c(0, 0), c(0, 1)];
    assert!(body_contains(&body, &c(0, 1)));
    assert!(!body_contains(&body, &c(1, 1)));
    assert!(!body_contains(&vec![], &c(0, 0)));
}

#[test]
fn neighbors_and_moves() {
    let n = c(3, 4).neighbors();
    assert_eq!(n, [c(3, 5), c(3, 3), c(4, 4), c(2, 4)]);
    assert_eq!(c(3, 4).moved(Direction::Up), c(3, 5));
    assert_eq!(c(3, 4).moved(Direction::Down), c(3, 3));
    assert_eq!(c(3, 4).moved(Direction::Left), c(2, 4));
    assert_eq!(c(3, 4).moved(Direction::Right), c(4, 4));
}

#[test]
fn direction_names() {
    assert_eq!(Direction::Up.as_str(), "up");
    assert_eq!(Direction::Down.as_str(), "down");
    assert_eq!(Direction::Left.as_str(), "left");
    assert_eq!(Direction::Right.as_str(), "right");
}

#[test]
fn safety_at_corner() {
    let me = snake("me", vec![c(0, 0), c(1, 0)]);
    let b = board(3, 3, vec![], vec![snake("me", vec![c(0, 0), c(1, 0)])]);
    let m = move_safety(&b, &me);
    assert_eq!(all_safe(&m), [true, false, false, false]);
    assert!(m.get(Direction::Up));
    assert!(!m.get(Direction::Right));
    assert!(m.any_safe());
}

#[test]
fn safety_blocks_opponents() {
    let me = snake("me", vec![c(2, 2)]);
    let other = snake("other", vec![c(2, 3), c(3, 3), c(3, 2)]);
    let b = board(5, 5, vec![], vec![snake("me", vec![c(2, 2)]), other]);
    let m = move_safety(&b, &me);
    assert_eq!(all_safe(&m), [false, true, true, false]);
}

#[test]
fn safety_on_one_wide_board() {
    let me = snake("me", vec![c(0, 1)]);
    let b = board(1, 3, vec![], vec![snake("me", vec![c(0, 1)])]);
    let m = move_safety(&b, &me);
    assert_eq!(all_safe(&m), [true, true, false, false]);
}

#[test]
fn open_board_fill_counts_every_cell() {
    let b = board(7, 5, vec![], vec![]);
    assert_eq!(flood_fill_count(&b, &c(3, 2)), 35);
    assert_eq!(flood_fill_count(&b, &c(0, 0)), 35);
    assert_eq!(flood_fill_count(&b, &c(6, 4)), 35);
}

#[test]
fn fill_is_repeatable() {
    let b = board(6, 6, vec![], vec![snake("w", vec![c(2, 0), c(2, 1), c(2, 2), c(2, 3), c(2, 4), c(2, 5)])]);
    let first = flood_fill_count(&b, &c(0, 0));
    let second = flood_fill_count(&b, &c(0, 0));
    assert_eq!(first, 12);
    assert_eq!(first, second);
    assert_eq!(flood_fill_count(&b, &c(5, 5)), 18);
}

#[test]
fn fill_from_outside_start_counts_start() {
    let b = board(3, 3, vec![], vec![]);
    assert_eq!(flood_fill_count(&b, &c(-1, 1)), 10);
    assert_eq!(flood_fill_count(&b, &c(-5, -5)), 1);
}

#[test]
fn distance_is_manhattan() {
    assert_eq!(manhattan_distance(&c(1, 2), &c(4, -2)), 7);
    assert_eq!(manhattan_distance(&c(i32::MIN, i32::MAX), &c(i32::MAX, i32::MIN)), 2 * (u32::MAX as i64));
}

#[test]
fn nearest_food_takes_first_of_equals() {
    let head = c(5, 5);
    assert_eq!(nearest_food(&head, &vec![]), None);
    assert_eq!(nearest_food(&head, &vec![c(0, 0), c(5, 7), c(7, 5), c(5, 6)]), Some(3));
    assert_eq!(nearest_food(&head, &vec![c(5, 7), c(7, 5)]), Some(0));
}

#[test]
fn food_preference() {
    let head = c(5, 5);
    assert_eq!(preferred_direction(&head, &vec![c(5, 8)]), Direction::Up);
    assert_eq!(preferred_direction(&head, &vec![c(5, 1)]), Direction::Down);
    assert_eq!(preferred_direction(&head, &vec![c(2, 9)]), Direction::Left);
    assert_eq!(preferred_direction(&head, &vec![c(9, 0)]), Direction::Right);
    assert_eq!(preferred_direction(&head, &vec![c(5, 5)]), Direction::Left);
    assert_eq!(preferred_direction(&head, &vec![]), Direction::Left);
}

#[test]
fn choice_among_counts() {
    let safe = SafetyMap { up: true, down: false, left: true, right: true };
    let counts = ReachMap { up: 4, down: 99, left: 9, right: 9 };
    assert_eq!(choose_move(&safe, &counts, Direction::Right), Direction::Right);
    assert_eq!(choose_move(&safe, &counts, Direction::Down), Direction::Left);
    assert_eq!(choose_move(&safe, &counts, Direction::Up), Direction::Left);
    let none = SafetyMap { up: false, down: false, left: false, right: false };
    assert_eq!(choose_move(&none, &counts, Direction::Left), Direction::Up);
    assert_eq!(counts.get(Direction::Down), 99);
}

#[test]
fn one_by_one_board_falls_back_to_up() {
    let me = snake("me", vec![c(0, 0)]);
    let b = board(1, 1, vec![], vec![snake("me", vec![c(0, 0)])]);
    let m = move_safety(&b, &me);
    assert_eq!(all_safe(&m), [false, false, false, false]);
    assert!(!m.any_safe());
    assert_eq!(get_move(&game(), &0, &b, &me), Direction::Up);
}

#[test]
fn open_board_goes_to_food_above() {
    let me = snake("me", vec![c(5, 5)]);
    let b = board(11, 11, vec![c(5, 8)], vec![snake("me", vec![c(5, 5)])]);
    assert_eq!(preferred_direction(&c(5, 5), &b.food), Direction::Up);
    assert_eq!(all_safe(&move_safety(&b, &me)), [true, true, true, true]);
    for n in c(5, 5).neighbors().iter() {
        assert_eq!(flood_fill_count(&b, n), 120);
    }
    assert_eq!(get_move(&game(), &1, &b, &me), Direction::Up);
}

#[test]
fn large_space_beats_food_in_pocket() {
    let body = vec![c(2, 5), c(2, 4), c(2, 3)];
    let me = snake("me", body.clone());
    let wall = snake("wall", vec![c(0, 4), c(1, 4), c(1, 6), c(0, 6)]);
    let b = board(11, 11, vec![c(0, 5)], vec![snake("me", body), wall]);
    assert_eq!(preferred_direction(&c(2, 5), &b.food), Direction::Left);
    assert_eq!(all_safe(&move_safety(&b, &me)), [true, false, true, true]);
    assert_eq!(flood_fill_count(&b, &c(1, 5)), 2);
    assert_eq!(flood_fill_count(&b, &c(2, 6)), 112);
    assert_eq!(flood_fill_count(&b, &c(3, 5)), 112);
    assert_eq!(get_move(&game(), &2, &b, &me), Direction::Up);
}

#[test]
fn no_food_prefers_left() {
    let me = snake("me", vec![c(5, 5)]);
    let b = board(11, 11, vec![], vec![snake("me", vec![c(5, 5)])]);
    assert_eq!(get_move(&game(), &3, &b, &me), Direction::Left);
}

#[test]
fn no_food_and_left_blocked_takes_first_best() {
    let me = snake("me", vec![c(0, 5), c(0, 4)]);
    let b = board(11, 11, vec![], vec![snake("me", vec![c(0, 5), c(0, 4)])]);
    assert_eq!(get_move(&game(), &4, &b, &me), Direction::Up);
}

#[test]
fn food_to_the_right_when_tied() {
    let me = snake("me", vec![c(5, 5)]);
    let b = board(11, 11, vec![c(8, 5), c(0, 0)], vec![snake("me", vec![c(5, 5)])]);
    assert_eq!(get_move(&game(), &5, &b, &me), Direction::Right);
}

#[test]
fn lifecycle_hooks_run() {
    let me = snake("me", vec![c(1, 1)]);
    let b = board(3, 3, vec![], vec![snake("me", vec![c(1, 1)])]);
    start(&game(), &0, &b, &me);
    end(&game(), &9, &b, &me);
    assert_eq!(get_move(&game(), &1, &b, &me), Direction::Left);
}
