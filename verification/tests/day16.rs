use advent::y2024::day16::best::{all_minimum_cost_positions, shortest_cost};
use advent::y2024::day16::grid::{next_space, Cell, Direction, Grid, Position, SearchState};
use advent::y2024::day16::{count_visited_paths, find_lowest_score, parse_maze, Day16};
use advent::{AdventError, AdventProblem};

fn chars(lines: &[&str]) -> Vec<Vec<char>> {
    lines.iter().map(|s| s.chars().collect()).collect()
}

fn open_grid(rows: usize, cols: usize) -> Grid {
    match Grid::new(vec![vec![Cell::Open; cols]; rows]) {
        Ok(g) => g,
        Err(_) => panic!("a rectangle of open cells is a grid"),
    }
}

const SMALL: [&str; 7] = [
    "###############",
    "#.......#....E#",
    "#.#.###.#.###.#",
    "#.....#.#...#.#",
    "###.#.#.#.###.#",
    "#S..#.....#...#",
    "###############",
];

const LARGE: [&str; 15] = [
    "###############",
    "#.......#....E#",
    "#.#.###.#.###.#",
    "#.....#.....#.#",
    "#.###.#####.#.#",
    "#.#.#.......#.#",
    "#.#.#####.###.#",
    "#...........#.#",
    "###.#.#####.#.#",
    "#...#.....#.#.#",
    "#.#.#.###.#.#.#",
    "#.....#...#.#.#",
    "#.###.#.#.#.#.#",
    "#S..#.....#...#",
    "###############",
];

#[test]
fn small_maze_lowest_score() {
    assert_eq!(6020, find_lowest_score(&chars(&SMALL)).unwrap());
}

#[test]
fn small_maze_visited_cells() {
    assert_eq!(21, count_visited_paths(&chars(&SMALL)).unwrap());
}

#[test]
fn large_maze_lowest_score() {
    assert_eq!(7036, find_lowest_score(&chars(&LARGE)).unwrap());
}

#[test]
fn large_maze_visited_cells() {
    assert_eq!(45, count_visited_paths(&chars(&LARGE)).unwrap());
}

#[test]
fn empty_three_by_three() {
    let grid = open_grid(3, 3);
    let start = SearchState { position: Position { row: 0, col: 0 }, direction: Direction::Right };
    let goal = Position { row: 2, col: 2 };
    // Four steps and one quarter turn.
    assert_eq!(1004, shortest_cost(&grid, start, goal, 1000));
    assert_eq!(4, shortest_cost(&grid, start, goal, 0));
    assert_eq!(5, shortest_cost(&grid, start, goal, 1));
}

#[test]
fn straight_line_costs_the_distance() {
    let grid = open_grid(1, 6);
    let goal = Position { row: 0, col: 5 };
    let at = Position { row: 0, col: 1 };
    let facing = |direction| SearchState { position: at, direction };
    assert_eq!(4, shortest_cost(&grid, facing(Direction::Right), goal, 1000));
    assert_eq!(1004, shortest_cost(&grid, facing(Direction::Up), goal, 1000));
    assert_eq!(1004, shortest_cost(&grid, facing(Direction::Down), goal, 1000));
    assert_eq!(2004, shortest_cost(&grid, facing(Direction::Left), goal, 1000));
}

#[test]
fn start_on_goal_costs_nothing() {
    let grid = open_grid(2, 2);
    let at = Position { row: 1, col: 1 };
    let start = SearchState { position: at, direction: Direction::Up };
    assert_eq!(0, shortest_cost(&grid, start, at, 1000));
    assert_eq!(vec![at], all_minimum_cost_positions(&grid, start, at, 1000));
}

#[test]
fn walled_off_goal_is_unreachable() {
    let lines = ["S#E"];
    assert_eq!(u32::MAX, find_lowest_score(&chars(&lines)).unwrap());
    assert_eq!(0, count_visited_paths(&chars(&lines)).unwrap());
}

#[test]
fn positions_outside_the_grid_are_unreachable() {
    let grid = open_grid(2, 2);
    let inside = Position { row: 0, col: 0 };
    let outside = Position { row: 5, col: 0 };
    let start = SearchState { position: inside, direction: Direction::Right };
    assert_eq!(u32::MAX, shortest_cost(&grid, start, outside, 1000));
    let lost = SearchState { position: outside, direction: Direction::Right };
    assert_eq!(u32::MAX, shortest_cost(&grid, lost, inside, 1000));
    assert!(all_minimum_cost_positions(&grid, lost, inside, 1000).is_empty());
}

#[test]
fn shortest_cost_is_repeatable() {
    let maze = parse_maze(&chars(&LARGE)).unwrap();
    let start = SearchState { position: maze.start, direction: Direction::Right };
    let first = shortest_cost(&maze.grid, start, maze.goal, 1000);
    let second = shortest_cost(&maze.grid, start, maze.goal, 1000);
    assert_eq!(first, second);
}

#[test]
fn best_positions_hold_start_and_goal() {
    let maze = parse_maze(&chars(&LARGE)).unwrap();
    let start = SearchState { position: maze.start, direction: Direction::Right };
    let positions = all_minimum_cost_positions(&maze.grid, start, maze.goal, 1000);
    assert!(positions.contains(&maze.start));
    assert!(positions.contains(&maze.goal));
    assert_eq!(Position { row: 13, col: 1 }, maze.start);
    assert_eq!(Position { row: 1, col: 13 }, maze.goal);
}

#[test]
fn all_equally_cheap_routes_count() {
    let grid = open_grid(3, 3);
    let start = SearchState { position: Position { row: 0, col: 0 }, direction: Direction::Right };
    let goal = Position { row: 2, col: 2 };
    // With the turn for free every cell lies on some cheapest route.
    assert_eq!(9, all_minimum_cost_positions(&grid, start, goal, 0).len());
    // With a dear turn only the route along the top and down the side is left.
    let expected: Vec<Position> = [(0, 0), (0, 1), (0, 2), (1, 2), (2, 2)]
        .iter()
        .map(|&(row, col)| Position { row, col })
        .collect();
    assert_eq!(expected, all_minimum_cost_positions(&grid, start, goal, 1000));
}

#[test]
fn malformed_mazes_are_refused() {
    let ragged = ["S..", "..", "..E"];
    assert!(matches!(find_lowest_score(&chars(&ragged)), Err(AdventError::InputParseError(_))));
    let no_goal = ["S..", "..."];
    assert!(matches!(find_lowest_score(&chars(&no_goal)), Err(AdventError::InputParseError(_))));
    let no_start = ["...", "..E"];
    assert!(matches!(count_visited_paths(&chars(&no_start)), Err(AdventError::InputParseError(_))));
    let empty: [&str; 0] = [];
    assert!(matches!(find_lowest_score(&chars(&empty)), Err(AdventError::InputParseError(_))));
    assert!(Grid::new(vec![vec![Cell::Open], vec![]]).is_err());
}

#[test]
fn day16_runs_both_parts() {
    let lines: Vec<String> = SMALL.iter().map(|s| s.to_string()).collect();
    assert_eq!(6020, Day16.run(lines.clone(), 1).unwrap());
    assert_eq!(21, Day16.run(lines, 2).unwrap());
}

#[test]
fn next_space_stays_inside() {
    let at = Position { row: 0, col: 2 };
    assert_eq!(None, next_space(at, (3, 3), Direction::Up));
    assert_eq!(None, next_space(at, (3, 3), Direction::Right));
    assert_eq!(Some(Position { row: 1, col: 2 }), next_space(at, (3, 3), Direction::Down));
    assert_eq!(Some(Position { row: 0, col: 1 }), next_space(at, (3, 3), Direction::Left));
}

#[test]
fn rotations_are_quarter_turns() {
    assert_eq!(Direction::Right, Direction::Up.rotate_clockwise());
    assert_eq!(Direction::Down, Direction::Right.rotate_clockwise());
    assert_eq!(Direction::Left, Direction::Down.rotate_clockwise());
    assert_eq!(Direction::Up, Direction::Left.rotate_clockwise());
    assert_eq!(Direction::Left, Direction::Up.rotate_counterclockwise());
    assert_eq!(Direction::Up, Direction::Right.rotate_counterclockwise());
}
