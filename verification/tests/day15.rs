use advent::y2024::day15::grid::{Direction, Grid, Space};
use advent::y2024::day15::{
    gps_total, parse_directions, parse_grid, parse_wide_grid, run_warehouse, Day15,
};
use advent::{AdventError, AdventProblem};

fn chars(lines: &[&str]) -> Vec<Vec<char>> {
    lines.iter().map(|s| s.chars().collect()).collect()
}

fn drawn(grid: &Grid) -> Vec<String> {
    let mut actual = Vec::new();
    for row in grid.spaces.iter() {
        let mut line = String::new();
        for space in row {
            line.push(space.as_char());
        }
        actual.push(line);
    }
    actual
}

fn narrow(lines: &[&str]) -> Grid {
    parse_grid(&chars(lines)).unwrap().0
}

/// A plan of narrow boxes as it is written, with `O` for a box.
fn written(grid: &Grid) -> Vec<String> {
    drawn(grid).iter().map(|line| line.replace('[', "O")).collect()
}

#[test]
fn test_push_box_left() {
    let lines = vec![
        "#######", "#...#.#", "#.....#", "#..OO@#", "#..O..#", "#.....#", "#######",
    ];

    let (mut grid, _) = parse_wide_grid(&chars(&lines)).unwrap();
    grid.move_robot_2(Direction::Left);

    let expected = vec![
        "##############",
        "##......##..##",
        "##..........##",
        "##...[][]@..##",
        "##....[]....##",
        "##..........##",
        "##############",
    ];

    let actual = drawn(&grid);

    for (i, &expect) in expected.iter().enumerate() {
        assert_eq!(expect, actual[i]);
    }
}

#[test]
fn test_push_box_up() {
    let lines = vec![
        "#######", "#...#.#", "#.....#", "#..OO.#", "#..O..#", "#..@..#", "#######",
    ];

    let (mut grid, _) = parse_wide_grid(&chars(&lines)).unwrap();
    grid.move_robot_2(Direction::Up);

    let expected = vec![
        "##############",
        "##......##..##",
        "##....[]....##",
        "##....[][]..##",
        "##....@.....##",
        "##..........##",
        "##############",
    ];

    let actual = drawn(&grid);

    for (i, &expect) in expected.iter().enumerate() {
        assert_eq!(expect, actual[i]);
    }
}

#[test]
fn push_chain_against_wall_moves_nothing() {
    let lines = ["#######", "#.@OOO#", "#######"];
    let mut grid = narrow(&lines);
    grid.move_robot_1(Direction::Right);
    assert_eq!(vec!["#######", "#.@OOO#", "#######"], written(&grid));
    assert_eq!((1, 2), grid.robot);
}

#[test]
fn push_chain_into_room_shifts_it_by_one() {
    let lines = ["########", "#.@OOO.#", "########"];
    let mut grid = narrow(&lines);
    grid.move_robot_1(Direction::Right);
    assert_eq!(vec!["########", "#..@OOO#", "########"], written(&grid));
    assert_eq!((1, 3), grid.robot);
    // Now the chain stands against the wall.
    grid.move_robot_1(Direction::Right);
    assert_eq!(vec!["########", "#..@OOO#", "########"], written(&grid));
    assert_eq!((1, 3), grid.robot);
}

#[test]
fn push_keeps_the_number_of_boxes() {
    let lines = ["#####", "#...#", "#.O.#", "#.O.#", "#.@.#", "#####"];
    let mut grid = narrow(&lines);
    let count = |g: &Grid| g.spaces.iter().flatten().filter(|s| **s == Space::BoxLeft).count();
    assert_eq!(2, count(&grid));
    grid.move_robot_1(Direction::Up);
    assert_eq!(2, count(&grid));
    assert_eq!(vec!["#####", "#.O.#", "#.O.#", "#.@.#", "#...#", "#####"], written(&grid));
    grid.move_robot_1(Direction::Up);
    assert_eq!(2, count(&grid));
    assert_eq!(vec!["#####", "#.O.#", "#.O.#", "#.@.#", "#...#", "#####"], written(&grid));
}

#[test]
fn robot_walks_into_empty_cells_and_stops_at_walls() {
    let lines = ["####", "#@.#", "####"];
    let mut grid = narrow(&lines);
    grid.move_robot_1(Direction::Right);
    assert_eq!((1, 2), grid.robot);
    grid.move_robot_1(Direction::Right);
    assert_eq!((1, 2), grid.robot);
    grid.move_robot_1(Direction::Up);
    assert_eq!((1, 2), grid.robot);
    grid.move_robot_1(Direction::Left);
    assert_eq!(vec!["####", "#@.#", "####"], written(&grid));
}

#[test]
fn robot_stops_at_the_edge_of_the_floor() {
    let lines = ["@.", ".."];
    let mut grid = narrow(&lines);
    grid.move_robot_1(Direction::Up);
    grid.move_robot_1(Direction::Left);
    assert_eq!((0, 0), grid.robot);
    let (mut wide, _) = parse_wide_grid(&chars(&["O", "@"])).unwrap();
    wide.move_robot_2(Direction::Up);
    assert_eq!(vec!["[]", "@."], drawn(&wide));
    wide.move_robot_2(Direction::Left);
    wide.move_robot_2(Direction::Down);
    assert_eq!((1, 0), wide.robot);
}

/// A warehouse of wide boxes from a drawing of it.
fn from_drawing(lines: &[&str]) -> Grid {
    let spaces = lines
        .iter()
        .map(|line| {
            line.chars()
                .map(|c| match c {
                    '[' => Space::BoxLeft,
                    ']' => Space::BoxRight,
                    other => Space::from_char(other).unwrap(),
                })
                .collect()
        })
        .collect();
    match Grid::new(spaces) {
        Ok(grid) => grid,
        Err(_) => panic!("the drawing shows a floor with one robot"),
    }
}

#[test]
fn wide_push_is_all_or_nothing() {
    // Of the two boxes above the one before the robot, the right one
    // stands under a wall.
    let blocked = [
        "##########",
        "##....####",
        "##.[][].##",
        "##..[]..##",
        "##..@...##",
        "##########",
    ];
    let mut grid = from_drawing(&blocked);
    grid.move_robot_2(Direction::Up);
    assert_eq!(blocked.to_vec(), drawn(&grid));
    assert_eq!((4, 4), grid.robot);
    // Without the wall all three boxes go.
    let free = [
        "##########",
        "##......##",
        "##.[][].##",
        "##..[]..##",
        "##..@...##",
        "##########",
    ];
    let mut grid = from_drawing(&free);
    grid.move_robot_2(Direction::Up);
    let expected = vec![
        "##########",
        "##.[][].##",
        "##..[]..##",
        "##..@...##",
        "##......##",
        "##########",
    ];
    assert_eq!(expected, drawn(&grid));
    assert_eq!((3, 4), grid.robot);
    // Around the boxes: the second step up is blocked by the box under the
    // wall, the step to the right pushes the lowest box along its row.
    grid.move_robot_2(Direction::Left);
    grid.move_robot_2(Direction::Up);
    grid.move_robot_2(Direction::Up);
    grid.move_robot_2(Direction::Right);
    grid.move_robot_2(Direction::Down);
    let expected = vec![
        "##########",
        "##.[][].##",
        "##...[].##",
        "##..@...##",
        "##......##",
        "##########",
    ];
    assert_eq!(expected, drawn(&grid));
}

#[test]
fn wide_push_to_the_right_shifts_the_row() {
    let lines = ["#######", "#@OO..#", "#######"];
    let (mut grid, _) = parse_wide_grid(&chars(&lines)).unwrap();
    grid.move_robot_2(Direction::Right);
    assert_eq!("##.@[][]....##", drawn(&grid)[1]);
    grid.move_robot_2(Direction::Right);
    assert_eq!("##..@[][]...##", drawn(&grid)[1]);
    for _ in 0..10 {
        grid.move_robot_2(Direction::Right);
    }
    assert_eq!("##.....@[][]##", drawn(&grid)[1]);
}

#[test]
fn small_warehouse_part_one() {
    let lines = [
        "########",
        "#..O.O.#",
        "##@.O..#",
        "#...O..#",
        "#.#.O..#",
        "#...O..#",
        "#......#",
        "########",
        "",
        "<^^>>>vv<v>>v<<",
    ];
    assert_eq!(2028, run_warehouse(&chars(&lines), false).unwrap());
    assert_eq!(1751, run_warehouse(&chars(&lines), true).unwrap());
}

#[test]
fn tiny_wide_warehouse() {
    let lines = [
        "#######",
        "#...#.#",
        "#.....#",
        "#..OO@#",
        "#..O..#",
        "#.....#",
        "#######",
        "",
        "<vv<<^^<<^^",
    ];
    assert_eq!(618, run_warehouse(&chars(&lines), true).unwrap());
    let text: Vec<String> = lines.iter().map(|s| s.to_string()).collect();
    assert_eq!(618, Day15.run(text, 2).unwrap());
}

#[test]
fn moves_may_span_lines() {
    let lines = ["#####", "#@O.#", "#####", "", ">", "<<", ""];
    let moves = parse_directions(&chars(&lines), 4).unwrap();
    assert_eq!(vec![Direction::Right, Direction::Left, Direction::Left], moves);
    assert_eq!(103, run_warehouse(&chars(&lines), false).unwrap());
    assert!(parse_directions(&chars(&lines), 9).unwrap().is_empty());
}

#[test]
fn gps_counts_where_boxes_begin() {
    let grid = narrow(&["#####", "#@.O#", "#O..#"]);
    assert_eq!(103 + 201, gps_total(&grid));
}

#[test]
fn malformed_warehouses_are_refused() {
    let unknown = ["###", "#@x", "###"];
    assert!(matches!(parse_grid(&chars(&unknown)), Err(AdventError::InputParseError(_))));
    let ragged = ["###", "#@", "###"];
    assert!(matches!(parse_grid(&chars(&ragged)), Err(AdventError::InputParseError(_))));
    let no_robot = ["###", "#.#", "###"];
    assert!(matches!(parse_wide_grid(&chars(&no_robot)), Err(AdventError::InputParseError(_))));
    let two_robots = ["####", "#@@#", "####"];
    assert!(matches!(parse_grid(&chars(&two_robots)), Err(AdventError::InputParseError(_))));
    let empty: [&str; 0] = [];
    assert!(matches!(parse_grid(&chars(&empty)), Err(AdventError::InputParseError(_))));
    let bad_move = ["#@#", "", "<x>"];
    assert!(matches!(
        run_warehouse(&chars(&bad_move), false),
        Err(AdventError::InputParseError(_))
    ));
    assert!(Grid::new(vec![vec![Space::Empty]]).is_err());
}

#[test]
fn spaces_and_directions_read_and_print() {
    assert_eq!(Some(Space::Wall), Space::from_char('#'));
    assert_eq!(Some(Space::BoxLeft), Space::from_char('O'));
    assert_eq!(Some(Space::Robot), Space::from_char('@'));
    assert_eq!(Some(Space::Empty), Space::from_char('.'));
    assert_eq!(None, Space::from_char('['));
    assert_eq!('[', Space::BoxLeft.as_char());
    assert_eq!(']', Space::BoxRight.as_char());
    assert_eq!('@', Space::Robot.as_char());
    assert_eq!('.', Space::Empty.as_char());
    assert_eq!('#', Space::Wall.as_char());
    assert_eq!(Some(Direction::Up), Direction::from_char('^'));
    assert_eq!(Some(Direction::Down), Direction::from_char('v'));
    assert_eq!(Some(Direction::Left), Direction::from_char('<'));
    assert_eq!(Some(Direction::Right), Direction::from_char('>'));
    assert_eq!(None, Direction::from_char('x'));
}
