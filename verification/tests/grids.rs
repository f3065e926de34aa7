use advent::y2024::day18;
use advent::y2024::day19::{count_constructable, count_designs, count_ways, is_constructable, Day19};
use advent::y2024::day20::{
    count_cheats, find_20ps_shortcuts, find_2ps_shortcuts, find_shortest_distances, next_space,
    Direction,
};
use advent::y2024::day6::Direction as Way;
use advent::y2024::day6::{
    count_patrol, find_obstacles, find_start, find_visited, transition, try_traversal, Day6,
};
use advent::AdventProblem;

fn chars(s: &str) -> Vec<char> {
    s.chars().collect()
}

fn text(lines: &[&str]) -> Vec<Vec<char>> {
    lines.iter().map(|s| s.chars().collect()).collect()
}

fn strings(lines: &[&str]) -> Vec<String> {
    lines.iter().map(|s| s.to_string()).collect()
}

const PATROL: [&str; 10] = [
    "....#.....",
    ".........#",
    "..........",
    "..#.......",
    ".......#..",
    "..........",
    ".#..^.....",
    "........#.",
    "#.........",
    "......#...",
];

#[test]
fn guard_walks_its_rounds() {
    let mut grid = text(&PATROL);
    assert_eq!((6, 4), find_start(&grid));
    assert_eq!(41, find_visited(&grid, (6, 4)).len());
    assert_eq!(41, count_patrol(&mut grid, false).unwrap());
    assert_eq!(6, count_patrol(&mut grid, true).unwrap());
    assert_eq!(text(&PATROL), grid);
    assert_eq!(41, Day6.run(strings(&PATROL), 1).unwrap());
    assert_eq!(6, Day6.run(strings(&PATROL), 2).unwrap());
    assert!(!try_traversal(&grid, (6, 4)));
    grid[6][3] = '#';
    assert!(try_traversal(&grid, (6, 4)));
    grid[6][3] = '.';
    let visited = vec![(6, 3), (0, 0), (7, 6)];
    assert_eq!(vec![(6, 3), (7, 6)], find_obstacles(&mut grid, (6, 4), &visited));
    assert_eq!(text(&PATROL), grid);
    assert!(count_patrol(&mut text(&["..", "."]), false).is_err());
    assert!(count_patrol(&mut text(&[]), true).is_err());
    // Without a start marker the guard starts in the top left corner.
    assert_eq!(1, count_patrol(&mut text(&["..", ".."]), false).unwrap());
}

#[test]
fn guard_turns_at_obstacles_and_leaves_at_the_edge() {
    let grid = text(&["#.", ".."]);
    assert_eq!(Some((1, 0, Way::East)), transition(&grid, (1, 0), Way::North));
    assert_eq!(Some((1, 1, Way::East)), transition(&grid, (1, 0), Way::East));
    assert_eq!(None, transition(&grid, (1, 1), Way::East));
    assert_eq!(None, transition(&grid, (1, 1), Way::South));
    assert_eq!(None, transition(&grid, (1, 0), Way::West));
    assert_eq!(Some((0, 1, Way::North)), transition(&grid, (1, 1), Way::North));
    assert_eq!(Some((0, 1, Way::North)), transition(&grid, (0, 1), Way::West));
    assert_eq!(Way::South, Way::East.rotate());
    assert_eq!(Way::North, Way::West.rotate());
}

#[test]
fn sample_towels() {
    let patterns = text(&["r", "wr", "b", "g", "bwu", "rb", "gb", "br"]);

    assert!(is_constructable(&chars("brwrr"), &patterns, 0));
    assert!(is_constructable(&chars("bggr"), &patterns, 0));
    assert!(is_constructable(&chars("gbbr"), &patterns, 0));
    assert!(is_constructable(&chars("rrbgbr"), &patterns, 0));
    assert!(!is_constructable(&chars("ubwu"), &patterns, 0));
    assert!(is_constructable(&chars("bwurrg"), &patterns, 0));
    assert!(is_constructable(&chars("brgr"), &patterns, 0));
    assert!(!is_constructable(&chars("bbrgwb"), &patterns, 0));
}

#[test]
fn sample_2() {
    let patterns = text(&["r", "wr", "b", "g", "bwu", "rb", "gb", "br"]);

    assert_eq!(2, count_constructable(&chars("brwrr"), &patterns, 0));
    assert_eq!(1, count_constructable(&chars("bggr"), &patterns, 0));
    assert_eq!(4, count_constructable(&chars("gbbr"), &patterns, 0));
    assert_eq!(6, count_constructable(&chars("rrbgbr"), &patterns, 0));
    assert_eq!(0, count_constructable(&chars("ubwu"), &patterns, 0));
    assert_eq!(1, count_constructable(&chars("bwurrg"), &patterns, 0));
    assert_eq!(2, count_constructable(&chars("brgr"), &patterns, 0));
    assert_eq!(0, count_constructable(&chars("bbrgwb"), &patterns, 0));
}

#[test]
fn designs_are_counted() {
    let lines = [
        "r, wr, b, g, bwu, rb, gb, br",
        "",
        "brwrr",
        "bggr",
        "gbbr",
        "rrbgbr",
        "ubwu",
        "bwurrg",
        "brgr",
        "bbrgwb",
    ];
    assert_eq!(6, count_designs(&text(&lines)));
    assert_eq!(16, count_ways(&text(&lines)));
    assert_eq!(6, Day19.run(strings(&lines), 1).unwrap());
    assert_eq!(0, count_designs(&text(&[])));
    // Nothing is one way of laying out nothing; a towel without stripes fits nowhere.
    assert_eq!(1, count_constructable(&chars(""), &text(&["r"]), 0));
    assert_eq!(1, count_constructable(&chars("rr"), &text(&["r", ""]), 0));
    assert_eq!(1, count_constructable(&chars("rr"), &text(&["r"]), 1));
    assert_eq!(0, count_constructable(&chars("rr"), &text(&["r"]), 3));
    assert!(!is_constructable(&chars("rr"), &text(&["r"]), 3));
    assert!(is_constructable(&chars("rr"), &text(&["r"]), 2));
}

#[test]
fn bytes_fall_and_block_the_way() {
    let lines = text(&[
        "5,4", "4,2", "4,5", "3,0", "2,1", "6,3", "2,4", "1,5", "0,6", "3,3", "2,6", "5,1", "1,2",
        "5,5", "2,5", "6,5", "1,4", "0,4", "6,4", "1,1", "6,1", "1,0", "0,5", "1,6", "2,0",
    ]);
    let grid = day18::parse_lines(&lines, 12, (6, 6)).unwrap();
    let drawn: Vec<String> = grid.iter().map(|row| row.iter().collect()).collect();
    assert_eq!(
        vec!["...#...", "..#..#.", "....#..", "...#..#", "..#..#.", ".#..#..", "#.#...."],
        drawn
    );
    assert_eq!(Some(22), day18::find_lowest_score(&grid, (6, 6)));
    assert_eq!(Some(2), day18::find_lowest_score(&grid, (1, 1)));
    assert_eq!(None, day18::find_lowest_score(&grid, (7, 6)));
    let grid = day18::parse_lines(&lines, 21, (6, 6)).unwrap();
    assert_eq!(Some(u32::MAX), day18::find_lowest_score(&grid, (6, 6)));
    assert!(day18::parse_lines(&lines, 12, (4, 6)).is_none());
    assert!(day18::parse_lines(&text(&["1;2"]), 12, (6, 6)).is_none());
    assert_eq!(Some((4, 5)), day18::parse_byte(&chars("5,4")));
    assert_eq!(140, day18::Day18.run(strings(&[]), 1).unwrap());
}

const TRACK: [&str; 15] = [
    "###############",
    "#...#...#.....#",
    "#.#.#.#.#.###.#",
    "#S#...#.#.#...#",
    "#######.#.#.###",
    "#######.#.#...#",
    "#######.#.###.#",
    "###..E#...#...#",
    "###.#######.###",
    "#...###...#...#",
    "#.#####.#.###.#",
    "#.#...#.#.#...#",
    "#.#.#.#.#.#.###",
    "#...#...#...###",
    "###############",
];

#[test]
fn race_track_distances_and_cheats() {
    let grid = text(&TRACK);
    let distances = find_shortest_distances(&grid).unwrap();
    assert_eq!(0, distances[7][5]);
    assert_eq!(84, distances[3][1]);
    assert_eq!(u32::MAX, distances[0][0]);
    assert_eq!(1, distances[7][4]);
    // No cheat of the small track saves a hundred steps.
    assert_eq!(0, find_2ps_shortcuts(&grid, &distances));
    assert_eq!(0, find_20ps_shortcuts(&grid, &distances));
    assert_eq!(0, count_cheats(&grid, false).unwrap());
    assert!(find_shortest_distances(&text(&["#.", "#"])).is_none());
    assert!(count_cheats(&text(&[]), true).is_err());
    // A long way around a wall that one cheat cuts short.
    let mut lines: Vec<String> = Vec::new();
    lines.push("E#".to_string() + &".".repeat(60));
    lines.push(".#".to_string() + &".".repeat(60));
    lines.push(".".repeat(62));
    let long = lines.iter().map(|l| l.chars().collect()).collect::<Vec<Vec<char>>>();
    let far = find_shortest_distances(&long).unwrap();
    assert_eq!(6, far[0][2]);
    assert_eq!(65, far[0][61]);
    assert_eq!(0, find_2ps_shortcuts(&long, &far));
    let mut wall: Vec<Vec<char>> = vec![vec!['.'; 120], vec!['#'; 120], vec!['.'; 120]];
    wall[0][0] = 'E';
    wall[1][119] = '.';
    let around = find_shortest_distances(&wall).unwrap();
    assert_eq!(240, around[2][0]);
    // Through the wall from each of the 70 places below it from which the
    // way around is at least 102 steps longer than the way from above.
    assert_eq!(70, find_2ps_shortcuts(&wall, &around));
    assert!(find_20ps_shortcuts(&wall, &around) > 70);
}

#[test]
fn places_next_to_places() {
    assert_eq!(None, next_space((1, 1), (5, 5), 2, Direction::Up));
    assert_eq!(Some((0, 1)), next_space((2, 1), (5, 5), 2, Direction::Up));
    assert_eq!(Some((4, 1)), next_space((2, 1), (5, 5), 2, Direction::Down));
    assert_eq!(None, next_space((3, 1), (5, 5), 2, Direction::Down));
    assert_eq!(None, next_space((3, 1), (5, 5), 2, Direction::Left));
    assert_eq!(Some((3, 3)), next_space((3, 1), (5, 5), 2, Direction::Right));
    assert_eq!(None, next_space((3, 3), (5, 5), 2, Direction::Right));
    assert_eq!(None, next_space((3, 3), (5, 5), usize::MAX, Direction::Right));
}

#[test]
fn ends_of_mas_written_aslant() {
    let grid: Vec<Vec<char>> = ["M.S", ".A.", "M.S"].iter().map(|s| s.chars().collect()).collect();
    assert_eq!(
        vec![
            (2, 2, advent::y2024::day4::Direction::SouthEast),
            (0, 2, advent::y2024::day4::Direction::NorthEast),
        ],
        advent::y2024::day4::find_mas(&grid)
    );
    let none: Vec<Vec<char>> = ["MAS", "MAS"].iter().map(|s| s.chars().collect()).collect();
    assert!(advent::y2024::day4::find_mas(&none).is_empty());
    assert!(advent::y2024::day4::find_mas(&Vec::new()).is_empty());
}

#[test]
fn tokens_of_all_machines() {
    let lines: Vec<String> = [
        "Button A: X+94, Y+34",
        "Button B: X+22, Y+67",
        "Prize: X=8400, Y=5400",
        "",
        "Button A: X+26, Y+66",
        "Button B: X+67, Y+21",
        "Prize: X=12748, Y=12176",
        "",
        "Button A: X+17, Y+86",
        "Button B: X+84, Y+37",
        "Prize: X=7870, Y=6450",
        "",
        "Button A: X+69, Y+23",
        "Button B: X+27, Y+71",
        "Prize: X=18641, Y=10279",
    ]
    .iter()
    .map(|s| s.to_string())
    .collect();
    let games = advent::y2024::day13::parse_lines(&lines, 0).unwrap();
    assert_eq!(Some(480), advent::y2024::day13::total_tokens(&games));
    let far = advent::y2024::day13::parse_lines(&lines, 10000000000000).unwrap();
    assert_eq!(Some(875318608908), advent::y2024::day13::total_tokens(&far));
    assert_eq!(Some(0), advent::y2024::day13::total_tokens(&Vec::new()));
    let flat: Vec<String> = ["Button A: X+1, Y+1", "Button B: X+2, Y+2", "Prize: X=3, Y=3"]
        .iter()
        .map(|s| s.to_string())
        .collect();
    let games = advent::y2024::day13::parse_lines(&flat, 0).unwrap();
    assert_eq!(None, advent::y2024::day13::total_tokens(&games));
}
