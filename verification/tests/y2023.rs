use advent::y2023::day1::{
    alpha_calibration_value, alphabetic_first_last_digit, calibration_value, first_last_digit,
    match_digit,
};
use advent::y2023::day2::{parse_color, parse_pick, Bound, Color, Game, Sample};
use advent::y2023::day5::Range;
use advent::y2023::{factory, run, run_with_lines, Puzzle};
use advent::y2024::day13::{can_solve, parse_lines, tokens};
use advent::y2024::day13::Game as Machine;
use advent::y2024::day4::{count_cross_mas, count_xmas, Direction};
use advent::text::trim;
use advent::AdventError;

fn chars(s: &str) -> Vec<char> {
    s.chars().collect()
}

fn strings(lines: &[&str]) -> Vec<String> {
    lines.iter().map(|s| s.to_string()).collect()
}

#[test]
fn parse_sample_bound() {
    let b: Bound = Bound::try_from("3 blue, 4 red; 1 red, 2 green, 6 blue; 2 green").unwrap();

    assert_eq!(b.red, 4);
    assert_eq!(b.green, 2);
    assert_eq!(b.blue, 6);
}

#[test]
fn parse_game() {
    let g =
        Game::try_from("Game 4: 1 green, 3 red, 6 blue; 3 green, 6 red; 3 green, 15 blue, 14 red")
            .unwrap();

    assert_eq!(g.id, 4);
    assert_eq!(g.bound.red, 14);
    assert_eq!(g.bound.green, 3);
    assert_eq!(g.bound.blue, 15);
}

#[test]
fn cube_games_are_summed() {
    let lines = [
        "Game 1: 3 blue, 4 red; 1 red, 2 green, 6 blue; 2 green",
        "Game 2: 1 blue, 2 green; 3 green, 4 blue, 1 red; 1 green, 1 blue",
        "Game 3: 8 green, 6 blue, 20 red; 5 blue, 4 red, 13 green; 5 green, 1 red",
        "Game 4: 1 green, 3 red, 6 blue; 3 green, 6 red; 3 green, 15 blue, 14 red",
        "Game 5: 6 red, 1 blue, 3 green; 2 blue, 1 red, 2 green",
    ];
    assert_eq!(8, run_with_lines(strings(&lines), 2, 1).unwrap());
    assert_eq!(2286, run(strings(&lines), 2, 2).unwrap());
    assert_eq!(Some(Puzzle::Day2), factory(2));
    assert_eq!(Some(Puzzle::Day3), factory(3));
    assert_eq!(Some(Puzzle::Day4), factory(4));
    assert_eq!(None, factory(5));
    assert!(matches!(Game::try_from("Gam 1: 3 blue"), Err(AdventError::InputParseError(_))));
    assert!(matches!(Game::try_from("Game x: 3 blue"), Err(AdventError::InputParseError(_))));
    assert!(matches!(Game::try_from("Game 1: 3 pink"), Err(AdventError::InputParseError(_))));
    assert!(matches!(Game::try_from("Game 1: blue"), Err(AdventError::InputParseError(_))));
    assert!(matches!(Game::try_from(""), Err(AdventError::InputParseError(_))));
    assert!(Bound::try_from("3 blue;").is_err());
    assert!(Bound { red: 12, green: 13, blue: 14 }.is_valid());
    assert!(!Bound { red: 13, green: 13, blue: 14 }.is_valid());
    assert_eq!(48, Bound { red: 4, green: 2, blue: 6 }.power());
    assert_eq!(0, Bound { red: 65536, green: 65536, blue: 1 }.power());
    assert_eq!(Some((3, Color::Blue)), parse_pick(&chars("  3 blue ")));
    assert_eq!(None, parse_pick(&chars("3  blue")));
    assert_eq!(Some(Color::Green), parse_color(&chars("green")));
    assert_eq!(None, parse_color(&chars("greenish")));
    let sample = Sample::try_from(" 3 blue, 4 red, 5 blue ").unwrap();
    assert_eq!(Sample { red: 4, blue: 5, green: 0 }, sample);
    assert!(sample.is_valid());
    assert!(!Sample { red: 0, blue: 15, green: 0 }.is_valid());
    assert!(Sample::try_from("3 blue, red").is_err());
    assert_eq!(chars("a b"), trim(&chars(" \t a b \n")));
    assert!(trim(&chars("  ")).is_empty());
}

#[test]
fn calibration_values() {
    // The digits count from the back and from the front.
    assert_eq!((2, 1), first_last_digit(&chars("1abc2")));
    assert_eq!((0, 0), first_last_digit(&chars("abc")));
    assert_eq!(33, calibration_value(&chars("1abc2")));
    assert_eq!(11 * 15, calibration_value(&chars("a1b2c3d4e5f")));
    assert_eq!((2, 9), alphabetic_first_last_digit(&chars("two1nine")));
    assert_eq!(29, alpha_calibration_value(&chars("two1nine")));
    assert_eq!(83, alpha_calibration_value(&chars("eightwothree")));
    assert_eq!(13, alpha_calibration_value(&chars("abcone2threexyz")));
    assert_eq!(24, alpha_calibration_value(&chars("xtwone3four")));
    assert_eq!(42, alpha_calibration_value(&chars("4nineeightseven2")));
    assert_eq!(14, alpha_calibration_value(&chars("zoneight234")));
    assert_eq!(76, alpha_calibration_value(&chars("7pqrstsixteen")));
    assert_eq!(0, alpha_calibration_value(&chars("")));
    assert_eq!(Some(5), match_digit(&chars("xfive"), 1));
    assert_eq!(None, match_digit(&chars("xfive"), 0));
    assert_eq!(None, match_digit(&chars("fiv"), 0));
    assert_eq!(None, match_digit(&chars("fiv"), 3));
    let lines = ["1abc2", "pqr3stu8vwx", "a1b2c3d4e5f", "treb7uchet"];
    assert_eq!(33 + 121 + 165 + 77, run(strings(&lines), 1, 1).unwrap());
    let lines = ["two1nine", "eightwothree", "abcone2threexyz", "xtwone3four"];
    assert_eq!(29 + 83 + 13 + 24, run(strings(&lines), 1, 2).unwrap());
}

#[test]
fn almanac_ranges_map_numbers() {
    let range = Range { dest_start: 50, source_start: 98, len: 2 };
    assert_eq!(97, range.map(97));
    assert_eq!(50, range.map(98));
    assert_eq!(52, range.map(100));
    assert_eq!(101, range.map(101));
    let wide = Range { dest_start: u32::MAX, source_start: 0, len: u32::MAX };
    assert_eq!(u32::MAX, wide.map(0));
    assert_eq!(0, wide.map(1));
}

#[test]
fn xmas_sample() {
    let input = vec![
        "MMMSXXMASM",
        "MSAMXMSMSA",
        "AMXSXMAAMM",
        "MSAMASMSMX",
        "XMASAMXAMM",
        "XXAMMXXAMA",
        "SMSMSASXSS",
        "SAXAMASAAA",
        "MAMMMXMMMM",
        "MXMXAXMASX",
    ];
    let grid = input.iter().map(|s| s.chars().collect()).collect();

    assert_eq!(18, count_xmas(grid));
}

#[test]
fn cross_mas_sample() {
    let input = vec![
        "MMMSXXMASM",
        "MSAMXMSMSA",
        "AMXSXMAAMM",
        "MSAMASMSMX",
        "XMASAMXAMM",
        "XXAMMXXAMA",
        "SMSMSASXSS",
        "SAXAMASAAA",
        "MAMMMXMMMM",
        "MXMXAXMASX",
    ];
    let grid = input.iter().map(|s| s.chars().collect()).collect();

    assert_eq!(9, count_cross_mas(grid));
}

#[test]
fn words_run_in_eight_directions() {
    assert_eq!(1, count_xmas(vec![chars("XMAS")]));
    assert_eq!(1, count_xmas(vec![chars("SAMX")]));
    assert_eq!(0, count_xmas(vec![chars("XMA")]));
    assert_eq!(2, count_xmas(vec![chars("XMASAMX")]));
    assert_eq!(1, count_xmas(vec![chars("X"), chars("M"), chars("A"), chars("S")]));
    assert_eq!(1, count_xmas(vec![chars("X..."), chars(".M.."), chars("..A."), chars("...S")]));
    assert_eq!(0, count_xmas(vec![]));
    assert_eq!(1, count_cross_mas(vec![chars("M.S"), chars(".A."), chars("M.S")]));
    assert_eq!(0, count_cross_mas(vec![chars("M.S"), chars(".A."), chars("S.S")]));
    assert_eq!(0, count_cross_mas(vec![chars("M.S"), chars(".A")]));
    assert_eq!((0, 1), Direction::North.offset());
    assert_eq!((1, 1), Direction::SouthEast.offset());
    assert_eq!((2, 4), Direction::NorthEast.transition(3, 3));
    assert_eq!((-1, -1), Direction::NorthWest.transition(0, 0));
}

#[test]
fn claw_machines() {
    let lines = strings(&[
        "Button A: X+94, Y+34",
        "Button B: X+22, Y+67",
        "Prize: X=8400, Y=5400",
        "",
        "Button A: X+26, Y+66",
        "Button B: X+67, Y+21",
        "Prize: X=12748, Y=12176",
        "",
        "Button A: X+17, Y+86",
        "Button B: X+84, Y+37",
        "Prize: X=7870, Y=6450",
        "",
        "Button A: X+69, Y+23",
        "Button B: X+27, Y+71",
        "Prize: X=18641, Y=10279",
    ]);
    let games = parse_lines(&lines, 0).unwrap();
    assert_eq!(4, games.len());
    assert_eq!((94, 34), games[0].button_a);
    assert_eq!((27, 71), games[3].button_b);
    assert_eq!((7870, 6450), games[2].prize);
    assert_eq!(Some((80, 40)), games[0].solve());
    assert_eq!(None, games[1].solve());
    assert_eq!(Some((38, 86)), games[2].solve());
    assert_eq!(None, games[3].solve());
    let total: u64 = games.iter().map(|g| tokens(g)).sum();
    assert_eq!(480, total);
    let far = parse_lines(&lines, 10000000000000).unwrap();
    assert_eq!((10000000008400, 10000000005400), far[0].prize);
    let total: u64 = far.iter().filter(|g| can_solve(g)).map(|g| tokens(g)).sum();
    assert_eq!(875318608908, total);
    assert!(parse_lines(&lines[..14].to_vec(), 0).is_none());
    assert!(parse_lines(&strings(&["Button A: X+1, Y+1", "x", "y"]), 0).is_none());
    assert!(parse_lines(&lines, u64::MAX).is_none());
    assert!(parse_lines(&strings(&[]), 0).unwrap().is_empty());
    // Buttons that pull the same way cannot be told apart.
    assert!(!can_solve(&Machine { button_a: (1, 2), button_b: (2, 4), prize: (3, 6) }));
    assert!(!can_solve(&Machine { button_a: (1 << 62, 2), button_b: (3, 4), prize: (3, 6) }));
    // Pushes that would have to be taken back win nothing that counts.
    let odd = Machine { button_a: (1, 0), button_b: (1, 1), prize: (0, 1) };
    assert_eq!(Some((-1, 1)), odd.solve());
    assert_eq!(u64::MAX - 1, tokens(&odd));
}
