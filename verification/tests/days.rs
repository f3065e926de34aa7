use advent::y2024::day1::{parse_ids, similarity_score, total_distance, Day1};
use advent::y2024::day11::{blink, count_stones};
use advent::y2024::day14;
use advent::y2024::day14::{modulus, Quadrant, Robot};
use advent::y2024::day17::computer::{Computer, Halt};
use advent::y2024::day17::program_output;
use advent::y2024::day2::{is_safe_sequence, is_safe_with_threshold, parse_numbers, Day2};
use advent::y2024::day22::{compute_diff, final_secret_number, next_secret_number, sum_of_finals};
use advent::y2024::day7::{
    calibration_total, checked_concatenate, concatenate, parse_calibration, Calibration,
};
use advent::y2024::{factory, run_with_lines, Puzzle};
use advent::{AdventError, AdventProblem};

fn chars(s: &str) -> Vec<char> {
    s.chars().collect()
}

fn text(lines: &[&str]) -> Vec<Vec<char>> {
    lines.iter().map(|s| s.chars().collect()).collect()
}

fn strings(lines: &[&str]) -> Vec<String> {
    lines.iter().map(|s| s.to_string()).collect()
}

#[test]
fn parse_ids_small() {
    let input = "3   4";

    let (first, second) = parse_ids(&chars(input)).unwrap();
    assert_eq!(3, first);
    assert_eq!(4, second);
}

#[test]
fn location_lists() {
    let lines = ["3   4", "4   3", "2   5", "1   3", "3   9", "3   3"];
    assert_eq!(11, Day1.run(strings(&lines), 1).unwrap());
    assert_eq!(31, Day1.run(strings(&lines), 2).unwrap());
    assert_eq!(11, total_distance(vec![3, 4, 2, 1, 3, 3], vec![4, 3, 5, 3, 9, 3]));
    assert_eq!(31, similarity_score(&vec![3, 4, 2, 1, 3, 3], &vec![4, 3, 5, 3, 9, 3]));
    assert!(matches!(Day1.run(strings(&["3 x"]), 1), Err(AdventError::InputParseError(_))));
    assert_eq!(None, parse_ids(&chars("3")));
}

#[test]
fn parse_line() {
    let input = "7 6 4 2 1";

    let numbers = parse_numbers(&chars(input)).unwrap();
    assert_eq!(vec![7, 6, 4, 2, 1], numbers);
}

#[test]
fn safety() {
    assert!(is_safe_sequence(vec![7, 6, 4, 2, 1]));
    assert!(!is_safe_sequence(vec![1, 2, 7, 8, 9]));
    assert!(!is_safe_sequence(vec![9, 7, 6, 2, 1]));
    assert!(!is_safe_sequence(vec![1, 3, 2, 4, 5]));
    assert!(!is_safe_sequence(vec![8, 6, 4, 4, 1]));
    assert!(is_safe_sequence(vec![1, 3, 6, 7, 9]));
}

#[test]
fn safety_with_threshold() {
    assert!(is_safe_with_threshold(vec![7, 6, 4, 2, 1], 1));
    assert!(!is_safe_with_threshold(vec![1, 2, 7, 8, 9], 1));
    assert!(!is_safe_with_threshold(vec![9, 7, 6, 2, 1], 1));
    assert!(is_safe_with_threshold(vec![1, 3, 2, 4, 5], 1));
    assert!(is_safe_with_threshold(vec![8, 6, 4, 4, 1], 1));
    assert!(is_safe_with_threshold(vec![1, 3, 6, 7, 9], 1));
}

#[test]
fn reports_are_counted() {
    let lines = ["7 6 4 2 1", "1 2 7 8 9", "9 7 6 2 1", "1 3 2 4 5", "8 6 4 4 1", "1 3 6 7 9"];
    assert_eq!(2, Day2.run(strings(&lines), 1).unwrap());
    assert_eq!(4, Day2.run(strings(&lines), 2).unwrap());
    assert!(is_safe_sequence(vec![]));
    assert!(is_safe_sequence(vec![5]));
    assert!(!is_safe_sequence(vec![5, 5]));
    assert!(matches!(Day2.run(strings(&["1 a"]), 1), Err(AdventError::InputParseError(_))));
}

#[test]
fn computer_sample() {
    let instructions = vec![0, 1, 5, 4, 3, 0];
    let mut computer = Computer::new(instructions, 729, 0, 0);
    computer.run();
    assert_eq!("4635635210", computer.concat_output());
}

#[test]
fn computer_runs_and_faults() {
    let mut computer = Computer::new(vec![2, 6], 0, 0, 9);
    assert_eq!(Halt::Finished, computer.run());
    assert_eq!(1, computer.registers.b);
    let mut computer = Computer::new(vec![5, 0, 5, 1, 5, 4], 10, 0, 0);
    assert_eq!(Halt::Finished, computer.run());
    assert_eq!(&vec![0, 1, 2], computer.outputs());
    let mut computer = Computer::new(vec![0, 1, 5, 4, 3, 0], 2024, 0, 0);
    computer.run();
    assert_eq!("42567777310", computer.concat_output());
    assert_eq!(0, computer.registers.a);
    let mut computer = Computer::new(vec![1, 3], 0, 29, 0);
    computer.run();
    assert_eq!(30, computer.registers.b);
    let mut computer = Computer::new(vec![4, 0], 0, 2024, 43690);
    computer.run();
    assert_eq!(44354, computer.registers.b);
    // An operand of 7 stands for nothing, and an instruction may not lack its operand.
    let mut computer = Computer::new(vec![5, 7], 1, 2, 3);
    assert_eq!(Halt::Faulted, computer.run());
    assert_eq!(0, computer.pointer);
    let mut computer = Computer::new(vec![5, 4, 5], 1, 2, 3);
    assert_eq!(Halt::Faulted, computer.run());
    assert_eq!(&vec![1], computer.outputs());
    let mut computer = Computer::new(vec![9, 0], 1, 2, 3);
    assert_eq!(Halt::Faulted, computer.run());
    // Dividing by two to the power 64 and more cannot be done.
    let mut computer = Computer::new(vec![0, 5], 1, 64, 3);
    assert_eq!(Halt::Faulted, computer.run());
    let mut computer = Computer::new(vec![6, 5, 7, 5], 1 << 63, 63, 3);
    assert_eq!(Halt::Finished, computer.run());
    assert_eq!((1, 1 << 62), (computer.registers.b, computer.registers.c));
    computer.restart(5, 6, 7);
    assert_eq!(0, computer.pointer);
    assert!(computer.outputs().is_empty());
    assert_eq!((5, 6, 7), (computer.registers.a, computer.registers.b, computer.registers.c));
    assert!(computer.step());
    assert_eq!(2, computer.pointer);
}

#[test]
fn computer_is_read_from_lines() {
    let lines = ["Register A: 729", "Register B: 0", "Register C: 0", "", "Program: 0,1,5,4,3,0"];
    let (output, halt) = program_output(&text(&lines)).unwrap();
    assert_eq!("4635635210", output);
    assert_eq!(Halt::Finished, halt);
    assert!(program_output(&text(&lines[..4])).is_err());
    let bad = ["Register A: 729", "Register B: x", "Register C: 0", "", "Program: 0,1"];
    assert!(matches!(program_output(&text(&bad)), Err(AdventError::InputParseError(_))));
    let bad = ["Register A: 729", "Register B: 0", "Register C: 0", "", "Program: 0,256"];
    assert!(program_output(&text(&bad)).is_err());
}

#[test]
fn mod_sample() {
    let seq = vec![
        15887950, 16495136, 527345, 704524, 1553684, 12683156, 11100544, 12249484, 7753432,
        5908254,
    ];

    let mut prev = 123;
    for next in seq {
        assert_eq!(next, next_secret_number(prev));
        prev = next;
    }
}

#[test]
fn test_final_secret_number() {
    assert_eq!(8685429, final_secret_number(1));
    assert_eq!(4700978, final_secret_number(10));
    assert_eq!(15273692, final_secret_number(100));
    assert_eq!(8667524, final_secret_number(2024));
}

#[test]
fn secrets_are_summed() {
    assert_eq!(37327623, sum_of_finals(&text(&["1", "10", "100", "2024"])).unwrap());
    assert!(sum_of_finals(&text(&["1", "x"])).is_err());
    assert_eq!(-3, compute_diff(123, 15887950));
    assert_eq!(6, compute_diff(15887950, 16495136));
}

#[test]
fn simple_blink() {
    assert_eq!(vec![253000], blink(125));
    assert_eq!(vec![1, 7], blink(17));
    assert_eq!(vec![1, 0], blink(10));
    assert_eq!(vec![202400], blink(100));
    assert_eq!(vec![10, 0], blink(1000));
    assert_eq!(vec![1], blink(0));
}

#[test]
fn stones_are_counted() {
    assert_eq!(55312, count_stones(&text(&["125 17"])).unwrap());
    assert!(count_stones(&text(&["125 x"])).is_err());
    assert!(count_stones(&text(&[])).is_err());
    assert_eq!(vec![1844674407, 3709551615], blink(u64::MAX));
}

#[test]
fn mod_parse() {
    let line = "161011: 16 10 13";
    assert_eq!(
        Calibration { total: 161011, parts: vec![16, 10, 13] },
        parse_calibration(&chars(line)).unwrap(),
    );
}

#[test]
fn can_finish() {
    let calibration = Calibration { total: 3267, parts: vec![81, 40, 27] };

    assert!(calibration.can_finish());
}

#[test]
fn test_concatenate() {
    assert_eq!(123, concatenate(1, 23));
}

#[test]
fn can_finish_with_concatenate() {
    let calibration = Calibration { total: 7290, parts: vec![6, 8, 6, 15] };

    assert!(calibration.can_finish_with_concatenate());
}

#[test]
fn calibrations_are_summed() {
    let lines = [
        "190: 10 19",
        "3267: 81 40 27",
        "83: 17 5",
        "156: 15 6",
        "7290: 6 8 6 15",
        "161011: 16 10 13",
        "192: 17 8 14",
        "21037: 9 7 18 13",
        "292: 11 6 16 20",
    ];
    assert_eq!(3749, calibration_total(&text(&lines), false).unwrap());
    assert_eq!(11387, calibration_total(&text(&lines), true).unwrap());
    assert!(calibration_total(&text(&["190 10 19"]), false).is_err());
    assert!(parse_calibration(&chars("190:")).is_none());
    assert!(!Calibration { total: 7290, parts: vec![6, 8, 6, 15] }.can_finish());
    assert_eq!(Some(100), checked_concatenate(10, 0));
    assert_eq!(Some(u64::MAX), checked_concatenate(1844674407370955161, 5));
    assert_eq!(None, checked_concatenate(1844674407370955161, 6));
    assert_eq!(None, checked_concatenate(u64::MAX, 1));
}

#[test]
fn mod_parse_sample() {
    assert_eq!(Robot { pos: (0, 4), velocity: (3, -3) }, day14::parse_line("p=0,4 v=3,-3").unwrap());
}

#[test]
fn test_move() {
    let mut robot = Robot { pos: (2, 4), velocity: (2, -3) };

    robot.move_spaces(5, 11, 7);
    assert_eq!((1, 3), robot.pos);
}

#[test]
fn test_quadrant() {
    let robot = Robot { pos: (2, 4), velocity: (2, -3) };

    assert_eq!(Some(Quadrant::Third), robot.quadrant(11, 7));
}

#[test]
fn robots_wrap_around() {
    assert_eq!(2, modulus(-5, 7));
    assert_eq!(0, modulus(-7, 7));
    assert_eq!(3, modulus(10, 7));
    assert_eq!(0, modulus(i64::MIN, 1));
    assert_eq!(6, modulus(-1, 7));
    let mut robot = Robot { pos: (0, 0), velocity: (i64::MIN, i64::MAX) };
    robot.move_spaces(i64::MIN, 101, 103);
    assert!(0 <= robot.pos.0 && robot.pos.0 < 101);
    assert!(0 <= robot.pos.1 && robot.pos.1 < 103);
    assert_eq!(None, Robot { pos: (5, 1), velocity: (0, 0) }.quadrant(11, 7));
    assert_eq!(Some(Quadrant::First), Robot { pos: (6, 1), velocity: (0, 0) }.quadrant(11, 7));
    assert_eq!(Some(Quadrant::Second), Robot { pos: (4, 1), velocity: (0, 0) }.quadrant(11, 7));
    assert_eq!(Some(Quadrant::Fourth), Robot { pos: (6, 4), velocity: (0, 0) }.quadrant(11, 7));
    assert!(matches!(day14::parse_line("p=0,4 v=3"), Err(AdventError::InputParseError(_))));
    assert!(day14::parse_line("p=99999999999999999999,4 v=3,-3").is_err());
    // Three robots that stand still in three quarters, two of them in one.
    let lines = strings(&["p=0,0 v=0,0", "p=100,0 v=0,0", "p=100,1 v=0,0", "p=50,51 v=0,0"]);
    assert_eq!(2, day14::safety(&lines).unwrap());
}

#[test]
fn solvers_are_found_by_day() {
    assert_eq!(Some(Puzzle::Day16), factory(16));
    assert_eq!(Some(Puzzle::Day1), factory(1));
    assert_eq!(None, factory(0));
    assert_eq!(None, factory(26));
    let lines = strings(&["3   4", "4   3", "2   5", "1   3", "3   9", "3   3"]);
    assert_eq!(11, run_with_lines(lines.clone(), 1, 1).unwrap());
    assert_eq!(31, run_with_lines(lines.clone(), 1, 2).unwrap());
    assert!(run_with_lines(lines.clone(), 1, 3).is_err());
    assert!(run_with_lines(lines, 0, 1).is_err());
}

#[test]
fn frequencies_of_numbers() {
    let mut table = advent::y2024::day1::collect_frequencies(&vec![4, 3, 5, 3, 9, 3]);
    table.sort();
    assert_eq!(vec![(3, 3), (4, 1), (5, 1), (9, 1)], table);
    assert!(advent::y2024::day1::collect_frequencies(&Vec::new()).is_empty());
    assert_eq!(vec![(7, 2)], advent::y2024::day1::collect_frequencies(&vec![7, 7]));
}
