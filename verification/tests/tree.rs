use advent::y2024::day14::{
    distinct_places, find_tree, parse_robots, picture, scatter, tick, Day14, Robot,
};
use advent::AdventProblem;

#[test]
fn robots_gather_as_a_tree() {
    let lines = [
        "p=0,4 v=3,-3",
        "p=6,3 v=-1,-3",
        "p=10,3 v=-1,2",
        "p=2,0 v=2,-1",
    ];
    let lines: Vec<String> = lines.iter().map(|s| s.to_string()).collect();
    let mut robots = parse_robots(&lines).unwrap();
    assert_eq!(Some(1), find_tree(&mut robots));
    let places: Vec<(i64, i64)> = robots.iter().map(|r| r.pos).collect();
    assert_eq!(vec![(3, 1), (5, 0), (9, 5), (4, 102)], places);
    let drawn = picture(&robots);
    assert_eq!(101, drawn.len());
    assert!(drawn.iter().all(|line| line.len() == 103));
    assert_eq!('*', drawn[3][1]);
    assert_eq!('*', drawn[4][102]);
    assert_eq!('.', drawn[1][3]);
    assert_eq!(4, drawn.iter().flatten().filter(|c| **c == '*').count());
    assert_eq!(0, Day14.run_part_2(lines).unwrap());
    assert!(Day14.run_part_2(vec!["p=1".to_string()]).is_err());
    assert!(parse_robots(&vec!["p=0,4 v=3,-3".to_string(), "".to_string()]).is_none());
}

#[test]
fn spread_of_places() {
    assert_eq!(0, scatter(&vec![]));
    assert_eq!(0, scatter(&vec![(5, 5)]));
    assert_eq!(14, scatter(&vec![(0, 0), (3, 4)]));
    assert_eq!(2 * (7 + 4 + 9), scatter(&vec![(0, 0), (3, 4), (1, -3)]));
    assert_eq!(10_000_000, scatter(&vec![(0, 0), (5_000_000, 0)]));
    assert_eq!(9_999_998, scatter(&vec![(0, 0), (4_999_999, 0)]));
    assert_eq!(10_000_000, scatter(&vec![(i64::MIN, i64::MIN), (i64::MAX, i64::MAX)]));
    let robots = vec![
        Robot { pos: (1, 1), velocity: (0, 0) },
        Robot { pos: (2, 2), velocity: (1, 0) },
        Robot { pos: (1, 1), velocity: (5, 5) },
    ];
    assert_eq!(vec![(1, 1), (2, 2)], distinct_places(&robots));
    let mut robots = robots;
    tick(&mut robots);
    assert_eq!(vec![(1, 1), (3, 2), (6, 6)], distinct_places(&robots));
}

#[test]
fn robots_of_the_sample() {
    let lines = [
        "p=0,4 v=3,-3",
        "p=6,3 v=-1,-3",
        "p=10,3 v=-1,2",
        "p=2,0 v=2,-1",
        "p=0,0 v=1,3",
        "p=3,0 v=-2,-2",
        "p=7,6 v=-1,-3",
        "p=3,0 v=-1,-2",
        "p=9,3 v=2,3",
        "p=7,3 v=-1,2",
        "p=2,4 v=2,-3",
        "p=9,5 v=-3,-3",
    ];
    let lines: Vec<String> = lines.iter().map(|s| s.to_string()).collect();
    let robots = parse_robots(&lines).unwrap();
    assert_eq!(12, robots.len());
    assert_eq!(Robot { pos: (9, 5), velocity: (-3, -3) }, robots[11]);
    assert_eq!(Robot { pos: (0, 4), velocity: (3, -3) }, robots[0]);
}
