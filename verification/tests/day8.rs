use advent::y2024::day8::{
    abs_diff, antinode_coords, antinode_coords_v2, count_antinodes, find_antennas, next_antinode,
    Day8, Direction,
};
use advent::AdventProblem;

#[test]
fn test_next_antinode() {
    let first = (4, 5);
    let second = (5, 7);

    assert_eq!(Some((3, 3)), next_antinode(first, second, 1, 2, 10, 10, Direction::NorthWest));

    assert_eq!(Some((6, 9)), next_antinode(first, second, 1, 2, 10, 10, Direction::SouthEast));

    let first = (4, 5);
    let second = (5, 2);

    assert_eq!(Some((3, 8)), next_antinode(first, second, 1, 3, 10, 10, Direction::NorthEast));

    assert_eq!(None, next_antinode(first, second, 1, 3, 10, 10, Direction::SouthWest));
}

#[test]
fn antinodes_stay_on_the_floor() {
    assert_eq!(None, next_antinode((0, 0), (1, 1), 1, 1, 3, 3, Direction::NorthWest));
    assert_eq!(Some((2, 2)), next_antinode((0, 0), (1, 1), 1, 1, 3, 3, Direction::SouthEast));
    assert_eq!(None, next_antinode((0, 0), (1, 1), 1, 1, 2, 3, Direction::SouthEast));
    assert_eq!(None, next_antinode((0, 0), (1, 1), usize::MAX, 1, 3, 3, Direction::SouthEast));
    assert_eq!(None, next_antinode((0, 2), (1, 1), 1, usize::MAX, 3, 3, Direction::NorthEast));
    assert_eq!(3, abs_diff(2, 5));
    assert_eq!(3, abs_diff(5, 2));
    assert_eq!(0, abs_diff(5, 5));
}

#[test]
fn pairs_of_antennas_make_antinodes() {
    // Three antennas of one kind on a floor of ten by ten.
    let coords = vec![(3, 4), (4, 8), (5, 5)];
    let mut found = antinode_coords(&coords, 10, 10);
    found.sort();
    assert_eq!(vec![(1, 3), (2, 0), (6, 2), (7, 6)], found);
    assert!(antinode_coords(&vec![(3, 4)], 10, 10).is_empty());
    assert!(antinode_coords(&vec![], 10, 10).is_empty());
}

const ROOF: [&str; 12] = [
    "............",
    "........0...",
    ".....0......",
    ".......0....",
    "....0.......",
    "......A.....",
    "............",
    "............",
    "........A...",
    ".........A..",
    "............",
    "............",
];

fn roof() -> Vec<Vec<char>> {
    ROOF.iter().map(|s| s.chars().collect()).collect()
}

#[test]
fn antennas_by_kind() {
    let mut found = find_antennas(&roof());
    found.sort();
    assert_eq!(
        vec![
            ('0', vec![(1, 8), (2, 5), (3, 7), (4, 4)]),
            ('A', vec![(5, 6), (8, 8), (9, 9)]),
        ],
        found
    );
    let odd: Vec<Vec<char>> = vec!["a.#".chars().collect(), "٣a".chars().collect()];
    let mut found = find_antennas(&odd);
    found.sort();
    assert_eq!(vec![('a', vec![(0, 0), (1, 1)]), ('٣', vec![(1, 0)])], found);
}

#[test]
fn antinodes_on_the_roof() {
    assert_eq!(14, count_antinodes(&roof(), false).unwrap());
    assert_eq!(34, count_antinodes(&roof(), true).unwrap());
    let lines: Vec<String> = ROOF.iter().map(|s| s.to_string()).collect();
    assert_eq!(14, Day8.run_part_1(lines.clone()).unwrap());
    assert_eq!(34, Day8.run_part_2(lines).unwrap());
    assert!(count_antinodes(&Vec::new(), false).is_err());
}

#[test]
fn resonant_antinodes_run_to_the_edge() {
    let mut found = antinode_coords_v2(&vec![(0, 0), (1, 3), (2, 1)], 10, 10);
    found.sort();
    assert_eq!(
        vec![(0, 0), (0, 5), (1, 3), (2, 1), (2, 6), (3, 9), (4, 2), (6, 3), (8, 4)],
        found
    );
    let mut found = antinode_coords_v2(&vec![(1, 1), (1, 1)], 3, 3);
    found.sort();
    assert_eq!(vec![(1, 1)], found);
    assert!(antinode_coords_v2(&vec![(1, 1)], 3, 3).is_empty());
}
