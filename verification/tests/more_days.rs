use advent::y2024::day10::{compute_rating, compute_score, find_trailhead_ratings, find_trailheads, Day10};
use advent::y2024::day3::{parse_multiplications, parse_multiplications_with_switch, Day3};
use advent::y2024::day5::{print_total, Day5, Page, Request};
use advent::y2024::day9::{block_checksum, file_checksum, CompressedDiskMap, DiskMap};
use advent::AdventProblem;

fn chars(s: &str) -> Vec<char> {
    s.chars().collect()
}

fn text(lines: &[&str]) -> Vec<Vec<char>> {
    lines.iter().map(|s| s.chars().collect()).collect()
}

fn strings(lines: &[&str]) -> Vec<String> {
    lines.iter().map(|s| s.to_string()).collect()
}

/// The rules that say of each page which pages must be printed before it.
fn rules(dependencies: &[(u32, &[u32])]) -> Vec<(u32, u32)> {
    let mut out = Vec::new();
    for (page, before) in dependencies {
        for first in before.iter() {
            out.push((*first, *page));
        }
    }
    out
}

#[test]
fn parse_mul() {
    let input = "xmul(2,4)%&mul[3,7]!@^do_not_mul(5,5)+mul(32,64]then(mul(11,8)mul(8,5))";
    let factor = parse_multiplications(&chars(input));
    assert_eq!(2 * 4 + 5 * 5 + 11 * 8 + 8 * 5, factor);
}

#[test]
fn parse_mul_with_switch() {
    let input = "xmul(2,4)&mul[3,7]!^don't()_mul(5,5)+mul(32,64](mul(11,8)undo()?mul(8,5))";
    let (factor, _) = parse_multiplications_with_switch(&chars(input), true);
    assert_eq!(48, factor);
}

#[test]
fn multiplications_are_found() {
    assert_eq!(0, parse_multiplications(&chars("")));
    assert_eq!(0, parse_multiplications(&chars("mul(")));
    assert_eq!(0, parse_multiplications(&chars("mul(2,3")));
    // A multiplication at the very end lacks a character behind itself only
    // where it is not complete.
    assert_eq!(6, parse_multiplications(&chars("mul(2,3)")));
    assert_eq!(0, parse_multiplications(&chars("mul( 2,3)")));
    assert_eq!(0, parse_multiplications(&chars("mul(2,mul(3,3)")));
    assert_eq!(9, parse_multiplications(&chars("mul(2,xmul(3,3)")));
    assert_eq!(0, parse_multiplications(&chars("mul(99999999999,1)")));
    assert_eq!(1, parse_multiplications(&chars("mul(4294967295,4294967295)")));
    assert_eq!((0, false), parse_multiplications_with_switch(&chars("don't()mul(2,3)"), true));
    assert_eq!((6, true), parse_multiplications_with_switch(&chars("do()mul(2,3)"), false));
    assert_eq!((0, false), parse_multiplications_with_switch(&chars("mul(2,3)"), false));
    let lines = strings(&["mul(1,2)don't()mul(3,4)", "mul(5,6)do()mul(7,8)"]);
    assert_eq!(2 + 12 + 30 + 56, Day3.run(lines.clone(), 1).unwrap());
    assert_eq!(2 + 56, Day3.run(lines, 2).unwrap());
}

#[test]
fn valid_request() {
    let request = Request { pages: vec![75, 47, 61, 53, 29] };

    let rules = rules(&[
        (47, &[75, 97]),
        (53, &[13, 47, 61, 75, 97]),
        (61, &[47, 75, 97]),
        (29, &[47, 61, 75, 97, 29]),
        (97, &[75]),
    ]);

    assert!(request.is_valid(&rules));
}

#[test]
fn invalid_request() {
    let request = Request { pages: vec![75, 97, 47, 61, 53] };

    let rules = rules(&[
        (47, &[75, 97]),
        (53, &[13, 47, 61, 75, 97]),
        (61, &[47, 75, 97]),
        (29, &[47, 61, 75, 97, 29]),
        (75, &[97]),
    ]);

    assert!(!request.is_valid(&rules));
}

#[test]
fn swap() {
    let mut request = Request { pages: vec![75, 97, 47, 61, 53] };

    let rules = rules(&[
        (47, &[75, 97]),
        (53, &[13, 47, 61, 75, 97]),
        (61, &[47, 75, 97]),
        (29, &[47, 61, 75, 97, 29]),
        (75, &[97]),
    ]);

    request.fix(&rules);
    assert_eq!(vec![97, 75, 47, 61, 53], request.pages);
}

#[test]
fn print_requests_are_summed() {
    let lines = [
        "47|53", "97|13", "97|61", "97|47", "75|29", "61|13", "75|53", "29|13", "97|29", "53|29",
        "61|53", "97|53", "61|29", "47|13", "75|47", "97|75", "47|61", "75|61", "47|29", "75|13",
        "53|13", "", "75,47,61,53,29", "97,61,53,29,13", "75,29,13", "75,97,47,61,53", "61,13,29",
        "97,13,75,29,47",
    ];
    assert_eq!(143, print_total(&text(&lines), false).unwrap());
    assert_eq!(123, print_total(&text(&lines), true).unwrap());
    assert_eq!(143, Day5.run(strings(&lines), 1).unwrap());
    assert!(print_total(&text(&["47-53"]), false).is_err());
    assert!(print_total(&text(&["47|53", "", "1,x"]), false).is_err());
    assert_eq!(0, print_total(&text(&["47|53"]), false).unwrap());
    // Rules that run in a circle cannot be obeyed.
    let mut request = Request { pages: vec![1, 2] };
    assert!(!request.fix(&vec![(1, 2), (2, 1)]));
    assert_eq!(3, Request { pages: vec![1, 2, 3, 4] }.middle());
    let few = Page { num: 1, dependencies: vec![2] };
    let many = Page { num: 2, dependencies: vec![3, 4] };
    assert!(few.precedes(&many));
    assert!(!many.precedes(&few));
}

#[test]
fn mod_parse_disk() {
    let s = "2333133121414131402";
    let disk = DiskMap::from(&chars(s)).unwrap();
    assert_eq!(42, disk.data.len());
    assert_eq!(Some(0), disk.data[0]);
    assert_eq!(None, disk.data[2]);
    assert_eq!(Some(9), disk.data[41]);
    assert!(DiskMap::from(&chars("12a")).is_none());
}

#[test]
fn move_data() {
    let s = "2333133121414131402";
    let mut d = DiskMap::from(&chars(s)).unwrap();
    d.move_blocks();
    assert_eq!(1928, d.checksum());
}

#[test]
fn parse_data_compressed() {
    let s = "2333133121414131402";
    let disk = CompressedDiskMap::from(&chars(s)).unwrap();
    assert_eq!(19, disk.data.len());
    assert_eq!((Some(0), 2), disk.data[0]);
    assert_eq!((None, 3), disk.data[1]);
    assert_eq!((Some(9), 2), disk.data[18]);
    assert!(CompressedDiskMap::from(&chars("1 2")).is_none());
}

#[test]
fn move_data_compressed() {
    let s = "2333133121414131402";
    let mut d = CompressedDiskMap::from(&chars(s)).unwrap();
    d.move_blocks();
    assert_eq!(2858, d.checksum());
}

#[test]
fn disks_are_compacted() {
    let mut d = DiskMap { data: vec![None, Some(1), None, Some(2), Some(3), None] };
    d.move_blocks();
    assert_eq!(vec![Some(3), Some(1), Some(2), None, None, None], d.data);
    assert_eq!(0 * 3 + 1 * 1 + 2 * 2, d.checksum());
    let mut d = DiskMap { data: vec![] };
    d.move_blocks();
    assert_eq!(0, d.checksum());
    let mut d = DiskMap { data: vec![None] };
    d.move_blocks();
    assert_eq!(vec![None], d.data);
    let mut d = CompressedDiskMap { data: vec![] };
    d.move_blocks();
    assert_eq!(0, d.checksum());
    assert_eq!(1928, block_checksum(&text(&["2333133121414131402"])).unwrap());
    assert_eq!(2858, file_checksum(&text(&["2333133121414131402"])).unwrap());
    assert!(block_checksum(&text(&[])).is_err());
    assert!(file_checksum(&text(&["12x"])).is_err());
    // A file that does not fill its free space leaves a run behind it,
    // into which the next file goes.
    let mut d = CompressedDiskMap { data: vec![(Some(0), 1), (None, 3), (Some(1), 1), (Some(2), 2)] };
    d.move_blocks();
    assert_eq!(vec![(Some(0), 1), (Some(2), 2), (Some(1), 1), (None, 1), (None, 2)], d.data);
    // What a file leaves lengthens the free run that follows.
    let mut d = CompressedDiskMap { data: vec![(Some(0), 1), (None, 3), (None, 1), (Some(2), 2)] };
    d.move_blocks();
    assert_eq!(vec![(Some(0), 1), (Some(2), 2), (None, 2), (None, 2)], d.data);
}

#[test]
fn trails_are_scored_and_rated() {
    let lines = [
        "89010123", "78121874", "87430965", "96549874", "45678903", "32019012", "01329801",
        "10456732",
    ];
    let grid = text(&lines);
    let trailheads = find_trailheads(&grid);
    let total = trailheads.iter().map(|t| t.score).sum::<u32>();
    assert_eq!(36, total);

    let trailhead_ratings = find_trailhead_ratings(&grid);
    let total = trailhead_ratings.iter().map(|t| t.score).sum::<u32>();
    assert_eq!(81, total);
    assert_eq!(9, trailheads.len());
    assert_eq!((0, 2), trailheads[0].start);
    assert_eq!(5, trailheads[0].score);
    assert_eq!(20, trailhead_ratings[0].score);
    assert_eq!(5, compute_score(&grid, (0, 2), (8, 8)));
    assert_eq!(20, compute_rating(&grid, (0, 2), (8, 8)));
    assert_eq!(36, Day10.run(strings(&lines), 1).unwrap());
    assert_eq!(81, Day10.run(strings(&lines), 2).unwrap());
    assert_eq!(0, Day10.run(strings(&[]), 1).unwrap());
    assert!(find_trailheads(&text(&["0", "12"])).len() == 1);
}
