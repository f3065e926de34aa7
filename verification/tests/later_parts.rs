use advent::y2024::day11::{count_after, count_many, Day11};
use advent::y2024::day18::{cutoff_after_kilobyte, find_cutoff, parse_lines, Cutoff, Day18};
use advent::y2024::day22::{banana_prices, best_price, next_secret_number, Day22};
use advent::AdventProblem;
use std::collections::HashMap;

fn text_of(lines: &[&str]) -> Vec<Vec<char>> {
    lines.iter().map(|s| s.chars().collect()).collect()
}

fn strings_of(lines: &[&str]) -> Vec<String> {
    lines.iter().map(|s| s.to_string()).collect()
}

const BYTES: [&str; 25] = [
    "5,4", "4,2", "4,5", "3,0", "2,1", "6,3", "2,4", "1,5", "0,6", "3,3", "2,6", "5,1", "1,2",
    "5,5", "2,5", "6,5", "1,4", "0,4", "6,4", "1,1", "6,1", "1,0", "0,5", "1,6", "2,0",
];

#[test]
fn stones_counted_by_their_numbers() {
    assert_eq!(Some(2), count_after(&vec![125, 17], 0));
    assert_eq!(Some(3), count_after(&vec![125, 17], 1));
    assert_eq!(Some(22), count_after(&vec![125, 17], 6));
    assert_eq!(Some(55312), count_after(&vec![125, 17], 25));
    assert_eq!(Some(65601038650482), count_after(&vec![125, 17], 75));
    assert_eq!(Some(0), count_after(&vec![], 75));
    assert_eq!(Some(2), count_after(&vec![0, 0], 2));
    assert_eq!(Some(4), count_after(&vec![0, 0], 3));
    // 2^63 has an odd count of digits, and 2024 times as much leaves 64 bits.
    assert_eq!(Some(1), count_after(&vec![1 << 63], 0));
    assert_eq!(None, count_after(&vec![1 << 63], 1));
    assert_eq!(None, count_after(&vec![7, 1 << 63], 3));
}

#[test]
fn stones_of_the_first_line() {
    assert_eq!(55312, count_many(&text_of(&["125 17"]), 25).unwrap());
    assert_eq!(22, count_many(&text_of(&["125 17", "ignored"]), 6).unwrap());
    assert!(count_many(&text_of(&["125 x"]), 6).is_err());
    assert!(count_many(&Vec::new(), 6).is_err());
    assert!(count_many(&text_of(&["9223372036854775808"]), 1).is_err());
    assert_eq!(0, Day11.run_part_2(strings_of(&["125 17"])).unwrap());
    assert!(Day11.run_part_2(strings_of(&["12a"])).is_err());
}

#[test]
fn the_byte_that_cuts_off_the_way() {
    let lines = text_of(&BYTES);
    let grid = parse_lines(&lines, 12, (6, 6)).unwrap();
    assert_eq!(Cutoff::Blocked(20), find_cutoff(&lines, grid, 12, (6, 6)));
    let grid = parse_lines(&lines, 12, (6, 6)).unwrap();
    assert_eq!(Cutoff::Blocked(20), find_cutoff(&lines, grid, 0, (6, 6)));
    let grid = parse_lines(&lines, 12, (6, 6)).unwrap();
    assert_eq!(Cutoff::Open, find_cutoff(&lines, grid, 25, (6, 6)));
    let grid = parse_lines(&lines, 0, (6, 6)).unwrap();
    assert_eq!(Cutoff::Open, find_cutoff(&text_of(&BYTES[..12]), grid, 0, (6, 6)));
    let grid = parse_lines(&lines, 0, (6, 6)).unwrap();
    assert_eq!(Cutoff::Unreadable(1), find_cutoff(&text_of(&["1,1", "7,0"]), grid, 0, (6, 6)));
    let grid = parse_lines(&lines, 0, (6, 6)).unwrap();
    assert_eq!(Cutoff::Unreadable(0), find_cutoff(&text_of(&["a,1"]), grid, 0, (6, 6)));
    // A byte on the corner itself cuts off the way.
    let grid = parse_lines(&lines, 0, (6, 6)).unwrap();
    assert_eq!(Cutoff::Blocked(0), find_cutoff(&text_of(&["6,6"]), grid, 0, (6, 6)));
}

#[test]
fn bytes_after_the_first_kilobyte() {
    assert_eq!(Some(Cutoff::Open), cutoff_after_kilobyte(&text_of(&BYTES)));
    assert_eq!(None, cutoff_after_kilobyte(&text_of(&["71,0"])));
    assert_eq!(0, Day18.run_part_2(strings_of(&BYTES)).unwrap());
    assert!(Day18.run_part_2(strings_of(&["1,2", "x"])).is_err());
    // The line 1024 is passed over, and the lines from 1025 on fall.
    let mut lines: Vec<String> = (0..1025).map(|_| "5,5".to_string()).collect();
    lines[1024] = "nothing".to_string();
    lines.push("1,0".to_string());
    lines.push("0,1".to_string());
    lines.push("9,9".to_string());
    let text: Vec<Vec<char>> = lines.iter().map(|s| s.chars().collect()).collect();
    assert_eq!(Some(Cutoff::Blocked(1026)), cutoff_after_kilobyte(&text));
}

fn prices_by_changes(n: u64) -> HashMap<(i64, i64, i64, i64), u64> {
    let mut secrets = vec![n];
    for _ in 0..2000 {
        secrets.push(next_secret_number(*secrets.last().unwrap()));
    }
    let change = |j: usize| (secrets[j + 1] % 10) as i64 - (secrets[j] % 10) as i64;
    let mut prices = HashMap::new();
    for j in 3..2000 {
        let seq = (change(j - 3), change(j - 2), change(j - 1), change(j));
        let price = secrets[j + 1] % 10;
        if price > 0 && !prices.contains_key(&seq) {
            prices.insert(seq, price);
        }
    }
    prices
}

fn row(seq: (i64, i64, i64, i64)) -> usize {
    ((((seq.0 + 9) * 19 + (seq.1 + 9)) * 19 + (seq.2 + 9)) * 19 + (seq.3 + 9)) as usize
}

#[test]
fn prices_of_bananas() {
    for n in [1u64, 2, 3, 123, 2024] {
        let table = banana_prices(n);
        assert_eq!(130321, table.len());
        let want = prices_by_changes(n);
        let mut noted = 0;
        for (seq, price) in &want {
            assert_eq!(*price, table[row(*seq)]);
            noted += 1;
        }
        assert_eq!(noted, table.iter().filter(|p| **p > 0).count());
    }
    assert_eq!(7, banana_prices(1)[row((-2, 1, -1, 3))]);
    assert_eq!(7, banana_prices(2)[row((-2, 1, -1, 3))]);
    assert_eq!(0, banana_prices(3)[row((-2, 1, -1, 3))]);
    assert_eq!(9, banana_prices(2024)[row((-2, 1, -1, 3))]);
}

#[test]
fn the_best_price_of_bananas() {
    let mut totals: HashMap<(i64, i64, i64, i64), u64> = HashMap::new();
    for n in [1u64, 2, 3, 2024] {
        for (seq, price) in prices_by_changes(n) {
            *totals.entry(seq).or_insert(0) += price;
        }
    }
    let want = *totals.values().max().unwrap();
    assert!(want >= 23);
    assert_eq!(want, best_price(&text_of(&["1", "2", "3", "2024"])).unwrap());
    assert!(best_price(&Vec::new()).is_err());
    assert!(best_price(&text_of(&["1", "x"])).is_err());
    assert_eq!(0, Day22.run_part_2(strings_of(&["1", "2", "3", "2024"])).unwrap());
    assert!(Day22.run_part_2(strings_of(&["1", ""])).is_err());
    assert!(Day22.run_part_2(Vec::new()).is_err());
}
