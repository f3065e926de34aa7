use advent::y2023::day3::{
    check_schematic, compute_adj_coords, is_symbol, parts_of_gear, read_span, sum_gears, sum_parts,
    symbol_beside, Coordinate, Day3,
};
use advent::y2023::day4::{
    count_cards, parse_numeric_sequence, read_cards, total_points, Counts, Day4, ScratchCard,
};
use advent::AdventProblem;

const ENGINE: [&str; 10] = [
    "467..114..",
    "...*......",
    "..35..633.",
    "......#...",
    "617*......",
    ".....+.58.",
    "..592.....",
    "......755.",
    "...$.*....",
    ".664.598..",
];

const CARDS: [&str; 6] = [
    "Card 1: 41 48 83 86 17 | 83 86  6 31 17  9 48 53",
    "Card 2: 13 32 20 16 61 | 61 30 68 82 17 32 24 19",
    "Card 3:  1 21 53 59 44 | 69 82 63 72 16 21 14  1",
    "Card 4: 41 92 73 84 69 | 59 84 76 51 58  5 54 83",
    "Card 5: 87 83 26 28 32 | 88 30 70 12 93 22 82 36",
    "Card 6: 31 18 13 56 72 | 74 77 10 23 35 67 36 11",
];

fn grid_of(lines: &[&str]) -> Vec<Vec<char>> {
    lines.iter().map(|s| s.chars().collect()).collect()
}

fn strings_of(lines: &[&str]) -> Vec<String> {
    lines.iter().map(|s| s.to_string()).collect()
}

#[test]
fn part_numbers_of_the_engine() {
    assert_eq!(4361, sum_parts(&grid_of(&ENGINE)).unwrap());
    assert_eq!(4361, Day3.run_part_1(strings_of(&ENGINE)).unwrap());
    assert_eq!(0, sum_parts(&grid_of(&["12.34", "....."])).unwrap());
    assert_eq!(46, sum_parts(&grid_of(&["12.34", "..#.."])).unwrap());
    assert_eq!(12, sum_parts(&grid_of(&["12.34", ".#..."])).unwrap());
    // A number of the value 0 does not count.
    assert_eq!(7, sum_parts(&grid_of(&["...", "0#7"])).unwrap());
}

#[test]
fn gears_of_the_engine() {
    assert_eq!(467835, sum_gears(&grid_of(&ENGINE)).unwrap());
    assert_eq!(467835, Day3.run_part_2(strings_of(&ENGINE)).unwrap());
    let grid = grid_of(&ENGINE);
    assert_eq!(vec![467, 35], parts_of_gear(&grid, Coordinate { row: 1, col: 3 }));
    assert_eq!(vec![617], parts_of_gear(&grid, Coordinate { row: 4, col: 3 }));
    assert_eq!(vec![755, 598], parts_of_gear(&grid, Coordinate { row: 8, col: 5 }));
    assert!(parts_of_gear(&grid, Coordinate { row: 3, col: 6 }).is_empty());
    // Two numbers of one value count once.
    assert_eq!(0, sum_gears(&grid_of(&[".....", "5.*.5", "....."])).unwrap());
    assert_eq!(0, sum_gears(&grid_of(&["...", "5*5"])).unwrap());
    assert_eq!(30, sum_gears(&grid_of(&["...", "5*6"])).unwrap());
    assert_eq!(0, sum_gears(&grid_of(&["..2", "5*6"])).unwrap());
}

#[test]
fn schematics_that_are_none() {
    assert!(sum_parts(&Vec::new()).is_err());
    assert!(sum_gears(&Vec::new()).is_err());
    assert!(sum_parts(&grid_of(&["12", "3"])).is_err());
    assert!(sum_parts(&grid_of(&["1#2", "..."])).is_err());
    assert!(sum_gears(&grid_of(&["...", "*12"])).is_err());
    assert!(!check_schematic(&grid_of(&["...", "*12"])));
    assert!(check_schematic(&grid_of(&["...", ".*2"])));
    assert!(compute_adj_coords(&grid_of(&["#"])).is_none());
}

#[test]
fn symbols_beside_places() {
    let grid = grid_of(&["....", ".#.*", "...."]);
    let seen = symbol_beside(&grid, 0, 2).unwrap();
    assert_eq!((seen.location, seen.value), (Coordinate { row: 1, col: 1 }, '#'));
    let seen = symbol_beside(&grid, 2, 3).unwrap();
    assert_eq!((seen.location, seen.value), (Coordinate { row: 1, col: 3 }, '*'));
    assert!(symbol_beside(&grid, 5, 5).is_none());
    assert!(symbol_beside(&grid, usize::MAX, usize::MAX).is_none());
    let table = compute_adj_coords(&grid).unwrap();
    assert_eq!(3, table.len());
    assert!(table.iter().all(|line| line.len() == 4));
    assert_eq!(Coordinate { row: 1, col: 1 }, table[1][2].unwrap().location);
    assert_eq!(Coordinate { row: 1, col: 3 }, table[1][3].unwrap().location);
    assert!(table[0][3].unwrap().value == '*');
    let lone = compute_adj_coords(&grid_of(&["...", "...", "..+"])).unwrap();
    assert!(lone[0][0].is_none() && lone[0][1].is_none() && lone[1][0].is_none());
    assert_eq!('+', lone[1][1].unwrap().value);
    assert!(is_symbol('#') && is_symbol('a') && !is_symbol('.') && !is_symbol('7'));
}

#[test]
fn numbers_in_a_line() {
    let line: Vec<char> = "12.a345".chars().collect();
    assert_eq!((12, 2), read_span(&line, 0));
    assert_eq!((2, 2), read_span(&line, 1));
    assert_eq!((0, 2), read_span(&line, 2));
    assert_eq!((345, 7), read_span(&line, 4));
    assert_eq!((0, 7), read_span(&line, 7));
    let long: Vec<char> = "4294967296".chars().collect();
    assert_eq!((0, 10), read_span(&long, 0));
}

#[test]
fn points_of_the_cards() {
    let cards = read_cards(&strings_of(&CARDS)).unwrap();
    assert_eq!(vec![4, 2, 2, 1, 0, 0], cards.iter().map(|c| c.matches()).collect::<Vec<u32>>());
    assert_eq!(vec![8, 2, 2, 1, 0, 0], cards.iter().map(|c| c.score()).collect::<Vec<u32>>());
    assert_eq!(13, total_points(&cards));
    assert_eq!(13, Day4.run_part_1(strings_of(&CARDS)).unwrap());
    let many = ScratchCard { id: 1, winning_nums: (0..40).collect(), draw: (0..40).collect() };
    assert_eq!(40, many.matches());
    assert_eq!(0, many.score());
    let most = ScratchCard { id: 1, winning_nums: (0..32).collect(), draw: (0..32).collect() };
    assert_eq!(0x8000_0000, most.score());
}

#[test]
fn copies_of_the_cards() {
    let cards = read_cards(&strings_of(&CARDS)).unwrap();
    assert_eq!(30, count_cards(&cards));
    assert_eq!(30, Day4.run_part_2(strings_of(&CARDS)).unwrap());
    assert_eq!(0, count_cards(&Vec::new()));
    // A card whose number is none of the first numbers counts nothing,
    // and a card that it wins comes in with two copies.
    let odd = vec![
        ScratchCard { id: 7, winning_nums: vec![1], draw: vec![1] },
        ScratchCard { id: 8, winning_nums: vec![], draw: vec![] },
    ];
    assert_eq!(2, count_cards(&odd));
    let lone = vec![ScratchCard { id: 7, winning_nums: vec![1], draw: vec![1] }];
    assert_eq!(0, count_cards(&lone));
    let won = vec![
        ScratchCard { id: 2, winning_nums: vec![1], draw: vec![1] },
        ScratchCard { id: 3, winning_nums: vec![], draw: vec![] },
    ];
    assert_eq!(1 + 2, count_cards(&won));
}

#[test]
fn reading_a_card() {
    let card = ScratchCard::read("Card  12: 41 48  7 41 | 83  86 6 83 x 9").unwrap();
    assert_eq!(12, card.id);
    assert_eq!(vec![41, 48, 7], card.winning_nums);
    assert_eq!(vec![83, 86, 6], card.draw);
    assert!(ScratchCard::read("Card x: 1 | 2").is_none());
    assert!(ScratchCard::read("Card 99999999999: 1 | 2").is_none());
    assert!(ScratchCard::read("").is_none());
    assert!(read_cards(&strings_of(&["Card 1: 1 | 1", "nothing"])).is_none());
    assert!(Day4.run_part_1(strings_of(&["nothing"])).is_err());
    assert!(Day4.run_part_2(strings_of(&["nothing"])).is_err());
    let seq: Vec<char> = "  5 12  5 a 7 ".chars().collect();
    assert_eq!(vec![5, 12, 7], parse_numeric_sequence(&seq));
}

#[test]
fn counts_by_number() {
    let mut counts = Counts::new();
    assert_eq!(None, counts.get(3));
    counts.insert(3, 1);
    counts.insert(4, 9);
    counts.insert(3, 5);
    assert_eq!(Some(5), counts.get(3));
    assert_eq!(Some(9), counts.get(4));
    assert_eq!(None, counts.get(5));
    assert_eq!(2, counts.entries.len());
}
