use advent::y2024::day21::{
    append_directions, cached_robot_dirs, controls, directions, directions_with_cache, find_key,
    generate_directions, keypad, left_directions, number_of, push_horizontal, push_vertical, relay,
    robot_dirs, total_complexity, up_directions, Cache, Day21,
};
use advent::AdventProblem;

fn chars(s: &str) -> Vec<char> {
    s.chars().collect()
}

fn text(v: Option<Vec<char>>) -> String {
    v.expect("presses").into_iter().collect()
}

#[test]
fn sample_1() {
    assert_eq!(68, robot_dirs(&chars("029A")).unwrap().len());
    assert_eq!(60, robot_dirs(&chars("980A")).unwrap().len());
    assert_eq!(68, robot_dirs(&chars("179A")).unwrap().len());
    assert_eq!(64, robot_dirs(&chars("456A")).unwrap().len());
    assert_eq!(64, robot_dirs(&chars("379A")).unwrap().len());
}

#[test]
fn presses_on_the_door() {
    assert_eq!("<A^A^^>AvvvA", text(directions(&chars("029A"), &keypad(), (0, 0))));
    assert_eq!("", text(directions(&chars(""), &keypad(), (0, 0))));
    assert_eq!(None, directions(&chars("02x"), &keypad(), (0, 0)));
    assert_eq!(None, directions(&chars("0"), &vec![('0', (0, 0))], (1, 1)));
}

#[test]
fn presses_round_the_gap() {
    // From the key A to the key 1 the way along the bottom row would cross
    // the gap, so the rows come first.
    assert_eq!("^<<", text(Some(append_directions((0, 2), (1, 0), (0, 0)))));
    // From the key 1 to the key 0 the way down the first column would
    // cross the gap, so the columns come first.
    assert_eq!(">v", text(Some(append_directions((1, 0), (0, 1), (0, 0)))));
    assert_eq!("<<^", text(Some(append_directions((0, 2), (1, 0), (3, 3)))));
    assert_eq!("^^>", text(Some(append_directions((0, 0), (2, 1), (5, 5)))));
    assert_eq!("vv>", text(Some(append_directions((2, 0), (0, 1), (5, 5)))));
    assert_eq!(">>", text(Some(append_directions((1, 0), (1, 2), (0, 0)))));
    assert_eq!("", text(Some(append_directions((1, 1), (1, 1), (0, 0)))));
}

#[test]
fn runs_of_presses() {
    let mut s = chars("x");
    push_horizontal(&mut s, (0, 0), (5, 3));
    push_vertical(&mut s, (0, 0), (2, 3));
    push_horizontal(&mut s, (0, 2), (0, 0));
    push_vertical(&mut s, (1, 0), (0, 3));
    push_vertical(&mut s, (1, 0), (1, 3));
    assert_eq!("x>>>^^<<v", s.into_iter().collect::<String>());
}

#[test]
fn rows_first_and_columns_first() {
    assert_eq!("<A^A^^>AvvvA", text(up_directions(&chars("029A"), &keypad())));
    assert_eq!("<A^A>^^AvvvA", text(left_directions(&chars("029A"), &keypad())));
    assert_eq!("^<<A", text(up_directions(&chars("1"), &keypad())));
    assert_eq!("<<^A", text(left_directions(&chars("1"), &keypad())));
    assert_eq!(None, up_directions(&chars("?"), &keypad()));
    assert!(generate_directions((1, 1), (1, 1)).is_empty());
    assert!(generate_directions((2, 1), (0, 0)).is_empty());
}

#[test]
fn keys_of_the_pads() {
    assert_eq!(Some((0, 2)), find_key(&keypad(), 'A'));
    assert_eq!(Some((3, 0)), find_key(&keypad(), '7'));
    assert_eq!(None, find_key(&keypad(), '^'));
    assert_eq!(Some((1, 2)), find_key(&controls(), 'A'));
    assert_eq!(Some((0, 0)), find_key(&controls(), '<'));
    assert_eq!(Some((9, 9)), find_key(&vec![('a', (1, 1)), ('a', (9, 9))], 'a'));
    assert_eq!(11, keypad().len());
    assert_eq!(5, controls().len());
}

#[test]
fn the_cache_changes_nothing() {
    let mut cache = Cache::new();
    let plain = directions(&chars("<A^A^^>AvvvA"), &controls(), (1, 0));
    let first = directions_with_cache(&chars("<A^A^^>AvvvA"), &controls(), (1, 0), &mut cache);
    let filled = cache.entries.len();
    let second = directions_with_cache(&chars("<A^A^^>AvvvA"), &controls(), (1, 0), &mut cache);
    assert_eq!(plain, first);
    assert_eq!(plain, second);
    assert_eq!(filled, cache.entries.len());
    assert_eq!(Some(0), cache.find('A', '<'));
    assert_eq!(None, cache.find('<', '<'));
    assert_eq!("v<<A>>^A<A>A<AAv>A^A<vAAA^>A", text(plain));
}

#[test]
fn robots_in_a_row() {
    assert_eq!(robot_dirs(&chars("029A")), relay(&chars("029A"), 2));
    assert_eq!(directions(&chars("029A"), &keypad(), (0, 0)), relay(&chars("029A"), 0));
    assert_eq!(28, relay(&chars("029A"), 1).unwrap().len());
    assert_eq!(None, relay(&chars("02B"), 3));
    assert_eq!(None, robot_dirs(&chars("x")));
    assert_eq!(None, cached_robot_dirs(&chars("x")));
}

#[test]
fn complexity_of_codes() {
    assert_eq!(Some(29), number_of(&chars("029A")));
    assert_eq!(Some(980), number_of(&chars("A9A8A0A")));
    assert_eq!(None, number_of(&chars("A")));
    assert_eq!(None, number_of(&chars("0x9A")));
    let codes: Vec<Vec<char>> =
        ["029A", "980A", "179A", "456A", "379A"].iter().map(|s| chars(s)).collect();
    assert_eq!(126384, total_complexity(&codes, 2).unwrap());
    assert_eq!(0, total_complexity(&Vec::new(), 2).unwrap());
    let typed = robot_dirs(&chars("12")).unwrap().len() as u32;
    assert_eq!(12 * typed, total_complexity(&vec![chars("12")], 2).unwrap());
    assert!(total_complexity(&vec![chars("1x")], 2).is_err());
    assert!(total_complexity(&vec![chars("A")], 2).is_err());
    let lines: Vec<String> =
        ["029A", "980A", "179A", "456A", "379A"].iter().map(|s| s.to_string()).collect();
    assert_eq!(126384, Day21.run_part_1(lines).unwrap());
}
