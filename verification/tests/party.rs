use advent::y2024::day23::{
    build_neighbors, count_sets, largest_party, network_of, read_pairs, Day23,
};
use advent::AdventProblem;

const LINKS: [&str; 32] = [
    "kh-tc", "qp-kh", "de-cg", "ka-co", "yn-aq", "qp-ub", "cg-tb", "vc-aq", "tb-ka", "wh-tc",
    "yn-cg", "kh-ub", "ta-co", "de-co", "tc-td", "tb-wq", "wh-td", "ta-ka", "td-qp", "aq-cg",
    "wq-ub", "ub-vc", "de-ta", "wq-aq", "wq-vc", "wh-yn", "ka-de", "kh-ta", "co-tc", "wh-qp",
    "tb-vc", "td-yn",
];

fn text_of(lines: &[&str]) -> Vec<Vec<char>> {
    lines.iter().map(|s| s.chars().collect()).collect()
}

fn name(s: &str) -> Vec<char> {
    s.chars().collect()
}

#[test]
fn sets_of_three_computers() {
    assert_eq!(7, count_sets(&text_of(&LINKS)).unwrap());
    let lines: Vec<String> = LINKS.iter().map(|s| s.to_string()).collect();
    assert_eq!(7, Day23.run_part_1(lines.clone()).unwrap());
    assert_eq!(0, Day23.run_part_2(lines).unwrap());
    assert_eq!(0, count_sets(&Vec::new()).unwrap());
    assert_eq!(1, count_sets(&text_of(&["ta-b", "b-c", "c-ta"])).unwrap());
    assert_eq!(0, count_sets(&text_of(&["a-b", "b-c", "c-a"])).unwrap());
    assert_eq!(0, count_sets(&text_of(&["ta-b", "b-c", "c-d"])).unwrap());
    // The same link in both directions, and twice, is one link.
    assert_eq!(1, count_sets(&text_of(&["a-b", "b-a", "b-tc", "tc-a", "a-b"])).unwrap());
    // A computer that is linked to itself makes a set with itself.
    assert_eq!(1, count_sets(&text_of(&["t-t"])).unwrap());
    assert_eq!(2, count_sets(&text_of(&["t-t", "t-a"])).unwrap());
}

#[test]
fn lines_that_link_nothing() {
    assert!(count_sets(&text_of(&["a-b", "ab"])).is_err());
    assert!(build_neighbors(&text_of(&[""])).is_none());
    assert!(read_pairs(&text_of(&["abc"])).is_none());
    assert!(largest_party(&text_of(&["abc"])).is_none());
    assert!(Day23.run_part_1(vec!["x".to_string()]).is_err());
    assert!(Day23.run_part_2(vec!["x".to_string()]).is_err());
    let pairs = read_pairs(&text_of(&["a-b-c", "-", "x--y"])).unwrap();
    assert_eq!(
        vec![(name("a"), name("b")), (name(""), name("")), (name("x"), name(""))],
        pairs
    );
}

#[test]
fn the_network_of_links() {
    let pairs = read_pairs(&text_of(&["b-a", "c-b", "a-b"])).unwrap();
    let net = network_of(&pairs);
    assert_eq!(vec![name("b"), name("a"), name("c")], net.names);
    assert_eq!(
        vec![
            vec![false, true, true],
            vec![true, false, false],
            vec![true, false, false],
        ],
        net.links
    );
    assert!(net.is_joined(0, 2) && !net.is_joined(1, 2));
    assert_eq!(vec![0, 1], net.grow_group(0));
    assert_eq!(vec![1, 0], net.grow_group(1));
    assert_eq!(vec![2, 0], net.grow_group(2));
    assert_eq!(vec![0, 1], net.biggest_group());
    assert_eq!(0, net.count_triples());
}

#[test]
fn a_party_is_linked_throughout() {
    let net = build_neighbors(&text_of(&LINKS)).unwrap();
    let group = net.biggest_group();
    assert!(group.len() >= 3 && group.len() <= 4);
    for a in 0..group.len() {
        for b in (a + 1)..group.len() {
            assert!(net.is_joined(group[a], group[b]));
        }
    }
    for node in 0..net.names.len() {
        assert!(net.grow_group(node).len() <= group.len());
    }
    let party = largest_party(&text_of(&LINKS)).unwrap();
    let names: Vec<Vec<char>> = group.iter().map(|i| net.names[*i].clone()).collect();
    assert_eq!(names, party);
    let whole = largest_party(&text_of(&["a-b", "b-c", "c-a", "c-d"])).unwrap();
    assert_eq!(vec![name("a"), name("b"), name("c")], whole);
    assert!(largest_party(&Vec::new()).unwrap().is_empty());
}
