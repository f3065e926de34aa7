use advent::y2024::day12::{
    count_corners, count_fences, discover_plot, discover_sides, find_plots, price_garden, Day12,
    Plot,
};
use advent::AdventProblem;

fn garden_of(lines: &[&str]) -> Vec<Vec<char>> {
    lines.iter().map(|s| s.chars().collect()).collect()
}

fn lines_of(lines: &[&str]) -> Vec<String> {
    lines.iter().map(|s| s.to_string()).collect()
}

const LARGE: [&str; 10] = [
    "RRRRIICCFF",
    "RRRRIICCCF",
    "VVRRRCCFFF",
    "VVRCCCJFFF",
    "VVVVCJJCFE",
    "VVIVCCJJEE",
    "VVIIICJJEE",
    "MIIIIIJJEE",
    "MIIISIJEEE",
    "MMMISSJEEE",
];

#[test]
fn small_plot_measure() {
    let garden = ["AAAA", "BBCD", "BBCC", "EEEC"];
    let grid = garden_of(&garden);
    let plots = find_plots(grid, false);
    let price = plots.iter().map(|p| p.price()).sum::<u32>();
    assert_eq!(140, price);
}

#[test]
fn small_plot_corners() {
    let garden = ["AAAA", "BBCD", "BBCC", "EEEC"];
    let grid = garden_of(&garden);
    let plots = find_plots(grid, true);
    let price = plots.iter().map(|p| p.price()).sum::<u32>();
    assert_eq!(80, price);
}

#[test]
fn plots_come_in_reading_order() {
    let grid = garden_of(&["AAAA", "BBCD", "BBCC", "EEEC"]);
    let plots = find_plots(grid, false);
    let seen: Vec<(char, u32, u32)> = plots.iter().map(|p| (p.plant, p.area, p.measure)).collect();
    assert_eq!(
        vec![('A', 4, 10), ('B', 4, 8), ('C', 4, 10), ('D', 1, 4), ('E', 3, 8)],
        seen
    );
    let grid = garden_of(&["AAAA", "BBCD", "BBCC", "EEEC"]);
    let sides: Vec<(char, u32, u32)> =
        find_plots(grid, true).iter().map(|p| (p.plant, p.area, p.measure)).collect();
    assert_eq!(
        vec![('A', 4, 4), ('B', 4, 4), ('C', 4, 8), ('D', 1, 4), ('E', 3, 4)],
        sides
    );
}

#[test]
fn plots_inside_plots() {
    let garden = ["OOOOO", "OXOXO", "OOOOO", "OXOXO", "OOOOO"];
    assert_eq!(772, price_garden(garden_of(&garden), false).unwrap());
    assert_eq!(436, price_garden(garden_of(&garden), true).unwrap());
}

#[test]
fn sides_of_crooked_plots() {
    let e_shape = ["EEEEE", "EXXXX", "EEEEE", "EXXXX", "EEEEE"];
    assert_eq!(236, price_garden(garden_of(&e_shape), true).unwrap());
    let touching = ["AAAAAA", "AAABBA", "AAABBA", "ABBAAA", "ABBAAA", "AAAAAA"];
    assert_eq!(368, price_garden(garden_of(&touching), true).unwrap());
}

#[test]
fn large_garden() {
    assert_eq!(1930, price_garden(garden_of(&LARGE), false).unwrap());
    assert_eq!(1206, price_garden(garden_of(&LARGE), true).unwrap());
    assert_eq!(1930, Day12.run_part_1(lines_of(&LARGE)).unwrap());
    assert_eq!(1206, Day12.run_part_2(lines_of(&LARGE)).unwrap());
}

#[test]
fn discovering_marks_the_plot() {
    let mut grid = garden_of(&["AAB", "ABB"]);
    let plot = discover_plot(&mut grid, (0, 0));
    assert_eq!((plot.plant, plot.area, plot.measure), ('A', 3, 8));
    assert_eq!(plot.price(), 24);
    let mut grid = garden_of(&["AAB", "ABB"]);
    let plot = discover_sides(&mut grid, (0, 2));
    assert_eq!((plot.plant, plot.area, plot.measure), ('B', 3, 6));
}

#[test]
fn fences_and_corners_of_one_place() {
    let grid = garden_of(&["AAB", "ABB"]);
    assert_eq!(2, count_fences(&grid, (0, 0), (2, 3), 'A'));
    assert_eq!(3, count_fences(&grid, (1, 0), (2, 3), 'A'));
    assert_eq!(2, count_corners(&grid, (0, 0), (2, 3), 'A'));
    assert_eq!(2, count_corners(&grid, (1, 0), (2, 3), 'A'));
    assert_eq!(2, count_corners(&grid, (0, 1), (2, 3), 'A'));
    let lone = Plot { plant: 'x', area: 1, measure: 4 };
    assert_eq!(4, lone.price());
}

#[test]
fn ragged_garden_is_refused() {
    assert!(price_garden(garden_of(&["AA", "A"]), false).is_err());
    assert!(price_garden(Vec::new(), false).is_err());
}
