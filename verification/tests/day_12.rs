use aoc_2024::cells::LineIndex;
use aoc_2024::day_12::{find_bulk_fencing_price, find_fencing_price, FarmLand};

const SMALL: &str = "AAAA
BBCD
BBCC
EEEC
";

const HOLES: &str = "OOOOO
OXOXO
OOOOO
OXOXO
OOOOO
";

const LARGE: &str = "RRRRIICCFF
RRRRIICCCF
VVRRRCCFFF
VVRCCCJFFF
VVVVCJJCFE
VVIVCCJJEE
VVIIICJJEE
MIIIIIJJEE
MIIISIJEEE
MMMISSJEEE
";

#[test]
fn sample_fences_cost_140_772_and_1930() {
    assert_eq!(find_fencing_price(SMALL), Ok(140));
    assert_eq!(find_fencing_price(HOLES), Ok(772));
    assert_eq!(find_fencing_price(LARGE), Ok(1930));
}

#[test]
fn sample_fences_in_bulk_cost_80_436_and_1206() {
    assert_eq!(find_bulk_fencing_price(SMALL), Ok(80));
    assert_eq!(find_bulk_fencing_price(HOLES), Ok(436));
    assert_eq!(find_bulk_fencing_price(LARGE), Ok(1206));
}

#[test]
fn an_e_shaped_region_has_twelve_sides() {
    let text = "EEEEE\nEXXXX\nEEEEE\nEXXXX\nEEEEE\n";
    assert_eq!(find_bulk_fencing_price(text), Ok(236));
}

#[test]
fn regions_that_touch_at_a_corner_only_stay_apart() {
    let text = "AAAAAA\nAAABBA\nAAABBA\nABBAAA\nABBAAA\nAAAAAA\n";
    assert_eq!(find_bulk_fencing_price(text), Ok(368));
    assert_eq!(find_fencing_price("AB\nBA\n"), Ok(16));
    assert_eq!(find_bulk_fencing_price("AB\nBA\n"), Ok(16));
}

#[test]
fn empty_map_costs_nothing() {
    assert_eq!(find_fencing_price(""), Ok(0));
    assert_eq!(find_bulk_fencing_price(" \n\n"), Ok(0));
    assert_eq!(FarmLand::new().find_fence_price(false), Some(0));
}

#[test]
fn single_plot_costs_four() {
    assert_eq!(find_fencing_price("A"), Ok(4));
    assert_eq!(find_bulk_fencing_price("A"), Ok(4));
    assert_eq!(find_fencing_price("AA\n"), Ok(12));
    assert_eq!(find_bulk_fencing_price("AA\n"), Ok(8));
}

#[test]
fn white_space_round_the_map_is_dropped() {
    assert_eq!(find_fencing_price("\n\n  AA\nAA \n\n"), find_fencing_price("AA\nAA"));
    let farm = FarmLand::from_text(" \tAB\nCD\r\n\n");
    assert_eq!(farm.land, vec![vec!['A', 'B'], vec!['C', 'D']]);
}

#[test]
fn rows_of_different_lengths_are_taken_as_they_are() {
    assert_eq!(find_fencing_price("AAA\nA\n"), Ok(40));
    assert_eq!(find_bulk_fencing_price("AAA\nA\n"), Ok(20));
    assert_eq!(find_bulk_fencing_price("A\nAAA\n"), Ok(20));
    assert_eq!(find_bulk_fencing_price("AAA\nA.."), Ok(32));
}

#[test]
fn region_measures_are_area_perimeter_and_sides() {
    let farm = FarmLand::from_text(LARGE);
    let mut visited = LineIndex::new();
    visited.insert(0, 0);
    assert_eq!(farm.find_region_area_perimeter_side((0, 0), &mut visited), Some((12, 18, 10)));
    assert!(visited.contains(2, 4));
    assert!(visited.contains(3, 2));
    assert!(!visited.contains(0, 4));
    visited.insert(0, 4);
    assert_eq!(farm.find_region_area_perimeter_side((0, 4), &mut visited), Some((4, 8, 4)));
    visited.insert(0, 6);
    assert_eq!(farm.find_region_area_perimeter_side((0, 6), &mut visited), Some((14, 28, 22)));
    visited.insert(4, 7);
    assert_eq!(farm.find_region_area_perimeter_side((4, 7), &mut visited), Some((1, 4, 4)));
}

#[test]
fn is_in_map_goes_by_the_length_of_each_row() {
    let farm = FarmLand::from_text("AAA\nA\n");
    assert!(farm.is_in_map((0, 2)));
    assert!(farm.is_in_map((1, 0)));
    assert!(!farm.is_in_map((1, 1)));
    assert!(!farm.is_in_map((2, 0)));
    assert!(!farm.is_in_map((-1, 0)));
    assert!(!farm.is_in_map((0, -1)));
    assert!(farm.is_fit());
}
