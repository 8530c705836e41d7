use aoc_2024::day_10::{find_total_distinct_trailheads, find_total_trailheads, Mountain};
use aoc_2024::text::InputError;

const SAMPLE: &str = "89010123
78121874
87430965
96549874
45678903
32019012
01329801
10456732
";

#[test]
fn sample_scores_36() {
    assert_eq!(find_total_trailheads(SAMPLE), Ok(36));
}

#[test]
fn sample_rates_81() {
    assert_eq!(find_total_distinct_trailheads(SAMPLE), Ok(81));
}

#[test]
fn small_map_has_one_trailhead_with_two_peaks() {
    let text = "...0...\n...1...\n...2...\n6543456\n7.....7\n8.....8\n9.....9\n";
    let map = Mountain::from_text(text);
    assert_eq!(map.peaks[0], vec![0]);
    assert_eq!(find_total_trailheads(text), Err(InputError::Malformed));
    let filled = "1110111\n1111111\n1112111\n6543456\n7111117\n8111118\n9111119\n";
    assert_eq!(find_total_trailheads(filled), Ok(2));
    assert_eq!(find_total_distinct_trailheads(filled), Ok(2));
}

#[test]
fn trails_that_meet_again_count_once_for_the_score() {
    let text = "012345\n123456\n234567\n345678\n416789\n567891\n";
    assert_eq!(find_total_distinct_trailheads(text), Ok(227));
    let twice = "0123\n1234\n8765\n9876\n";
    assert_eq!(find_total_trailheads(twice), Ok(1));
    assert_eq!(find_total_distinct_trailheads(twice), Ok(16));
}

#[test]
fn empty_map_has_no_trails() {
    assert_eq!(find_total_trailheads(""), Ok(0));
    assert_eq!(find_total_distinct_trailheads(""), Ok(0));
    assert!(Mountain::new().peaks.is_empty());
}

#[test]
fn uneven_height_rows_are_malformed() {
    assert_eq!(find_total_trailheads("012\n34\n"), Err(InputError::Malformed));
    assert_eq!(find_total_distinct_trailheads("0\n\n1\n"), Err(InputError::Malformed));
}

#[test]
fn characters_that_are_no_digits_are_passed_over() {
    let map = Mountain::from_text("0a1 2\n-345\n");
    assert_eq!(map.peaks, vec![vec![0, 1, 2], vec![3, 4, 5]]);
    assert!(map.is_even());
}

#[test]
fn find_reachable_peaks_lists_one_end_for_each_trail() {
    let map = Mountain::from_text("0123\n1234\n8765\n9876\n");
    let ends = map.find_reachable_peaks((0, 0));
    assert_eq!(ends.len(), 16);
    assert!(ends.iter().all(|end| *end == (3, 0)));
    assert_eq!(map.find_reachable_peaks((3, 0)), vec![(3, 0)]);
    assert_eq!(map.find_reachable_peaks((3, 3)), vec![(3, 0)]);
    let flat = Mountain::from_text("00\n00\n");
    assert_eq!(flat.find_reachable_peaks((0, 0)), Vec::<(i64, i64)>::new());
    assert_eq!(map.find_reachable_peaks((2, 0)), vec![(3, 0)]);
}

#[test]
fn neighbours_are_tried_above_left_right_below() {
    let map = Mountain::from_text("898\n989\n898\n");
    assert_eq!(map.find_reachable_peaks((1, 1)), vec![(0, 1), (1, 0), (1, 2), (2, 1)]);
}

#[test]
fn is_in_mountain_tells_the_bounds() {
    let map = Mountain::from_text("012\n345\n");
    assert!(map.is_in_mountain((0, 0)));
    assert!(map.is_in_mountain((1, 2)));
    assert!(!map.is_in_mountain((2, 0)));
    assert!(!map.is_in_mountain((0, 3)));
    assert!(!map.is_in_mountain((-1, 0)));
    assert!(!map.is_in_mountain((0, -1)));
    assert!(!Mountain::new().is_in_mountain((0, 0)));
}

#[test]
fn heights_above_nine_are_refused() {
    let map = Mountain { peaks: vec![vec![0, 1], vec![2, 10]] };
    assert!(!map.is_even());
    let map = Mountain { peaks: vec![vec![0, 1], vec![2, 9]] };
    assert!(map.is_even());
}
