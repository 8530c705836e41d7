use aoc_2024::day_8::{find_all_antinodes, find_all_extended_antinodes, is_even, Antennas};
use aoc_2024::text::InputError;

const SAMPLE: &str = "............
........0...
.....0......
.......0....
....0.......
......A.....
............
............
........A...
.........A..
............
............
";

fn grid_of(text: &str) -> Vec<Vec<char>> {
    text.lines().map(|line| line.chars().collect()).collect()
}

#[test]
fn sample_has_14_antinodes() {
    assert_eq!(find_all_antinodes(SAMPLE), Ok(14));
}

#[test]
fn sample_has_34_extended_antinodes() {
    assert_eq!(find_all_extended_antinodes(SAMPLE), Ok(34));
}

#[test]
fn three_antennas_in_a_row_of_ts() {
    let text = "T.........
...T......
.T........
..........
..........
..........
..........
..........
..........
..........
";
    assert_eq!(find_all_extended_antinodes(text), Ok(9));
}

#[test]
fn grid_without_pairs_has_no_antinodes() {
    assert_eq!(find_all_antinodes(""), Ok(0));
    assert_eq!(find_all_extended_antinodes(""), Ok(0));
    assert_eq!(find_all_antinodes("a.b\n.c.\n"), Ok(0));
    assert_eq!(find_all_extended_antinodes("..\n.a\n"), Ok(0));
}

#[test]
fn uneven_antenna_rows_are_malformed() {
    assert_eq!(find_all_antinodes("a..\n.a\n"), Err(InputError::Malformed));
    assert_eq!(find_all_extended_antinodes("a\n\n"), Err(InputError::Malformed));
    assert!(is_even(&grid_of("ab\ncd\n")));
    assert!(!is_even(&grid_of("ab\nc\n")));
    assert!(is_even(&Vec::new()));
}

#[test]
fn a_pair_throws_one_antinode_beyond_each_antenna() {
    let text = "a..\n.a.\n...\n";
    let antennas = Antennas::new(grid_of(text));
    let nodes = antennas.find_antinodes(Some(1), 1).unwrap();
    assert_eq!(nodes.len(), 1);
    assert!(nodes.contains((2, 2)));
    let text = ".......\n..a....\n...a...\n.......\n.......\n";
    let antennas = Antennas::new(grid_of(text));
    let nodes = antennas.find_antinodes(Some(1), 1).unwrap();
    assert_eq!(nodes.len(), 2);
    assert!(nodes.contains((1, 0)));
    assert!(nodes.contains((4, 3)));
}

#[test]
fn jumps_from_zero_count_the_antennas_themselves() {
    let text = "a..a......\n";
    let antennas = Antennas::new(grid_of(text));
    let nodes = antennas.find_antinodes(None, 0).unwrap();
    assert_eq!(nodes.len(), 4);
    for column in [0, 3, 6, 9] {
        assert!(nodes.contains((column, 0)));
    }
    let nodes = antennas.find_antinodes(Some(2), 2).unwrap();
    assert_eq!(nodes.len(), 1);
    assert!(nodes.contains((9, 0)));
    let nodes = antennas.find_antinodes(Some(0), 1).unwrap();
    assert_eq!(nodes.len(), 0);
    let nodes = antennas.find_antinodes(None, u64::MAX).unwrap();
    assert_eq!(nodes.len(), 0);
}

#[test]
fn only_letters_and_numbers_are_antennas() {
    let antennas = Antennas::new(grid_of("a#a\n.\u{e9}5\n#..\n"));
    assert_eq!(antennas.antennas.len(), 3);
    assert_eq!(antennas.antennas[&('a' as u32)], vec![(0, 0), (2, 0)]);
    assert_eq!(antennas.antennas[&('\u{e9}' as u32)], vec![(1, 1)]);
    assert_eq!(antennas.antennas[&('5' as u32)], vec![(2, 1)]);
    assert_eq!(find_all_extended_antinodes("#.#\n"), Ok(0));
    assert_eq!(find_all_extended_antinodes("A.a\n"), Ok(0));
}

#[test]
fn antenna_pairs_stand_both_ways_round() {
    let antennas = Antennas::new(grid_of("a.a\nb.a\n"));
    let mut pairs = antennas.get_antenna_pairs();
    pairs.sort();
    assert_eq!(
        pairs,
        vec![
            ((0, 0), (2, 0)),
            ((0, 0), (2, 1)),
            ((2, 0), (0, 0)),
            ((2, 0), (2, 1)),
            ((2, 1), (0, 0)),
            ((2, 1), (2, 0)),
        ]
    );
}

#[test]
fn is_in_grid_takes_column_then_row() {
    let antennas = Antennas::new(grid_of("...\n...\n"));
    assert!(antennas.is_in_grid((2, 1)));
    assert!(!antennas.is_in_grid((1, 2)));
    assert!(!antennas.is_in_grid((3, 0)));
    assert!(!antennas.is_in_grid((-1, 0)));
    assert!(!antennas.is_in_grid((0, -1)));
    assert!(!Antennas::new(Vec::new()).is_in_grid((0, 0)));
}
