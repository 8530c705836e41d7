use aoc_2024::day_4::{find_xmas_cross_wordsearch, find_xmas_wordsearch, WordSearch};

const SAMPLE: &str = "MMMSXXMASM
MSAMXMSMSA
AMXSXMAAMM
MSAMASMSMX
XMASAMXAMM
XXAMMXXAMA
SMSMSASXSS
SAXAMASAAA
MAMMMXMMMM
MXMXAXMASX
";

#[test]
fn sample_holds_xmas_18_times() {
    assert_eq!(find_xmas_wordsearch(SAMPLE), Ok(18));
}

#[test]
fn sample_holds_9_crosses() {
    assert_eq!(find_xmas_cross_wordsearch(SAMPLE), Ok(9));
}

#[test]
fn empty_grid_holds_nothing() {
    assert_eq!(find_xmas_wordsearch(""), Ok(0));
    assert_eq!(find_xmas_cross_wordsearch(""), Ok(0));
    assert_eq!(WordSearch::new().find_xmas_count(), Ok(0));
    assert_eq!(WordSearch::new().find_xmas_cross_count(), Ok(0));
}

#[test]
fn xmas_is_found_in_all_eight_directions() {
    let text = "S..S..S\n.A.A.A.\n..MMM..\nSAMXMAS\n..MMM..\n.A.A.A.\nS..S..S\n";
    assert_eq!(find_xmas_wordsearch(text), Ok(8));
    let search = WordSearch::from_text(text);
    for direction in [(-1, -1), (-1, 0), (-1, 1), (0, -1), (0, 1), (1, -1), (1, 0), (1, 1)] {
        assert!(search.check_xmas_match(&3, &3, direction));
    }
    assert!(!search.check_xmas_match(&3, &3, (0, 0)));
    assert!(!search.check_xmas_match(&3, &2, (0, 1)));
    assert!(!search.check_xmas_match(&0, &0, (1, 1)));
}

#[test]
fn xmas_that_runs_off_the_grid_does_not_count() {
    assert_eq!(find_xmas_wordsearch("XMA\n"), Ok(0));
    assert_eq!(find_xmas_wordsearch("XMAS\n"), Ok(1));
    assert_eq!(find_xmas_wordsearch("SAMX\n"), Ok(1));
    assert_eq!(find_xmas_wordsearch("X\nM\nA\n"), Ok(0));
    assert_eq!(find_xmas_wordsearch("XMASAMX\n"), Ok(2));
}

#[test]
fn rows_of_different_lengths_are_read_as_they_are() {
    assert_eq!(find_xmas_wordsearch("X\n.M\n..A\n...S\n"), Ok(1));
    assert_eq!(find_xmas_wordsearch("X\n.M\n..A\n..\n"), Ok(0));
}

#[test]
fn cross_needs_both_diagonals() {
    assert_eq!(find_xmas_cross_wordsearch("M.S\n.A.\nM.S\n"), Ok(1));
    assert_eq!(find_xmas_cross_wordsearch("S.S\n.A.\nM.M\n"), Ok(1));
    assert_eq!(find_xmas_cross_wordsearch("M.S\n.A.\nS.M\n"), Ok(0));
    assert_eq!(find_xmas_cross_wordsearch("M.S\n.A.\nM.X\n"), Ok(0));
    assert_eq!(find_xmas_cross_wordsearch("M.S\n.B.\nM.S\n"), Ok(0));
    assert_eq!(find_xmas_cross_wordsearch("A.\n.S\n"), Ok(0));
}

#[test]
fn check_xmas_cross_match_looks_at_the_corners_only() {
    let search = WordSearch::from_text("M.S\n.Q.\nM.S\n");
    assert!(search.check_xmas_cross_match(&1, &1));
    assert!(!search.check_xmas_cross_match(&0, &0));
    assert!(!search.check_xmas_cross_match(&2, &2));
    assert_eq!(search.find_xmas_cross_count(), Ok(0));
}

#[test]
fn word_search_keeps_the_grid() {
    let search = WordSearch::from_text("AB\nC\n");
    assert_eq!(search.grid, vec![vec!['A', 'B'], vec!['C']]);
    assert!(WordSearch::new().grid.is_empty());
}
