use aoc_2024::day_2::{get_safe_reports, get_safe_reports_with_dampaner, Levels};
use aoc_2024::text::InputError;

const SAMPLE: &str = "7 6 4 2 1
1 2 7 8 9
9 7 6 2 1
1 3 2 4 5
8 6 4 4 1
1 3 6 7 9
";

#[test]
fn sample_has_2_safe_reports() {
    assert_eq!(get_safe_reports(SAMPLE), Ok(2));
}

#[test]
fn sample_has_4_safe_reports_with_the_dampener() {
    assert_eq!(get_safe_reports_with_dampaner(SAMPLE), Ok(4));
}

#[test]
fn a_word_that_is_no_number_is_malformed() {
    assert_eq!(get_safe_reports("1 2 x\n"), Err(InputError::Malformed));
    assert_eq!(get_safe_reports_with_dampaner("1 2\n3 4.5\n"), Err(InputError::Malformed));
    assert_eq!(get_safe_reports("99999999999999999999\n"), Err(InputError::Malformed));
}

#[test]
fn empty_text_has_no_reports() {
    assert_eq!(get_safe_reports(""), Ok(0));
    assert_eq!(get_safe_reports_with_dampaner(""), Ok(0));
}

#[test]
fn an_empty_line_is_a_safe_report() {
    assert_eq!(get_safe_reports("1 2\n\n5 1\n"), Ok(2));
}

#[test]
fn levels_are_separated_by_any_white_space() {
    let levels = Levels::from_text("1\t2   3\u{a0}4\n-5 +6\r\n").unwrap();
    assert_eq!(levels.levels, vec![vec![1, 2, 3, 4], vec![-5, 6]]);
}

#[test]
fn is_safe_tells_rising_and_falling() {
    assert!(Levels::is_safe(&vec![7, 6, 4, 2, 1]));
    assert!(!Levels::is_safe(&vec![1, 2, 7, 8, 9]));
    assert!(!Levels::is_safe(&vec![9, 7, 6, 2, 1]));
    assert!(!Levels::is_safe(&vec![1, 3, 2, 4, 5]));
    assert!(!Levels::is_safe(&vec![8, 6, 4, 4, 1]));
    assert!(Levels::is_safe(&vec![1, 3, 6, 7, 9]));
    assert!(Levels::is_safe(&vec![]));
    assert!(Levels::is_safe(&vec![5]));
    assert!(!Levels::is_safe(&vec![5, 5]));
    assert!(Levels::is_safe(&vec![5, 8]));
    assert!(!Levels::is_safe(&vec![5, 9]));
}

#[test]
fn is_safe_does_not_overflow() {
    assert!(!Levels::is_safe(&vec![i64::MIN, i64::MAX]));
    assert!(!Levels::is_safe(&vec![i64::MAX, i64::MIN]));
    assert!(Levels::is_safe(&vec![i64::MAX - 1, i64::MAX]));
}

#[test]
fn find_safe_reports_counts_with_and_without_dampener() {
    let levels = Levels::from_vec(vec![vec![1, 2, 3], vec![1, 9, 2], vec![1, 9, 20], vec![4, 4]]);
    assert_eq!(levels.find_safe_reports(false), 1);
    assert_eq!(levels.find_safe_reports(true), 3);
    assert_eq!(Levels::new().find_safe_reports(true), 0);
}

#[test]
fn dampener_may_take_the_first_or_the_last_level() {
    assert_eq!(get_safe_reports_with_dampaner("9 1 2 3\n"), Ok(1));
    assert_eq!(get_safe_reports_with_dampaner("1 2 3 9\n"), Ok(1));
    assert_eq!(get_safe_reports_with_dampaner("9 1 2 9\n"), Ok(0));
}
