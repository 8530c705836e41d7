use aoc_2024::day_1::{
    get_similarity_score, list_distance, read_pairs, FrequencyList, LocationList,
};
use aoc_2024::text::InputError;

const SAMPLE: &str = "3   4
4   3
2   5
1   3
3   9
3   3
";

#[test]
fn sample_lists_are_11_apart() {
    assert_eq!(list_distance(SAMPLE), Ok(11));
}

#[test]
fn sample_lists_have_similarity_31() {
    assert_eq!(get_similarity_score(SAMPLE), Ok(31));
}

#[test]
fn empty_text_gives_zero() {
    assert_eq!(list_distance(""), Ok(0));
    assert_eq!(get_similarity_score(""), Ok(0));
}

#[test]
fn lines_without_three_spaces_are_passed_over() {
    assert_eq!(read_pairs("1   2\n\nnothing here\n3 4\n5   6\n"), Some(vec![(1, 2), (5, 6)]));
    assert_eq!(list_distance("10   2\n\n7 7\n1   5\n"), Ok(6));
}

#[test]
fn a_side_that_is_no_number_is_malformed() {
    assert_eq!(read_pairs("1   x\n"), None);
    assert_eq!(list_distance("1   x\n"), Err(InputError::Malformed));
    assert_eq!(get_similarity_score("a   1\n"), Err(InputError::Malformed));
    assert_eq!(list_distance("1    2\n"), Err(InputError::Malformed));
    assert_eq!(list_distance("   2\n"), Err(InputError::Malformed));
}

#[test]
fn signs_are_read() {
    assert_eq!(read_pairs("-3   +4\n"), Some(vec![(-3, 4)]));
    assert_eq!(list_distance("-3   +4\n"), Ok(7));
}

#[test]
fn distance_sorts_both_columns() {
    assert_eq!(list_distance("9   1\n1   9\n5   5\n"), Ok(0));
    assert_eq!(list_distance("1   10\n2   20\n"), Ok(27));
}

#[test]
fn distance_between_the_ends_of_the_range_fits() {
    let text = format!("{}   {}\n", i64::MIN, i64::MAX);
    assert_eq!(list_distance(&text), Ok(u64::MAX));
}

#[test]
fn distance_beyond_the_range_is_too_large() {
    let text = format!("{}   {}\n{}   {}\n", i64::MIN, i64::MAX, 0, 1);
    assert_eq!(list_distance(&text), Err(InputError::TooLarge));
}

#[test]
fn similarity_beyond_the_range_is_too_large() {
    let text = format!("{}   {}\n{}   {}\n{}   {}\n", i64::MAX, i64::MAX, 5, i64::MAX, 6, i64::MAX);
    assert_eq!(get_similarity_score(&text), Err(InputError::TooLarge));
}

#[test]
fn frequency_list_counts_occurrences() {
    let freqs = FrequencyList::from_vec(vec![4, 3, 5, 3, 9, 3]);
    assert_eq!(freqs.get(3), 3);
    assert_eq!(freqs.get(4), 1);
    assert_eq!(freqs.get(7), 0);
    assert_eq!(FrequencyList::new().get(3), 0);
}

#[test]
fn location_list_from_unsorted_sorts() {
    let mut numbers = vec![3, -1, 2, 2, 0];
    let list = LocationList::from_unsorted(&mut numbers);
    assert_eq!(list.locations, vec![-1, 0, 2, 2, 3]);
    assert_eq!(numbers, vec![-1, 0, 2, 2, 3]);
    assert_eq!(LocationList::from_vec(vec![3, 1]).locations, vec![3, 1]);
    assert!(LocationList::new().locations.is_empty());
}

#[test]
fn find_distance_goes_as_far_as_the_shorter_list() {
    let left = LocationList::from_vec(vec![1, 5, 9]);
    let right = LocationList::from_vec(vec![4, 1]);
    assert_eq!(left.find_distance(&right), Ok(7));
    assert_eq!(right.find_distance(&left), Ok(7));
}

#[test]
fn find_similarity_weighs_each_location_by_its_count() {
    let locations = LocationList::from_vec(vec![3, 4, 2, 1, 3, 3]);
    let freqs = FrequencyList::from_vec(vec![4, 3, 5, 3, 9, 3]);
    assert_eq!(locations.find_similarity(&freqs), Ok(31));
}
