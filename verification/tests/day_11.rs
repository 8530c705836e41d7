use aoc_2024::day_11::{get_total_stones_after_blinks, half_shift, Stones};
use aoc_2024::text::InputError;
use std::collections::HashMap;

#[test]
fn sample_stones_after_6_and_25_blinks() {
    assert_eq!(get_total_stones_after_blinks("125 17", 6), Ok(22));
    assert_eq!(get_total_stones_after_blinks("125 17\n", 25), Ok(55312));
}

#[test]
fn sample_stones_after_75_blinks() {
    assert_eq!(get_total_stones_after_blinks("125 17", 75), Ok(65601038650482));
}

#[test]
fn no_blink_leaves_the_stones_as_they_are() {
    assert_eq!(get_total_stones_after_blinks("0 1 10 99 999", 0), Ok(5));
    assert_eq!(get_total_stones_after_blinks("", 0), Ok(0));
    assert_eq!(get_total_stones_after_blinks("  \n", 25), Ok(0));
}

#[test]
fn one_blink_follows_the_three_rules() {
    assert_eq!(get_total_stones_after_blinks("0 1 10 99 999", 1), Ok(7));
    assert_eq!(get_total_stones_after_blinks("0", 1), Ok(1));
    assert_eq!(get_total_stones_after_blinks("1000", 1), Ok(2));
    assert_eq!(get_total_stones_after_blinks("1000", 2), Ok(3));
    assert_eq!(get_total_stones_after_blinks("7", 3), Ok(2));
}

#[test]
fn a_word_that_is_no_mark_is_malformed() {
    assert_eq!(get_total_stones_after_blinks("125 x", 6), Err(InputError::Malformed));
    assert_eq!(get_total_stones_after_blinks("-1", 0), Err(InputError::Malformed));
    assert_eq!(get_total_stones_after_blinks("18446744073709551616", 0), Err(InputError::Malformed));
}

#[test]
fn a_mark_or_a_count_out_of_range_is_too_large() {
    assert_eq!(get_total_stones_after_blinks("9223372036854775807", 1), Err(InputError::TooLarge));
    assert_eq!(get_total_stones_after_blinks("9223372036854775807", 0), Ok(1));
    assert_eq!(get_total_stones_after_blinks("125 17", 200), Err(InputError::TooLarge));
}

#[test]
fn half_shift_parts_an_even_count_of_digits() {
    assert_eq!(half_shift(0), None);
    assert_eq!(half_shift(9), None);
    assert_eq!(half_shift(10), Some(10));
    assert_eq!(half_shift(99), Some(10));
    assert_eq!(half_shift(100), None);
    assert_eq!(half_shift(1000), Some(100));
    assert_eq!(half_shift(253000), Some(1000));
    assert_eq!(half_shift(9999999999999999999), None);
    assert_eq!(half_shift(u64::MAX), Some(10000000000));
}

#[test]
fn blink_stone_keeps_what_it_found() {
    let stones = Stones::new();
    let mut cache = HashMap::new();
    assert_eq!(stones.blink_stone(&125, 6, &mut cache), Some(7));
    assert!(!cache.is_empty());
    assert_eq!(cache[&((125u128 << 64) + 6)], 7);
    assert_eq!(stones.blink_stone(&125, 6, &mut cache), Some(7));
    assert_eq!(stones.blink_stone(&17, 6, &mut cache), Some(15));
    assert_eq!(stones.blink_stone(&17, 0, &mut cache), Some(1));
}

#[test]
fn stones_are_read_from_the_words() {
    assert_eq!(Stones::from_text(" 125\t17 \n").unwrap().stones, vec![125, 17]);
    assert!(Stones::from_text("125,17").is_none());
    assert_eq!(Stones::from_text("3 4").unwrap().count_stones_after_blinks(1), Some(2));
}
