use aoc_2024::day_5::{
    calculate_correctly_ordered_updates, calculate_incorrectly_ordered_updates, SafetyManual,
};
use aoc_2024::text::InputError;
use std::collections::{HashMap, HashSet};

const SAMPLE: &str = "47|53
97|13
97|61
97|47
75|29
61|13
75|53
29|13
97|29
53|29
61|53
97|53
61|29
47|13
75|47
97|75
47|61
75|61
47|29
75|13
53|13

75,47,61,53,29
97,61,53,29,13
75,29,13
75,97,47,61,53
61,13,29
97,13,75,29,47
";

fn line(text: &str) -> Vec<char> {
    text.chars().collect()
}

fn rules(pairs: &[(u64, u64)]) -> HashMap<u64, HashSet<u64>> {
    let mut ordering: HashMap<u64, HashSet<u64>> = HashMap::new();
    for (first, then) in pairs {
        ordering.entry(*first).or_default().insert(*then);
    }
    ordering
}

#[test]
fn sample_updates_in_order_add_up_to_143() {
    assert_eq!(calculate_correctly_ordered_updates(SAMPLE), Ok(143));
}

#[test]
fn sample_updates_put_right_add_up_to_123() {
    assert_eq!(calculate_incorrectly_ordered_updates(SAMPLE), Ok(123));
}

#[test]
fn sample_updates_are_put_right_as_expected() {
    let manual = SafetyManual::from_text(SAMPLE).unwrap();
    let mut update = vec![75, 97, 47, 61, 53];
    assert!(manual.mend_once(&mut update));
    assert_eq!(update, vec![97, 75, 47, 61, 53]);
    assert!(!manual.mend_once(&mut update));
    let mut update = vec![61, 13, 29];
    assert!(manual.mend_once(&mut update));
    assert_eq!(update, vec![61, 29, 13]);
    let mut update = vec![97, 13, 75, 29, 47];
    let mut rounds = 0;
    while manual.mend_once(&mut update) {
        rounds += 1;
    }
    assert_eq!(update, vec![97, 75, 47, 29, 13]);
    assert_eq!(rounds, 4);
}

#[test]
fn a_text_that_writes_no_manual_is_malformed() {
    for text in ["", "1|2\n3,4\n", "1|2\n\n3,x\n", "1-2\n\n1,2\n", "1|2|3\n\n1\n", "1|2\n\n1,,2\n",
        "1|2\r\n\r\n1,2\r\n", "1|2\n\n1,2\n\n", "|2\n\n1\n"]
    {
        assert_eq!(calculate_correctly_ordered_updates(text), Err(InputError::Malformed));
        assert_eq!(calculate_incorrectly_ordered_updates(text), Err(InputError::Malformed));
    }
}

#[test]
fn a_manual_without_rules_or_without_updates_adds_up() {
    assert_eq!(calculate_correctly_ordered_updates("\n\n3,1,2\n7\n"), Ok(8));
    assert_eq!(calculate_incorrectly_ordered_updates("\n\n3,1,2\n"), Ok(0));
    assert_eq!(calculate_correctly_ordered_updates("1|2\n\n"), Ok(0));
    assert_eq!(calculate_incorrectly_ordered_updates("1|2\n\n"), Ok(0));
}

#[test]
fn the_middle_of_an_even_update_is_the_page_after_the_half() {
    assert_eq!(calculate_correctly_ordered_updates("\n\n1,2,3,4\n"), Ok(3));
    assert_eq!(calculate_incorrectly_ordered_updates("4|1\n\n1,2,3,4\n"), Ok(3));
}

#[test]
fn a_sum_of_pages_out_of_range_is_too_large() {
    let text = "\n\n18446744073709551615\n1\n";
    assert_eq!(calculate_correctly_ordered_updates(text), Err(InputError::TooLarge));
    let text = "2|1\n\n1,18446744073709551615,2\n1,5,2\n";
    assert_eq!(calculate_incorrectly_ordered_updates(text), Err(InputError::TooLarge));
}

#[test]
fn rules_and_updates_are_read_line_by_line() {
    assert_eq!(SafetyManual::read_rule(&line("47|53")), Some((47, 53)));
    assert_eq!(SafetyManual::read_rule(&line("47|+53")), Some((47, 53)));
    assert_eq!(SafetyManual::read_rule(&line("47,53")), None);
    assert_eq!(SafetyManual::read_rule(&line("47|")), None);
    assert_eq!(SafetyManual::read_update(&line("75,47,61")), Some(vec![75, 47, 61]));
    assert_eq!(SafetyManual::read_update(&line("75")), Some(vec![75]));
    assert_eq!(SafetyManual::read_update(&line("")), None);
    assert_eq!(SafetyManual::read_update(&line("75, 47")), None);
    let manual = SafetyManual::from_text("1|2\n1|3\n2|3\n\n1,2\n3\n").unwrap();
    assert_eq!(manual.page_ordering, rules(&[(1, 2), (1, 3), (2, 3)]));
    assert_eq!(manual.updates, vec![vec![1, 2], vec![3]]);
}

#[test]
fn is_in_order_looks_at_every_pair() {
    let manual = SafetyManual::new(rules(&[(1, 2), (2, 3), (9, 1)]), vec![]);
    assert!(manual.is_in_order(&vec![1, 2, 3]));
    assert!(manual.is_in_order(&vec![3, 1]));
    assert!(manual.is_in_order(&vec![]));
    assert!(manual.is_in_order(&vec![7, 8, 7]));
    assert!(!manual.is_in_order(&vec![2, 1]));
    assert!(!manual.is_in_order(&vec![1, 3, 2]));
    assert!(!manual.is_in_order(&vec![1, 5, 9]));
    assert!(manual.is_in_order(&vec![9, 5, 1]));
}

#[test]
fn mending_changes_places_with_the_first_page_in_the_way() {
    let manual = SafetyManual::new(rules(&[(5, 1), (5, 2), (5, 3)]), vec![]);
    let mut update = vec![3, 1, 2, 5];
    assert!(manual.mend_once(&mut update));
    assert_eq!(update, vec![5, 1, 2, 3]);
    let mut update = vec![1, 2, 1, 5];
    assert!(manual.mend_once(&mut update));
    assert_eq!(update, vec![1, 5, 1, 2]);
    assert!(manual.mend_once(&mut update));
    assert_eq!(update, vec![5, 1, 1, 2]);
    assert!(!manual.mend_once(&mut update));
}

#[test]
fn sums_are_taken_over_the_updates_of_the_manual() {
    let manual = SafetyManual::new(
        rules(&[(1, 2), (2, 3)]),
        vec![vec![1, 2, 3], vec![3, 2, 1], vec![2, 9, 1], vec![4]],
    );
    assert_eq!(manual.calculate_valid_update_sums(), Some(6));
    assert_eq!(manual.calculate_incorrectly_update_sums(), Ok(11));
}

#[test]
fn rules_that_run_in_a_circle_are_malformed() {
    assert_eq!(calculate_incorrectly_ordered_updates("1|2\n2|1\n\n1,2\n"), Err(InputError::Malformed));
    assert_eq!(calculate_incorrectly_ordered_updates("1|2\n2|1\n\n1,3\n"), Ok(0));
    assert_eq!(calculate_correctly_ordered_updates("1|2\n2|1\n\n1,2\n5\n"), Ok(5));
    let text = "1|2\n2|3\n3|1\n\n2,1\n1,2,3\n";
    assert_eq!(calculate_incorrectly_ordered_updates(text), Err(InputError::Malformed));
    let text = "7|7\n\n7,7\n";
    assert_eq!(calculate_incorrectly_ordered_updates(text), Err(InputError::Malformed));
}

#[test]
fn mend_puts_an_update_right_or_gives_up() {
    let manual = SafetyManual::from_text(SAMPLE).unwrap();
    assert_eq!(manual.mend(&vec![97, 13, 75, 29, 47]), Some(vec![97, 75, 47, 29, 13]));
    assert_eq!(manual.mend(&vec![75, 47, 61, 53, 29]), Some(vec![75, 47, 61, 53, 29]));
    assert_eq!(manual.mend(&vec![]), Some(vec![]));
    let circle = SafetyManual::new(rules(&[(1, 2), (2, 1)]), vec![]);
    assert_eq!(circle.mend(&vec![2, 1]), None);
    assert_eq!(circle.mend(&vec![2, 5]), Some(vec![2, 5]));
}

#[test]
fn a_circle_is_reported_before_a_sum_out_of_range() {
    let text = "2|1\n4|3\n3|4\n\n1,18446744073709551615,2\n1,5,2\n3,4\n";
    assert_eq!(calculate_incorrectly_ordered_updates(text), Err(InputError::Malformed));
}
