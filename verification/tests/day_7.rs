use aoc_2024::day_7;
use aoc_2024::day_7::{
    find_valid_equations_with_concatenation, find_valid_equations_without_concatenation,
    Equation, Operator,
};
use aoc_2024::text::InputError;

const SAMPLE: &str = "190: 10 19
3267: 81 40 27
83: 17 5
156: 15 6
7290: 6 8 6 15
161011: 16 10 13
192: 17 8 14
21037: 9 7 18 13
292: 11 6 16 20
";

fn line(text: &str) -> Vec<char> {
    text.chars().collect()
}

#[test]
fn sample_calibrates_to_3749() {
    assert_eq!(find_valid_equations_without_concatenation(SAMPLE), Ok(3749));
}

#[test]
fn sample_calibrates_to_11387_with_concatenation() {
    assert_eq!(find_valid_equations_with_concatenation(SAMPLE), Ok(11387));
}

#[test]
fn empty_text_calibrates_to_nothing() {
    assert_eq!(find_valid_equations_without_concatenation(""), Ok(0));
    assert_eq!(find_valid_equations_with_concatenation(""), Ok(0));
}

#[test]
fn a_line_that_is_no_equation_is_malformed() {
    for text in ["190 10 19\n", "190: 10  19\n", "190: \n", "190:10 19\n", "x: 1 2\n", "3: 1 2 \n",
        "3: 1 2\n\n", "-3: 1 2\n", "3: 1 -2\n"]
    {
        assert_eq!(find_valid_equations_without_concatenation(text), Err(InputError::Malformed));
        assert_eq!(find_valid_equations_with_concatenation(text), Err(InputError::Malformed));
    }
}

#[test]
fn a_sum_out_of_range_is_too_large() {
    let text = "18446744073709551615: 18446744073709551615\n1: 1\n";
    assert_eq!(find_valid_equations_without_concatenation(text), Err(InputError::TooLarge));
    let text = "18446744073709551615: 18446744073709551615\n1: 2\n";
    assert_eq!(find_valid_equations_without_concatenation(text), Ok(u64::MAX));
}

#[test]
fn add_and_mul_give_none_out_of_range() {
    assert_eq!(day_7::add(2, 3), Some(5));
    assert_eq!(day_7::add(u64::MAX, 0), Some(u64::MAX));
    assert_eq!(day_7::add(u64::MAX, 1), None);
    assert_eq!(day_7::mul(6, 7), Some(42));
    assert_eq!(day_7::mul(u64::MAX, 1), Some(u64::MAX));
    assert_eq!(day_7::mul(1 << 32, 1 << 32), None);
}

#[test]
fn concat_joins_the_digits() {
    assert_eq!(day_7::concat(12, 345), Some(12345));
    assert_eq!(day_7::concat(15, 6), Some(156));
    assert_eq!(day_7::concat(1, 10), Some(110));
    assert_eq!(day_7::concat(7, 9), Some(79));
    assert_eq!(day_7::concat(7, 99), Some(799));
    assert_eq!(day_7::concat(7, 100), Some(7100));
    assert_eq!(day_7::concat(0, 5), Some(5));
    assert_eq!(day_7::concat(1844674407370955161, 5), Some(u64::MAX));
    assert_eq!(day_7::concat(1844674407370955161, 6), None);
    assert_eq!(day_7::concat(1, 1000000000000000000), Some(11000000000000000000));
    assert_eq!(day_7::concat(2, 1000000000000000000), None);
}

#[test]
fn concat_with_zero_or_twenty_digits_gives_none() {
    assert_eq!(day_7::concat(5, 0), None);
    assert_eq!(day_7::concat(0, 0), None);
    assert_eq!(day_7::concat(0, 10000000000000000000), None);
    assert_eq!(day_7::concat(0, u64::MAX), None);
}

#[test]
fn operators_apply_their_functions() {
    assert_eq!(Operator::Add.apply(8, 9), Some(17));
    assert_eq!(Operator::Mul.apply(8, 9), Some(72));
    assert_eq!(Operator::Concat.apply(8, 9), Some(89));
}

#[test]
fn equation_is_read_from_a_line() {
    let equation = Equation::from_line(&line("3267: 81 40 27")).unwrap();
    assert_eq!(equation.result, 3267);
    assert_eq!(equation.numbers, vec![81, 40, 27]);
    assert!(Equation::from_line(&line("3267 81 40 27")).is_none());
    let kept = Equation::new(5, vec![2, 3]);
    assert_eq!((kept.result, kept.numbers), (5, vec![2, 3]));
}

#[test]
fn is_solvable_tries_every_choice_of_operators() {
    let plain = vec![Operator::Add, Operator::Mul];
    let all = vec![Operator::Add, Operator::Mul, Operator::Concat];
    assert!(Equation::new(190, vec![10, 19]).is_solvable(plain.clone()));
    assert!(Equation::new(3267, vec![81, 40, 27]).is_solvable(plain.clone()));
    assert!(!Equation::new(83, vec![17, 5]).is_solvable(all.clone()));
    assert!(!Equation::new(156, vec![15, 6]).is_solvable(plain.clone()));
    assert!(Equation::new(156, vec![15, 6]).is_solvable(all.clone()));
    assert!(Equation::new(7290, vec![6, 8, 6, 15]).is_solvable(all.clone()));
    assert!(!Equation::new(7290, vec![6, 8, 6, 15]).is_solvable(plain.clone()));
    assert!(Equation::new(7, vec![7]).is_solvable(vec![]));
    assert!(!Equation::new(7, vec![3, 4]).is_solvable(vec![]));
    assert!(!Equation::new(7, vec![8]).is_solvable(plain.clone()));
}

#[test]
fn a_result_that_passes_the_test_value_is_dropped_on_the_way() {
    let plain = vec![Operator::Add, Operator::Mul];
    assert!(!Equation::new(3, vec![2, 5, 0, 3]).is_solvable(plain.clone()));
    assert!(Equation::new(3, vec![10, 0, 3]).is_solvable(plain.clone()));
    assert!(Equation::new(0, vec![5, 0]).is_solvable(plain));
}
