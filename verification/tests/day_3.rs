use aoc_2024::day_3::{
    add_up_enabled_products, add_up_products, calculate_corrupted_mul_do_instructions,
    calculate_corrupted_mul_instructions, multiply, ScanError,
};

fn groups(parts: &[Option<&str>]) -> Vec<Option<Vec<char>>> {
    parts.iter().map(|part| part.map(|text| text.chars().collect())).collect()
}

fn mul(first: &str, second: &str) -> Vec<Option<Vec<char>>> {
    let whole = format!("mul({},{})", first, second);
    groups(&[Some(whole.as_str()), Some(first), Some(second)])
}

fn switch(text: &str) -> Vec<Option<Vec<char>>> {
    groups(&[Some(text), None, None])
}

#[test]
fn sample_multiplications_add_up_to_161() {
    let text = "xmul(2,4)%&mul[3,7]!@^do_not_mul(5,5)+mul(32,64]then(mul(11,8)mul(8,5))";
    assert_eq!(calculate_corrupted_mul_instructions(text), Ok(161));
}

#[test]
fn sample_enabled_multiplications_add_up_to_48() {
    let text = "xmul(2,4)&mul[3,7]!^don't()_mul(5,5)+mul(32,64](mul(11,8)undo()?mul(8,5))";
    assert_eq!(calculate_corrupted_mul_do_instructions(text), Ok(48));
    assert_eq!(calculate_corrupted_mul_instructions(text), Ok(161));
}

#[test]
fn text_without_multiplications_adds_up_to_nothing() {
    assert_eq!(calculate_corrupted_mul_instructions(""), Ok(0));
    assert_eq!(calculate_corrupted_mul_instructions("mul(4*, mul(6,9!, ?(12,34), mul ( 2 , 4 )"), Ok(0));
    assert_eq!(calculate_corrupted_mul_do_instructions("do()don't()do()"), Ok(0));
}

#[test]
fn switches_turn_multiplications_off_and_on() {
    assert_eq!(calculate_corrupted_mul_do_instructions("mul(2,3)don't()mul(5,5)"), Ok(6));
    assert_eq!(
        calculate_corrupted_mul_do_instructions("don't()mul(2,3)don't()mul(1,1)do()do()mul(5,5)"),
        Ok(25)
    );
    assert_eq!(calculate_corrupted_mul_do_instructions("don't mul(2,3) don()mul(1,1)"), Ok(7));
}

#[test]
fn a_number_too_long_is_a_bad_number() {
    let text = "mul(99999999999999999999,1)";
    assert_eq!(calculate_corrupted_mul_instructions(text), Err(ScanError::BadNumber));
    assert_eq!(calculate_corrupted_mul_do_instructions(text), Err(ScanError::BadNumber));
    assert_eq!(
        calculate_corrupted_mul_do_instructions("don't()mul(99999999999999999999,1)"),
        Ok(0)
    );
}

#[test]
fn digits_of_other_scripts_match_but_are_no_number() {
    let text = "mul(\u{661}\u{662},3)";
    assert_eq!(calculate_corrupted_mul_instructions(text), Err(ScanError::BadNumber));
}

#[test]
fn a_product_or_sum_out_of_range_is_too_large() {
    assert_eq!(
        calculate_corrupted_mul_instructions("mul(9223372036854775807,2)"),
        Err(ScanError::TooLarge)
    );
    assert_eq!(
        calculate_corrupted_mul_instructions("mul(9223372036854775807,1)mul(1,1)"),
        Err(ScanError::TooLarge)
    );
    assert_eq!(
        calculate_corrupted_mul_instructions("mul(9223372036854775807,1)mul(0,5)"),
        Ok(i64::MAX)
    );
}

#[test]
fn the_first_fault_is_the_one_reported() {
    let matches = vec![mul("9223372036854775807", "2"), mul("x", "1")];
    assert_eq!(add_up_products(&matches), Err(ScanError::TooLarge));
    let matches = vec![mul("x", "1"), mul("9223372036854775807", "2")];
    assert_eq!(add_up_products(&matches), Err(ScanError::BadNumber));
}

#[test]
fn multiply_reads_groups_one_and_two() {
    assert_eq!(multiply(&mul("12", "11")), Ok(132));
    assert_eq!(multiply(&mul("-3", "+4")), Ok(-12));
    assert_eq!(multiply(&mul("", "4")), Err(ScanError::BadNumber));
    assert_eq!(multiply(&groups(&[Some("mul(1,2)"), Some("1")])), Err(ScanError::BadNumber));
    assert_eq!(multiply(&groups(&[Some("mul(1,2)"), None, Some("2")])), Err(ScanError::BadNumber));
    assert_eq!(multiply(&groups(&[None, Some("3"), Some("2")])), Ok(6));
    assert_eq!(multiply(&mul("-9223372036854775808", "-1")), Err(ScanError::TooLarge));
}

#[test]
fn add_up_products_adds_every_match() {
    assert_eq!(add_up_products(&vec![]), Ok(0));
    assert_eq!(add_up_products(&vec![mul("2", "4"), mul("5", "5"), mul("11", "8")]), Ok(121));
    assert_eq!(add_up_products(&vec![mul("2", "4"), switch("do()")]), Err(ScanError::BadNumber));
}

#[test]
fn add_up_enabled_products_follows_the_switches() {
    let matches = vec![
        mul("2", "4"),
        switch("don't()"),
        mul("5", "5"),
        mul("x", "y"),
        switch("do()"),
        mul("8", "5"),
    ];
    assert_eq!(add_up_enabled_products(&matches), Ok(48));
    assert_eq!(add_up_enabled_products(&vec![]), Ok(0));
    assert_eq!(add_up_enabled_products(&vec![vec![]]), Err(ScanError::BadNumber));
    assert_eq!(add_up_enabled_products(&vec![groups(&[None])]), Err(ScanError::BadNumber));
    assert_eq!(add_up_enabled_products(&vec![switch("undo()")]), Err(ScanError::BadNumber));
}
