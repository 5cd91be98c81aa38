use puzzle_kit::invalid_ids::{
    is_invalid, is_repeating_at_least_twice, is_repeating_pattern, parse_mode, parse_range, ranges,
    sum_invalid_in_range, sum_of_invalid_ids, InvalidMode, Range,
};

#[test]
fn repeating_digits_invalid() {
    let invalid_id_sum = sum_of_invalid_ids(&["55-56"], InvalidMode::ExactDouble);
    assert_eq!(invalid_id_sum, 55);
}

#[test]
fn repeating_chunk_invalid() {
    let invalid_id_sum = sum_of_invalid_ids(&["123123-123123"], InvalidMode::ExactDouble);
    assert_eq!(invalid_id_sum, 123123);
}

#[test]
fn triple_repetition_is_valid() {
    let invalid_id_sum = sum_of_invalid_ids(&["123123123-123123123"], InvalidMode::ExactDouble);
    assert_eq!(invalid_id_sum, 0);
}

#[test]
fn odd_length_same_digit_is_valid() {
    let invalid_id_sum = sum_of_invalid_ids(&["111-111"], InvalidMode::ExactDouble);
    assert_eq!(invalid_id_sum, 0);
}

#[test]
fn multiple_ranges_count_combines() {
    let invalid_id_sum = sum_of_invalid_ids(&["1-2, 55-56"], InvalidMode::ExactDouble);
    assert_eq!(invalid_id_sum, 55);
}

#[test]
fn aoc_test_part1() {
    let invalid_id_sum = sum_of_invalid_ids(
        &["11-22,95-115,998-1012,1188511880-1188511890,
        222220-222224,1698522-1698528,446443-446449,38593856-38593862,565653-565659,
        824824821-824824827,2121212118-2121212124"],
        InvalidMode::ExactDouble,
    );
    assert_eq!(invalid_id_sum, 1227775554);
}

#[test]
fn main_aoc_test_part2() {
    let invalid_id_sum = sum_of_invalid_ids(
        &["11-22,95-115,998-1012,1188511880-1188511890,
        222220-222224,1698522-1698528,446443-446449,38593856-38593862,565653-565659,
        824824821-824824827,2121212118-2121212124"],
        InvalidMode::AtLeastDouble,
    );
    assert_eq!(invalid_id_sum, 4174379265);
}

#[test]
fn triple_repetition_becomes_invalid_in_at_least_mode() {
    let invalid_id_sum =
        sum_of_invalid_ids(&["123123123-123123123"], InvalidMode::AtLeastDouble);
    assert_eq!(invalid_id_sum, 123123123);
}

#[test]
fn mode_words() {
    assert_eq!(parse_mode(Some("atleast")), InvalidMode::AtLeastDouble);
    assert_eq!(parse_mode(Some("at-least")), InvalidMode::AtLeastDouble);
    assert_eq!(parse_mode(Some("at_least")), InvalidMode::AtLeastDouble);
    assert_eq!(parse_mode(Some("atleast ")), InvalidMode::ExactDouble);
    assert_eq!(parse_mode(None), InvalidMode::ExactDouble);
}

#[test]
fn ranges_parse_with_spaces() {
    assert_eq!(parse_range(" 55 - 56 "), Some(Range { start: 55, end: 56 }));
    assert_eq!(parse_range("+7-8"), Some(Range { start: 7, end: 8 }));
    assert_eq!(parse_range("55"), None);
    assert_eq!(parse_range("a-5"), None);
    assert_eq!(parse_range("1-2-3"), None);
    assert_eq!(parse_range("18446744073709551616-1"), None);
}

#[test]
fn patterns() {
    assert!(is_repeating_pattern(b"5555"));
    assert!(is_repeating_pattern(b"123123"));
    assert!(!is_repeating_pattern(b"123123123"));
    assert!(!is_repeating_pattern(b"111"));
    assert!(is_repeating_at_least_twice(b"111"));
    assert!(is_repeating_at_least_twice(b"123123123"));
    assert!(!is_repeating_at_least_twice(b"1234"));
    assert!(!is_repeating_at_least_twice(b"7"));
    assert!(is_invalid(1010, InvalidMode::ExactDouble));
    assert!(!is_invalid(101, InvalidMode::AtLeastDouble));
}

#[test]
fn backwards_range_adds_nothing_and_sums_saturate() {
    assert_eq!(sum_invalid_in_range(Range { start: 60, end: 50 }, InvalidMode::ExactDouble), 0);
    assert_eq!(sum_of_invalid_ids(&["60-50, junk, 11-11"], InvalidMode::ExactDouble), 11);
    let nines = "9999999999999999999-9999999999999999999";
    assert_eq!(sum_of_invalid_ids(&[nines], InvalidMode::AtLeastDouble), 9999999999999999999);
    let total = sum_of_invalid_ids(&[nines, nines], InvalidMode::AtLeastDouble);
    assert_eq!(total, u64::MAX);
}

#[test]
fn ranges_of_a_line_skip_empty_and_bad_parts() {
    assert_eq!(
        ranges("11-22,, x ,95-115, 7"),
        vec![Range { start: 11, end: 22 }, Range { start: 95, end: 115 }]
    );
    assert_eq!(ranges(""), Vec::<Range>::new());
}
