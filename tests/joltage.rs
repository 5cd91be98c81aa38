use puzzle_kit::joltage::{calculate_total_jolts, max_k_digits_ordered, max_two_digits_ordered};

#[test]
fn aoc_test_part1_one_line() {
    let total_jolts = calculate_total_jolts(&["987654321111111"], 2);
    assert_eq!(total_jolts, 98);
}

#[test]
fn aoc_test_part1_multiple_lines_size2() {
    let total_jolts = calculate_total_jolts(
        &["987654321111111", "811111111111119", "234234234234278", "818181911112111"],
        2,
    );
    assert_eq!(total_jolts, 357);
}

#[test]
fn aoc_test_part1_multiple_lines_size12() {
    let total_jolts = calculate_total_jolts(
        &["987654321111111", "811111111111119", "234234234234278", "818181911112111"],
        12,
    );
    assert_eq!(total_jolts, 3121910778619);
}

#[test]
fn best_pairs() {
    assert_eq!(max_two_digits_ordered("987654321111111"), Some(98));
    assert_eq!(max_two_digits_ordered("811111111111119"), Some(89));
    assert_eq!(max_two_digits_ordered("234234234234278"), Some(78));
    assert_eq!(max_two_digits_ordered("818181911112111"), Some(92));
    assert_eq!(max_two_digits_ordered("7"), None);
    assert_eq!(max_two_digits_ordered("00"), Some(0));
}

#[test]
fn k_digit_edge_cases() {
    assert_eq!(max_k_digits_ordered("987654321111111", 12), Some(987654321111));
    assert_eq!(max_k_digits_ordered("12", 0), None);
    assert_eq!(max_k_digits_ordered("12", 3), None);
    assert_eq!(max_k_digits_ordered("1a2", 2), None);
    assert_eq!(max_k_digits_ordered("3129", 2), Some(39));
    let forty = "9".repeat(40);
    assert_eq!(max_k_digits_ordered(&forty, 39), None);
    assert_eq!(max_k_digits_ordered(&forty, 38), Some(99999999999999999999999999999999999999));
    assert_eq!(calculate_total_jolts(&["x", "12", ""], 2), 12);
}
