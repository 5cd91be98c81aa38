use puzzle_kit::dial::{classify_line, process_lines, zero_hits_left, zero_hits_right, LineStart, Stats};

#[test]
fn right_wraps_correctly() {
    let stats = process_lines(50, &["R1000"]);
    assert_eq!(stats, Stats { value: 50, zero_hits: 10 });
}

#[test]
fn right_wraps_corner_case() {
    let stats = process_lines(50, &["R950"]);
    assert_eq!(stats, Stats { value: 0, zero_hits: 10 });
}

#[test]
fn left_wraps_correctly() {
    let stats = process_lines(5, &["L7"]);
    assert_eq!(stats, Stats { value: 98, zero_hits: 1 });
}

#[test]
fn zero_without_wrap_counts() {
    let stats = process_lines(10, &["L10"]);
    assert_eq!(stats, Stats { value: 0, zero_hits: 1 });
}

#[test]
fn mixed_sequence_combines_counts() {
    let stats = process_lines(90, &["R20", "L5", "R15"]);
    assert_eq!(stats, Stats { value: 20, zero_hits: 1 });
}

#[test]
fn aoc_test() {
    let stats = process_lines(
        50,
        &["L68", "L30", "R48", "L5", "R60", "L55", "L1", "L99", "R14", "L82"],
    );
    assert_eq!(stats, Stats { value: 32, zero_hits: 6 });
}

#[test]
fn line_kinds_and_bad_lines() {
    assert_eq!(classify_line("R5"), LineStart::Right);
    assert_eq!(classify_line("L5"), LineStart::Left);
    assert_eq!(classify_line("x5"), LineStart::Other);
    assert_eq!(classify_line(""), LineStart::Other);
    let stats = process_lines(150, &["Rx", "", "Q3", "L 3 "]);
    assert_eq!(stats, Stats { value: 47, zero_hits: 0 });
}

#[test]
fn zero_formulas() {
    assert_eq!(zero_hits_right(50, 250), 3);
    assert_eq!(zero_hits_right(99, u32::MAX), 42949673);
    assert_eq!(zero_hits_left(0, 250), 2);
    assert_eq!(zero_hits_left(5, 4), 0);
    assert_eq!(zero_hits_left(5, 7), 1);
    assert_eq!(zero_hits_left(5, 205), 3);
}
