use puzzle_kit::text::non_empty_lines;
use puzzle_kit::worksheet::{
    parse_ops_tokens, parse_u128_ws, process_input_part1, process_input_part2, split_blocks,
    try_process_input_part1, try_process_input_part2,
};

#[test]
fn worksheet_aoc_test_part1() {
    let input = "\
123 328  51 64
45 64  387 23
6 98  215 314
*   +   *   +
";
    assert_eq!(process_input_part1(input), 4277556)
}

#[test]
fn operator_tokens_are_first_bytes_of_words() {
    assert_eq!(parse_ops_tokens(b"  *   +  *+ "), vec![b'*', b'+', b'*']);
    assert_eq!(parse_ops_tokens(b""), Vec::<u8>::new());
}

#[test]
fn number_scanner_reads_digit_runs() {
    let mut out = vec![9, 9, 9];
    parse_u128_ws(b"  12 x34  5", &mut out);
    assert_eq!(out, vec![12, 34, 5]);
    parse_u128_ws(b" +7 8", &mut out);
    assert_eq!(out, vec![0, 7, 8]);
    parse_u128_ws(b"   ", &mut out);
    assert_eq!(out, Vec::<u128>::new());
    parse_u128_ws(b"340282366920938463463374607431768211455", &mut out);
    assert_eq!(out, vec![u128::MAX]);
}

#[test]
fn blank_lines_are_dropped() {
    let lines = non_empty_lines("a\n \n\r\nb c\n");
    assert_eq!(lines, vec![b"a".to_vec(), b"b c".to_vec()]);
}

#[test]
fn single_operator_row_totals_identities() {
    assert_eq!(process_input_part1("+ * *\n"), 2);
}

#[test]
fn worksheet_aoc_test_part2() {
    let input = "\
123  328   51   64
 45  64   387   23
  6  98   215  314
  *   +     *    +
";
    assert_eq!(process_input_part2(input), 3263827)
}

#[test]
fn blocks_are_runs_between_separators() {
    let seps = [true, false, false, true, true, false, true, false];
    assert_eq!(split_blocks(8, &seps), vec![(1, 3), (5, 6), (7, 8)]);
    assert_eq!(split_blocks(0, &[]), Vec::<(usize, usize)>::new());
    assert_eq!(split_blocks(2, &[true, true]), Vec::<(usize, usize)>::new());
}

#[test]
fn short_lines_are_padded_with_spaces() {
    // The second column of the block has a digit only on the first row.
    let input = "12\n3\n+\n";
    assert_eq!(process_input_part2(input), 13 + 2);
}

#[test]
fn unreadable_worksheets_are_refused() {
    assert_eq!(try_process_input_part1(""), None);
    assert_eq!(try_process_input_part1("1 2\n   \n"), Some(2));
    assert_eq!(try_process_input_part1("1 2\n3\n+ *\n"), None);
    assert_eq!(try_process_input_part1("1 2\n3 4\n+ *\n"), Some(4 + 8));
    let big = "340282366920938463463374607431768211455";
    assert_eq!(try_process_input_part1(&format!("{big}\n1\n+\n")), None);
    assert_eq!(try_process_input_part1(&format!("{big}0\n*\n")), None);
    assert_eq!(try_process_input_part2("+\n"), None);
    assert_eq!(try_process_input_part2("12 3\n+  \n"), None);
    assert_eq!(try_process_input_part2("12 3\n+  *\n"), Some(3 + 3));
}
