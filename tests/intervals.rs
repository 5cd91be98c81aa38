use puzzle_kit::intervals::{
    contains, count_interval_members, merge_intervals, parse_input, process_input_part1,
    process_input_part2, try_parse_input, Interval,
};

#[test]
fn main_aoc_test_part1() {
    let input = "\
         3-5
         10-14
         16-20
         12-18

         1
         5
         8
         11
         17
         32
         ";

    assert_eq!(process_input_part1(input), 3);
}

#[test]
fn aoc_test_part2() {
    let input = "\
         3-5
         10-14
         16-20
         12-18
         ";

    assert_eq!(process_input_part2(input), 14)
}

#[test]
fn merging_joins_overlapping_and_touching_ranges() {
    let v = vec![
        Interval { start: 10, end: 14 },
        Interval { start: 3, end: 5 },
        Interval { start: 16, end: 20 },
        Interval { start: 12, end: 18 },
        Interval { start: 6, end: 6 },
    ];
    let merged = merge_intervals(v);
    assert_eq!(merged, vec![Interval { start: 3, end: 6 }, Interval { start: 10, end: 20 }]);
    assert!(contains(&merged, 6));
    assert!(!contains(&merged, 7));
    assert!(contains(&merged, 20));
    assert!(!contains(&merged, 2));
    assert_eq!(count_interval_members(&merged), 15);
}

#[test]
fn extreme_ranges() {
    let merged = merge_intervals(vec![
        Interval { start: i64::MIN, end: -1 },
        Interval { start: 0, end: i64::MAX },
    ]);
    assert_eq!(merged, vec![Interval { start: i64::MIN, end: i64::MAX }]);
    assert_eq!(count_interval_members(&merged), u64::MAX);
    assert!(contains(&merged, i64::MIN));
}

#[test]
fn parsing_swaps_backwards_ranges_and_rejects_bad_lines() {
    let (ranges, numbers) = parse_input("5-3\n 8 - +9 \n\n4\n-1\n");
    assert_eq!(ranges, vec![Interval { start: 3, end: 5 }, Interval { start: 8, end: 9 }]);
    assert_eq!(numbers, vec![4, -1]);
    assert!(try_parse_input("5\n").is_none());
    assert!(try_parse_input("-7--2\n").is_none());
    assert!(try_parse_input("1-2\n\nx\n").is_none());
}

#[test]
fn contains_accepts_touching_ranges() {
    let v = [Interval { start: 1, end: 3 }, Interval { start: 4, end: 6 }, Interval { start: 9, end: 9 }];
    assert!(contains(&v, 3));
    assert!(contains(&v, 4));
    assert!(contains(&v, 6));
    assert!(!contains(&v, 7));
    assert!(contains(&v, 9));
    assert!(!contains(&v, 0));
}
