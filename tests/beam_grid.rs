use num_bigint::BigUint;
use puzzle_kit::grid::{find_start_column, parse_grid, Grid, GridError};
use puzzle_kit::splits::{build_split_masks, process_part1, process_part1_int};
use puzzle_kit::text::split_lines;
use puzzle_kit::timelines::{process_part2, process_part2_int, step_row_part2};

fn grid_and_start(input: &str) -> Result<(Grid, usize), GridError> {
    let g = parse_grid(input)?;
    let s = find_start_column(&g.rows[0])?;
    Ok((g, s))
}

/// Counts every path by walking each split choice, one row at a time.
fn enumerate_paths(g: &Grid, row: usize, col: usize) -> u64 {
    if row + 1 >= g.rows.len() {
        return 1;
    }
    let below = g.rows[row + 1][col];
    if below == b'^' {
        let mut n = 0;
        if col > 0 {
            n += enumerate_paths(g, row + 1, col - 1);
        }
        if col + 1 < g.width {
            n += enumerate_paths(g, row + 1, col + 1);
        }
        n
    } else {
        enumerate_paths(g, row + 1, col)
    }
}

/// Tracks one boolean per column per row and counts the beams on splitters.
fn boolean_splits(g: &Grid, s: usize) -> u64 {
    let w = g.width;
    let mut cur = vec![false; w];
    cur[s] = true;
    let mut total = 0;
    for r in 1..g.rows.len() {
        let mut next = vec![false; w];
        for c in 0..w {
            if !cur[c] {
                continue;
            }
            if g.rows[r][c] == b'^' {
                total += 1;
                if c > 0 {
                    next[c - 1] = true;
                }
                if c + 1 < w {
                    next[c + 1] = true;
                }
            } else {
                next[c] = true;
            }
        }
        cur = next;
    }
    total
}

/// A small deterministic generator for grids of splitters.
fn sample_grid(seed: u64, h: usize, w: usize) -> String {
    let mut x = seed.wrapping_mul(6364136223846793005).wrapping_add(1442695040888963407);
    let start = (seed as usize) % w;
    let mut text = String::new();
    for r in 0..h {
        for c in 0..w {
            x = x.wrapping_mul(6364136223846793005).wrapping_add(1442695040888963407);
            let ch = if r == 0 {
                if c == start { 'S' } else { '.' }
            } else if (x >> 33) % 3 == 0 {
                '^'
            } else {
                '.'
            };
            text.push(ch);
        }
        text.push('\n');
    }
    text
}

#[test]
fn parse_rejects_empty() {
    assert!(parse_grid("").is_err());
    assert_eq!(parse_grid("").err(), Some(GridError::EmptyInput));
}

#[test]
fn parse_rejects_ragged() {
    let input = "S..\n....\n";
    assert!(parse_grid(input).is_err());
    assert_eq!(
        parse_grid(input).err(),
        Some(GridError::RaggedGrid { row: 1, got: 4, expected: 3 })
    );
}

#[test]
fn start_must_exist() {
    let input = "....\n.^..\n";
    let g = parse_grid(input).unwrap();
    assert!(find_start_column(&g.rows[0]).is_err());
    assert_eq!(process_part1(input), Err(GridError::MissingStart));
}

#[test]
fn part1_tiny_single_split() {
    let input = "\
..S..
..^..
.....
";
    let (g, s) = grid_and_start(input).unwrap();
    let ans = process_part1_int(&g, s);
    assert_eq!(ans, 1);
}

#[test]
fn part1_two_splits_in_one_row() {
    let input = "\
..S..
..^..
.^.^.
.....
";
    let (g, s) = grid_and_start(input).unwrap();
    let ans = process_part1_int(&g, s);
    assert_eq!(ans, 3);
}

const PYRAMID: &str = "\
.......S.......
...............
.......^.......
...............
......^.^......
...............
.....^.^.^.....
...............
....^.^...^....
...............
...^.^...^.^...
...............
..^...^.....^..
...............
.^.^.^.^.^...^.
...............
";

#[test]
fn part1_example_from_prompt() {
    let ans = process_part1(PYRAMID).unwrap();
    assert_eq!(ans, 21);
}

#[test]
fn part2_example_counts_timelines() {
    let (g, s) = grid_and_start(PYRAMID).unwrap();
    let expected = enumerate_paths(&g, 0, s);
    assert_eq!(process_part2(PYRAMID).unwrap(), BigUint::from(expected));
    assert_eq!(expected, 40);
}

#[test]
fn header_row_only() {
    let (g, s) = grid_and_start("..S..\n").unwrap();
    assert_eq!(process_part1_int(&g, s), 0);
    assert_eq!(process_part2_int(&g, s), BigUint::from(1u32));
}

#[test]
fn blank_lines_and_crlf_are_dropped() {
    let g = parse_grid("\n  \n.S.\r\n...\r\n\n").unwrap();
    assert_eq!(g.rows.len(), 2);
    assert_eq!(g.width, 3);
    assert_eq!(g.rows[0], b".S.".to_vec());
}

#[test]
fn splitter_at_left_edge_drops_left_child() {
    let input = "S...\n^...\n....\n";
    let (g, s) = grid_and_start(input).unwrap();
    assert_eq!(process_part1_int(&g, s), 1);
    assert_eq!(process_part2_int(&g, s), BigUint::from(1u32));
    // The surviving beam is at column 1, not at the far right.
    let input = "S...\n^...\n.^.^\n....\n";
    assert_eq!(process_part1(input).unwrap(), 2);
    assert_eq!(process_part2(input).unwrap(), BigUint::from(2u32));
}

#[test]
fn splitter_at_right_edge_drops_right_child() {
    let input = "...S\n...^\n^...\n";
    assert_eq!(process_part1(input).unwrap(), 1);
    assert_eq!(process_part2(input).unwrap(), BigUint::from(1u32));
}

#[test]
fn single_column_splitter_ends_all_timelines() {
    let input = "S\n^\n.\n";
    assert_eq!(process_part1(input).unwrap(), 1);
    assert_eq!(process_part2(input).unwrap(), BigUint::from(0u32));
}

#[test]
fn wide_grid_carries_across_words() {
    // Beams cross the boundary between columns 63 and 64 in both directions.
    let w = 130;
    let mut rows: Vec<Vec<u8>> = vec![vec![b'.'; w]; 4];
    rows[0][64] = b'S';
    rows[1][64] = b'^';
    rows[2][63] = b'^';
    rows[2][65] = b'^';
    let text: String = rows
        .iter()
        .map(|r| String::from_utf8(r.clone()).unwrap() + "\n")
        .collect();
    assert_eq!(process_part1(&text).unwrap(), 3);
    assert_eq!(process_part2(&text).unwrap(), BigUint::from(4u32));
    let (g, s) = grid_and_start(&text).unwrap();
    assert_eq!(boolean_splits(&g, s), 3);
}

#[test]
fn engines_match_simple_oracles_on_sampled_grids() {
    for seed in 0..40u64 {
        let h = 1 + (seed as usize % 12);
        let w = 1 + (seed as usize * 7 % 70);
        let text = sample_grid(seed, h, w);
        let (g, s) = grid_and_start(&text).unwrap();
        assert_eq!(process_part1_int(&g, s), boolean_splits(&g, s));
        assert_eq!(process_part2_int(&g, s), BigUint::from(enumerate_paths(&g, 0, s)));
    }
}

#[test]
fn repeated_runs_agree() {
    let (g, s) = grid_and_start(PYRAMID).unwrap();
    assert_eq!(process_part1_int(&g, s), process_part1_int(&g, s));
    assert_eq!(process_part2_int(&g, s), process_part2_int(&g, s));
}

#[test]
fn timelines_grow_past_machine_words() {
    // Every row splits every beam, so counts double row after row.
    let w = 161;
    let h = 160;
    let mut text = String::new();
    for r in 0..h {
        for c in 0..w {
            let ch = if r == 0 {
                if c == 80 { 'S' } else { '.' }
            } else if (c + r) % 2 == 1 {
                '^'
            } else {
                '.'
            };
            text.push(ch);
        }
        text.push('\n');
    }
    let n = process_part2(&text).unwrap();
    assert!(n > BigUint::from(u64::MAX));
}

#[test]
fn split_masks_read_only_the_first_width_cells() {
    let rows = vec![b"^.^^^".to_vec(), b".^.".to_vec()];
    let masks = build_split_masks(&rows, 3, 1, 0b111);
    assert_eq!(masks, vec![vec![0b101u64], vec![0b010u64]]);
}

#[test]
fn timeline_step_writes_only_around_the_window() {
    let one = || BigUint::from(1u32);
    let cur = vec![BigUint::from(5u32), BigUint::from(0u32), one(), BigUint::from(0u32), BigUint::from(0u32), BigUint::from(7u32)];
    let mut next: Vec<BigUint> = (0..6u32).map(|i| BigUint::from(100 + i)).collect();
    let window = step_row_part2(b"..^...", &cur, &mut next, 2, 2);
    assert_eq!(window, (1, 3));
    assert_eq!(next[0], BigUint::from(100u32));
    assert_eq!(next[1], one());
    assert_eq!(next[2], BigUint::from(0u32));
    assert_eq!(next[3], one());
    assert_eq!(next[4], BigUint::from(104u32));
    assert_eq!(next[5], BigUint::from(105u32));
}

#[test]
fn last_line_keeps_a_lone_carriage_return() {
    assert_eq!(split_lines(b"ab\r\ncd\r"), vec![b"ab".to_vec(), b"cd\r".to_vec()]);
    assert_eq!(split_lines(b"ab\r\n"), vec![b"ab".to_vec()]);
}
