use puzzle_kit::rolls::{
    count_adjacent_rolls, process_grid_multi, process_grid_single, process_input_grid, Grid,
};

/// Helper to create a grid from a string representation
fn grid_from_str(s: &str) -> Grid {
    s.lines()
        .filter(|line| !line.is_empty())
        .map(|line| line.chars().collect())
        .collect()
}

/// Helper to count '@' symbols in a grid
fn count_rolls(grid: &Grid) -> usize {
    grid.iter().flat_map(|row| row.iter()).filter(|&&c| c == '@').count()
}

/// Helper to count 'x' symbols (removed rolls) in a grid
fn count_removed(grid: &Grid) -> usize {
    grid.iter().flat_map(|row| row.iter()).filter(|&&c| c == 'x').count()
}

#[test]
fn test_count_adjacent_rolls() {
    let grid = grid_from_str("@@@\n@@@\n@@@");
    assert_eq!(count_adjacent_rolls(&grid, 1, 1), 8);
    assert_eq!(count_adjacent_rolls(&grid, 0, 0), 3);
    assert_eq!(count_adjacent_rolls(&grid, 0, 1), 5);
}

#[test]
fn test_count_adjacent_with_gaps() {
    let grid = grid_from_str("@.@\n.@.\n@.@");
    assert_eq!(count_adjacent_rolls(&grid, 1, 1), 4);
    assert_eq!(count_adjacent_rolls(&grid, 0, 0), 1);
    assert_eq!(count_adjacent_rolls(&grid, 0, 2), 1);
}

#[test]
fn input_grid_keeps_every_line() {
    let grid = process_input_grid("@.\n\n.@\n");
    assert_eq!(grid, vec![vec!['@', '.'], vec![], vec!['.', '@']]);
}

#[test]
fn single_pass_marks_reachable_rolls() {
    let grid = grid_from_str(".@.\n@@@\n.@.");
    let stats = process_grid_single(&grid);
    assert_eq!(stats.total_removed, 4);
    assert_eq!(stats.passes, 0);
    assert_eq!(count_rolls(&stats.out), 1);
    assert_eq!(count_removed(&stats.out), 4);
    assert_eq!(stats.out[1], vec!['x', '@', 'x']);
    let grid = grid_from_str("...\n...\n...");
    let stats = process_grid_single(&grid);
    assert_eq!(stats.total_removed, 0);
    assert_eq!(count_removed(&stats.out), 0);
}

#[test]
fn test_empty_grid() {
    let grid = grid_from_str("...\n...\n...");

    let stats_single = process_grid_single(&grid);
    assert_eq!(stats_single.total_removed, 0);
    assert_eq!(count_removed(&stats_single.out), 0);

    let stats_multi = process_grid_multi(&grid);
    assert_eq!(stats_multi.total_removed, 0);
    assert_eq!(stats_multi.passes, 0);
}

#[test]
fn test_single_roll() {
    let grid = grid_from_str("...\n.@.\n...");

    let stats_single = process_grid_single(&grid);
    assert_eq!(stats_single.total_removed, 1);
    assert_eq!(count_rolls(&stats_single.out), 0);

    let stats_multi = process_grid_multi(&grid);
    assert_eq!(stats_multi.total_removed, 1);
    assert_eq!(stats_multi.passes, 1);
}

#[test]
fn test_two_by_two_grid() {
    let grid = grid_from_str("@@\n@@");

    let stats_single = process_grid_single(&grid);
    assert_eq!(stats_single.total_removed, 4);
    assert_eq!(count_rolls(&stats_single.out), 0);

    let stats_multi = process_grid_multi(&grid);
    assert_eq!(stats_multi.total_removed, 4);
    assert!(stats_multi.passes > 0);
}

#[test]
fn test_three_by_three_all_rolls() {
    let grid = grid_from_str("@@@\n@@@\n@@@");

    let stats_single = process_grid_single(&grid);
    assert_eq!(stats_single.total_removed, 4);
    assert_eq!(count_rolls(&stats_single.out), 5);

    let stats_multi = process_grid_multi(&grid);
    assert_eq!(stats_multi.total_removed, 9);
    assert_eq!(count_rolls(&stats_multi.out), 0);
    assert!(stats_multi.passes > 1);
}

#[test]
fn test_single_vs_multi_difference() {
    let grid = grid_from_str(".@.\n@@@\n.@.");

    let stats_single = process_grid_single(&grid);
    assert_eq!(stats_single.total_removed, 4);
    assert_eq!(count_rolls(&stats_single.out), 1);

    let stats_multi = process_grid_multi(&grid);
    assert_eq!(stats_multi.total_removed, 5);
    assert_eq!(count_rolls(&stats_multi.out), 0);
    assert_eq!(stats_multi.passes, 2);
}

#[test]
fn test_isolated_groups() {
    let grid = grid_from_str("@@...@@\n@@...@@");

    let stats_single = process_grid_single(&grid);
    assert_eq!(stats_single.total_removed, 8);

    let stats_multi = process_grid_multi(&grid);
    assert_eq!(stats_multi.total_removed, 8);
}

#[test]
fn test_stable_configuration() {
    let grid = grid_from_str("@@@@\n@@@@\n@@@@\n@@@@");

    let stats_single = process_grid_single(&grid);
    assert_eq!(stats_single.total_removed, 4);
    assert_eq!(count_rolls(&stats_single.out), 12);

    let stats_multi = process_grid_multi(&grid);
    assert_eq!(stats_multi.total_removed, 4);
    assert_eq!(stats_multi.passes, 1);
    assert_eq!(count_rolls(&stats_multi.out), 12);
}

#[test]
fn test_boundary_cells() {
    let grid = grid_from_str("@\n@");

    let stats_single = process_grid_single(&grid);
    assert_eq!(stats_single.total_removed, 2);

    let stats_multi = process_grid_multi(&grid);
    assert_eq!(stats_multi.total_removed, 2);
}

#[test]
fn test_line_of_rolls() {
    let grid = grid_from_str("@@@@@");

    let stats_single = process_grid_single(&grid);
    assert_eq!(stats_single.total_removed, 5);

    let stats_multi = process_grid_multi(&grid);
    assert_eq!(stats_multi.total_removed, 5);
    assert_eq!(stats_multi.passes, 1);
}

#[test]
fn test_multi_pass_cascading() {
    let grid = grid_from_str("@@@@@\n@...@\n@...@\n@...@\n@@@@@");

    let stats_single = process_grid_single(&grid);
    assert!(stats_single.total_removed > 0);

    let stats_multi = process_grid_multi(&grid);
    assert_eq!(stats_multi.total_removed, 16);
    assert_eq!(stats_multi.passes, 1);
}

#[test]
fn test_stable_core_pattern() {
    let grid = grid_from_str("@@@@@\n@@@@@\n@@@@@\n@@@@@\n@@@@@");

    let stats_single = process_grid_single(&grid);
    assert_eq!(stats_single.total_removed, 4);
    assert!(count_rolls(&stats_single.out) > 0);

    let stats_multi = process_grid_multi(&grid);
    assert_eq!(stats_multi.total_removed, 4);
    assert_eq!(stats_multi.passes, 1);
    assert_eq!(count_rolls(&stats_multi.out), 21);
}

#[test]
fn test_aoc_pattern_single_vs_multi() {
    let input = "..@@.@@@@.\n\
                 @@@.@.@.@@\n\
                 @@@@@.@.@@\n\
                 @.@@@@..@.\n\
                 @@.@@@@.@@\n\
                 .@@@@@@@.@\n\
                 .@.@.@.@@@\n\
                 @.@@@.@@@@\n\
                 .@@@@@@@@.\n\
                 @.@.@@@.@.";

    let grid = grid_from_str(input);

    let stats_single = process_grid_single(&grid);
    assert_eq!(stats_single.total_removed, 13);

    let stats_multi = process_grid_multi(&grid);
    assert_eq!(stats_multi.total_removed, 43);
}

#[test]
fn multi_pass_keeps_other_cells() {
    let grid = grid_from_str("x@.\n...");
    let stats = process_grid_multi(&grid);
    assert_eq!(stats.out, vec![vec!['x', 'x', '.'], vec!['.', '.', '.']]);
    assert_eq!(stats.total_removed, 1);
    assert_eq!(stats.passes, 1);
}
