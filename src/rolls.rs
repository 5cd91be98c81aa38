//! Rolls of paper (`'@'`) on a grid of characters, and which of them a
//! forklift can reach: those with fewer than four rolls among their eight
//! neighbours.
use crate::text::{lines_of, split_lines};
use vstd::prelude::*;
use vstd::string::StringSliceAdditionalSpecFns;

verus! {

pub type Grid = Vec<Vec<char>>;

/// The grid has a first row, and every row is as wide as it.
pub open spec fn rectangular(g: Seq<Seq<char>>) -> bool {
    &&& g.len() >= 1
    &&& forall|r: int| 0 <= r < g.len() ==> (#[trigger] g[r]).len() == g[0].len()
}

/// One where cell `(i, j)` lies in the grid and holds a roll, else zero.
pub open spec fn roll_at(g: Seq<Seq<char>>, i: int, j: int) -> nat {
    if 0 <= i < g.len() && 0 <= j < g[0].len() && g[i][j] == '@' {
        1
    } else {
        0
    }
}

/// The rolls among the eight neighbours of `(r, c)`.
pub open spec fn adjacent(g: Seq<Seq<char>>, r: int, c: int) -> nat {
    roll_at(g, r - 1, c - 1) + roll_at(g, r - 1, c) + roll_at(g, r - 1, c + 1) + roll_at(g, r, c - 1)
        + roll_at(g, r, c + 1) + roll_at(g, r + 1, c - 1) + roll_at(g, r + 1, c) + roll_at(
        g,
        r + 1,
        c + 1,
    )
}

/// The grid of the text `s`: one row per line, one cell per byte.
pub open spec fn grid_of_text(s: Seq<u8>) -> Seq<Seq<char>> {
    lines_of(s).map_values(|l: Seq<u8>| l.map_values(|b: u8| b as char))
}

/// The grid of `s`: one row per line, one cell per character (the text is
/// taken to be ASCII, so a character is a byte).
pub fn process_input_grid(s: &str) -> (r: Grid)
    ensures
        r.deep_view() == grid_of_text(s.spec_bytes()),
{
    let lines = split_lines(s.as_bytes());
    let ghost ls = lines.deep_view();
    let mut out: Grid = Vec::new();
    let mut k: usize = 0;
    while k < lines.len()
        invariant
            k <= lines@.len(),
            ls == lines.deep_view(),
            out.deep_view() =~= ls.subrange(0, k as int).map_values(
                |l: Seq<u8>| l.map_values(|b: u8| b as char),
            ),
        decreases lines@.len() - k,
    {
        let line = &lines[k];
        let mut row: Vec<char> = Vec::new();
        let mut j: usize = 0;
        while j < line.len()
            invariant
                j <= line@.len(),
                row@ =~= line@.subrange(0, j as int).map_values(|b: u8| b as char),
            decreases line@.len() - j,
        {
            row.push(line[j] as char);
            j = j + 1;
        }
        proof {
            assert(line@.subrange(0, line@.len() as int) =~= line@);
            assert(lines@[k as int]@ =~= ls[k as int]);
            assert(row.deep_view() =~= row@);
            assert(ls.subrange(0, k + 1) =~= ls.subrange(0, k as int).push(ls[k as int]));
        }
        let ghost old_out = out.deep_view();
        out.push(row);
        proof {
            assert(out.deep_view() =~= old_out.push(row@));
        }
        k = k + 1;
    }
    proof {
        assert(ls.subrange(0, lines@.len() as int) =~= ls);
    }
    out
}

fn roll(grid: &Grid, i: usize, j: usize) -> (n: u8)
    requires
        rectangular(grid.deep_view()),
    ensures
        n == roll_at(grid.deep_view(), i as int, j as int),
{
    proof {
        assert(grid@[0]@ =~= grid.deep_view()[0]);
    }
    if i < grid.len() && j < grid[0].len() {
        proof {
            assert(grid@[i as int]@ =~= grid.deep_view()[i as int]);
        }
        if grid[i][j] == '@' {
            1
        } else {
            0
        }
    } else {
        0
    }
}

/// The rolls among the eight neighbours of cell `(r, c)`.
pub fn count_adjacent_rolls(grid: &Grid, r: usize, c: usize) -> (n: u8)
    requires
        rectangular(grid.deep_view()),
        r < grid@.len(),
        c < grid@[0]@.len(),
    ensures
        n == adjacent(grid.deep_view(), r as int, c as int),
{
    let ghost g = grid.deep_view();
    let rows = grid.len();
    let cols = grid[0].len();
    proof {
        assert(grid@[0]@ =~= g[0]);
    }
    let mut adj_rolls: u8 = 0;
    if r > 0 {
        if c > 0 {
            adj_rolls = adj_rolls + roll(grid, r - 1, c - 1);
        }
        adj_rolls = adj_rolls + roll(grid, r - 1, c);
        adj_rolls = adj_rolls + roll(grid, r - 1, c + 1);
    }
    if c > 0 {
        adj_rolls = adj_rolls + roll(grid, r, c - 1);
    }
    adj_rolls = adj_rolls + roll(grid, r, c + 1);
    if c > 0 {
        adj_rolls = adj_rolls + roll(grid, r + 1, c - 1);
    }
    adj_rolls = adj_rolls + roll(grid, r + 1, c);
    adj_rolls = adj_rolls + roll(grid, r + 1, c + 1);
    adj_rolls
}

/// What a single pass makes of a cell: `'x'` for a roll that can be
/// reached, `'@'` for one that cannot, `'.'` for anything else.
pub open spec fn marked(g: Seq<Seq<char>>, r: int, c: int) -> char {
    if g[r][c] != '@' {
        '.'
    } else if adjacent(g, r, c) < 4 {
        'x'
    } else {
        '@'
    }
}

pub open spec fn reachable(g: Seq<Seq<char>>, r: int, c: int) -> bool {
    g[r][c] == '@' && adjacent(g, r, c) < 4
}

/// The reachable rolls of row `r` in its first `n` columns.
pub open spec fn reachable_in_row(g: Seq<Seq<char>>, r: int, n: nat) -> nat
    decreases n,
{
    if n == 0 {
        0
    } else {
        reachable_in_row(g, r, (n - 1) as nat) + if reachable(g, r, n - 1) {
            1nat
        } else {
            0nat
        }
    }
}

/// The reachable rolls of the first `m` rows.
pub open spec fn reachable_count(g: Seq<Seq<char>>, m: nat) -> nat
    decreases m,
{
    if m == 0 {
        0
    } else {
        reachable_count(g, (m - 1) as nat) + reachable_in_row(g, m - 1, g[0].len())
    }
}

/// The outcome of marking: the marked grid, the passes made, and how many
/// rolls were taken.
#[derive(Debug, Clone)]
pub struct Stats {
    pub out: Grid,
    pub passes: usize,
    pub total_removed: usize,
}

proof fn lemma_row_count_le(g: Seq<Seq<char>>, r: int, n: nat)
    ensures
        reachable_in_row(g, r, n) <= n,
    decreases n,
{
    if n > 0 {
        lemma_row_count_le(g, r, (n - 1) as nat);
    }
}

/// One pass: marks every roll that can be reached, without taking any
/// away, and counts them.
pub fn process_grid_single(grid: &Grid) -> (st: Stats)
    requires
        rectangular(grid.deep_view()),
        grid@.len() * grid@[0]@.len() <= usize::MAX,
    ensures
        st.out.deep_view() == Seq::new(
            grid@.len(),
            |r: int| Seq::new(grid@[0]@.len(), |c: int| marked(grid.deep_view(), r, c)),
        ),
        st.passes == 0,
        st.total_removed == reachable_count(grid.deep_view(), grid@.len() as nat),
{
    let ghost g = grid.deep_view();
    let rows = grid.len();
    let cols = grid[0].len();
    proof {
        assert(grid@[0]@ =~= g[0]);
    }
    let ghost want = Seq::new(rows as nat, |r: int| Seq::new(cols as nat, |c: int| marked(g, r, c)));
    let mut total_removed: usize = 0;
    let passes: usize = 0;
    let mut out: Grid = Vec::new();
    let mut r: usize = 0;
    while r < rows
        invariant
            g == grid.deep_view(),
            rectangular(g),
            rows == g.len(),
            cols == g[0].len(),
            rows * cols <= usize::MAX,
            r <= rows,
            want == Seq::new(rows as nat, |r: int| Seq::new(cols as nat, |c: int| marked(g, r, c))),
            out.deep_view() =~= want.subrange(0, r as int),
            total_removed == reachable_count(g, r as nat),
            total_removed <= r * cols,
        decreases rows - r,
    {
        proof {
            assert(grid@[r as int]@ =~= g[r as int]);
        }
        let mut row: Vec<char> = Vec::new();
        let mut in_row: usize = 0;
        let mut c: usize = 0;
        while c < cols
            invariant
                g == grid.deep_view(),
                rectangular(g),
                rows == g.len(),
                cols == g[0].len(),
                r < rows,
                c <= cols,
                grid@[r as int]@ == g[r as int],
                row@ =~= Seq::new(c as nat, |j: int| marked(g, r as int, j)),
                in_row == reachable_in_row(g, r as int, c as nat),
                in_row <= c,
            decreases cols - c,
        {
            if grid[r][c] != '@' {
                row.push('.');
            } else {
                let adj_rolls = count_adjacent_rolls(grid, r, c);
                if adj_rolls < 4 {
                    row.push('x');
                    in_row = in_row + 1;
                } else {
                    row.push('@');
                }
            }
            c = c + 1;
        }
        proof {
            assert(row.deep_view() =~= row@);
            assert((r + 1) * cols == r * cols + cols) by (nonlinear_arith);
            assert((r + 1) * cols <= rows * cols) by (nonlinear_arith)
                requires
                    r + 1 <= rows,
            ;
        }
        let ghost old_out = out.deep_view();
        out.push(row);
        proof {
            assert(out.deep_view() =~= old_out.push(row@));
            assert(want.subrange(0, r + 1) =~= want.subrange(0, r as int).push(want[r as int]));
        }
        total_removed = total_removed + in_row;
        r = r + 1;
    }
    Stats { out, passes, total_removed }
}

/// One round of taking rolls away: every roll that can be reached, all at
/// once, becomes `'x'`; every other cell stays.
pub open spec fn round(g: Seq<Seq<char>>) -> Seq<Seq<char>> {
    Seq::new(
        g.len(),
        |r: int| Seq::new(g[r].len(), |c: int| if reachable(g, r, c) { 'x' } else { g[r][c] }),
    )
}

/// The grid after `k` rounds.
pub open spec fn peel(g: Seq<Seq<char>>, k: nat) -> Seq<Seq<char>>
    decreases k,
{
    if k == 0 {
        g
    } else {
        round(peel(g, (k - 1) as nat))
    }
}

/// The rolls of row `r` in its first `n` columns.
pub open spec fn rolls_in_row(g: Seq<Seq<char>>, r: int, n: nat) -> nat
    decreases n,
{
    if n == 0 {
        0
    } else {
        rolls_in_row(g, r, (n - 1) as nat) + if g[r][n - 1] == '@' {
            1nat
        } else {
            0nat
        }
    }
}

/// The rolls of the first `m` rows.
pub open spec fn roll_total(g: Seq<Seq<char>>, m: nat) -> nat
    decreases m,
{
    if m == 0 {
        0
    } else {
        roll_total(g, (m - 1) as nat) + rolls_in_row(g, m - 1, g[0].len())
    }
}

proof fn lemma_round_row(g: Seq<Seq<char>>, r: int, n: nat)
    requires
        rectangular(g),
        0 <= r < g.len(),
        n <= g[0].len(),
    ensures
        rolls_in_row(round(g), r, n) + reachable_in_row(g, r, n) == rolls_in_row(g, r, n),
    decreases n,
{
    if n > 0 {
        lemma_round_row(g, r, (n - 1) as nat);
    }
}

proof fn lemma_round_total(g: Seq<Seq<char>>, m: nat)
    requires
        rectangular(g),
        m <= g.len(),
    ensures
        roll_total(round(g), m) + reachable_count(g, m) == roll_total(g, m),
    decreases m,
{
    if m > 0 {
        lemma_round_total(g, (m - 1) as nat);
        assert(round(g)[0].len() == g[0].len());
        lemma_round_row(g, m - 1, g[0].len());
    }
}

proof fn lemma_round_rectangular(g: Seq<Seq<char>>)
    requires
        rectangular(g),
    ensures
        rectangular(round(g)),
        round(g).len() == g.len(),
        round(g)[0].len() == g[0].len(),
{
}

proof fn lemma_row_rolls_le(g: Seq<Seq<char>>, r: int, n: nat)
    ensures
        rolls_in_row(g, r, n) <= n,
    decreases n,
{
    if n > 0 {
        lemma_row_rolls_le(g, r, (n - 1) as nat);
    }
}

proof fn lemma_roll_total_le(g: Seq<Seq<char>>, m: nat)
    ensures
        roll_total(g, m) <= m * g[0].len(),
    decreases m,
{
    if m > 0 {
        lemma_roll_total_le(g, (m - 1) as nat);
        lemma_row_rolls_le(g, m - 1, g[0].len());
        assert((m - 1) * g[0].len() + g[0].len() == m * g[0].len()) by (nonlinear_arith)
            requires
                m >= 1,
        ;
    }
}

/// The rolls of the grid.
fn count_rolls(grid: &Grid) -> (n: usize)
    requires
        rectangular(grid.deep_view()),
        grid@.len() * grid@[0]@.len() <= usize::MAX,
    ensures
        n == roll_total(grid.deep_view(), grid@.len() as nat),
{
    let ghost g = grid.deep_view();
    let rows = grid.len();
    let cols = grid[0].len();
    proof {
        assert(grid@[0]@ =~= g[0]);
    }
    let mut total: usize = 0;
    let mut r: usize = 0;
    while r < rows
        invariant
            g == grid.deep_view(),
            rectangular(g),
            rows == g.len(),
            cols == g[0].len(),
            rows * cols <= usize::MAX,
            r <= rows,
            total == roll_total(g, r as nat),
            total <= r * cols,
        decreases rows - r,
    {
        proof {
            assert(grid@[r as int]@ =~= g[r as int]);
        }
        let mut in_row: usize = 0;
        let mut c: usize = 0;
        while c < cols
            invariant
                g == grid.deep_view(),
                rectangular(g),
                rows == g.len(),
                cols == g[0].len(),
                r < rows,
                c <= cols,
                grid@[r as int]@ == g[r as int],
                in_row == rolls_in_row(g, r as int, c as nat),
                in_row <= c,
            decreases cols - c,
        {
            if grid[r][c] == '@' {
                in_row = in_row + 1;
            }
            c = c + 1;
        }
        proof {
            assert((r + 1) * cols == r * cols + cols) by (nonlinear_arith);
            assert((r + 1) * cols <= rows * cols) by (nonlinear_arith)
                requires
                    r + 1 <= rows,
            ;
        }
        total = total + in_row;
        r = r + 1;
    }
    total
}

/// One round: the grid with every reachable roll taken, and how many
/// were taken.
fn peel_round(grid: &Grid) -> (res: (Grid, usize))
    requires
        rectangular(grid.deep_view()),
        grid@.len() * grid@[0]@.len() <= usize::MAX,
    ensures
        res.0.deep_view() == round(grid.deep_view()),
        res.1 == reachable_count(grid.deep_view(), grid@.len() as nat),
{
    let ghost g = grid.deep_view();
    let rows = grid.len();
    let cols = grid[0].len();
    proof {
        assert(grid@[0]@ =~= g[0]);
    }
    let ghost want = round(g);
    let mut removed: usize = 0;
    let mut out: Grid = Vec::new();
    let mut r: usize = 0;
    while r < rows
        invariant
            g == grid.deep_view(),
            rectangular(g),
            rows == g.len(),
            cols == g[0].len(),
            rows * cols <= usize::MAX,
            r <= rows,
            want == round(g),
            out.deep_view() =~= want.subrange(0, r as int),
            removed == reachable_count(g, r as nat),
            removed <= r * cols,
        decreases rows - r,
    {
        proof {
            assert(grid@[r as int]@ =~= g[r as int]);
        }
        let mut row: Vec<char> = Vec::new();
        let mut in_row: usize = 0;
        let mut c: usize = 0;
        while c < cols
            invariant
                g == grid.deep_view(),
                rectangular(g),
                rows == g.len(),
                cols == g[0].len(),
                r < rows,
                c <= cols,
                grid@[r as int]@ == g[r as int],
                row@ =~= Seq::new(c as nat, |j: int| if reachable(g, r as int, j) { 'x' } else { g[r as int][j] }),
                in_row == reachable_in_row(g, r as int, c as nat),
                in_row <= c,
            decreases cols - c,
        {
            let ch = grid[r][c];
            if ch == '@' && count_adjacent_rolls(grid, r, c) < 4 {
                row.push('x');
                in_row = in_row + 1;
            } else {
                row.push(ch);
            }
            c = c + 1;
        }
        proof {
            assert(row.deep_view() =~= row@);
            assert(want[r as int] =~= row@);
            assert((r + 1) * cols == r * cols + cols) by (nonlinear_arith);
            assert((r + 1) * cols <= rows * cols) by (nonlinear_arith)
                requires
                    r + 1 <= rows,
            ;
        }
        let ghost old_out = out.deep_view();
        out.push(row);
        proof {
            assert(out.deep_view() =~= old_out.push(row@));
            assert(want.subrange(0, r + 1) =~= want.subrange(0, r as int).push(want[r as int]));
        }
        removed = removed + in_row;
        r = r + 1;
    }
    proof {
        assert(want.subrange(0, rows as int) =~= want);
    }
    (out, removed)
}

/// Takes rolls away round after round, each round every roll that can be
/// reached at its start, until none can: the grid that is left (taken rolls
/// as `'x'`), the rounds that took at least one roll, and how many were
/// taken in all.
pub fn process_grid_multi(grid: &Grid) -> (st: Stats)
    requires
        rectangular(grid.deep_view()),
        grid@.len() * grid@[0]@.len() <= usize::MAX,
    ensures
        st.out.deep_view() == peel(grid.deep_view(), st.passes as nat),
        reachable_count(peel(grid.deep_view(), st.passes as nat), grid@.len() as nat) == 0,
        forall|j: nat| j < st.passes ==> reachable_count(#[trigger] peel(grid.deep_view(), j), grid@.len() as nat) > 0,
        st.total_removed + roll_total(st.out.deep_view(), grid@.len() as nat) == roll_total(
            grid.deep_view(),
            grid@.len() as nat,
        ),
{
    let ghost g = grid.deep_view();
    let rows = grid.len();
    let cols = grid[0].len();
    proof {
        assert(grid@[0]@ =~= g[0]);
    }
    let first = peel_round(grid);
    let mut out: Grid = first.0;
    let mut removed = first.1;
    let ghost mut before = g;
    let initial = count_rolls(grid);
    let mut left: usize = initial;
    let mut passes: usize = 0;
    let mut total_removed: usize = 0;
    proof {
        lemma_round_total(g, rows as nat);
        lemma_round_rectangular(g);
        lemma_roll_total_le(g, rows as nat);
    }
    while removed > 0
        invariant
            g == grid.deep_view(),
            rows == g.len(),
            cols == g[0].len(),
            rows * cols <= usize::MAX,
            rectangular(before),
            before.len() == rows,
            before[0].len() == cols,
            before == peel(g, passes as nat),
            out.deep_view() == round(before),
            removed == reachable_count(before, rows as nat),
            left == roll_total(before, rows as nat),
            total_removed + left == roll_total(g, rows as nat),
            roll_total(g, rows as nat) <= rows * cols,
            roll_total(round(before), rows as nat) + removed == left,
            passes <= total_removed,
            forall|j: nat| j < passes ==> reachable_count(#[trigger] peel(g, j), rows as nat) > 0,
        decreases left,
    {
        proof {
            lemma_round_rectangular(before);
            assert(forall|j: nat| j < passes + 1 ==> reachable_count(#[trigger] peel(g, j), rows as nat) > 0);
            before = round(before);
            assert(out@[0]@ =~= before[0]);
        }
        passes = passes + 1;
        total_removed = total_removed + removed;
        left = left - removed;
        let next = peel_round(&out);
        proof {
            lemma_round_total(before, rows as nat);
        }
        out = next.0;
        removed = next.1;
    }
    proof {
        assert(out.deep_view() == before) by {
            assert(round(before) =~= before) by {
                assert forall|r: int| 0 <= r < before.len() implies round(before)[r] =~= before[r] by {
                    assert forall|c: int| 0 <= c < before[r].len() implies !reachable(before, r, c) by {
                        lemma_none_reachable(before, rows as nat, r, c);
                    }
                }
            }
        }
    }
    Stats { out, passes, total_removed }
}

proof fn lemma_none_reachable(g: Seq<Seq<char>>, m: nat, r: int, c: int)
    requires
        rectangular(g),
        m <= g.len(),
        reachable_count(g, m) == 0,
        0 <= r < m,
        0 <= c < g[0].len(),
    ensures
        !reachable(g, r, c),
    decreases m,
{
    if r < m - 1 {
        lemma_none_reachable(g, (m - 1) as nat, r, c);
    } else {
        lemma_row_none(g, r, g[0].len(), c);
    }
}

proof fn lemma_row_none(g: Seq<Seq<char>>, r: int, n: nat, c: int)
    requires
        reachable_in_row(g, r, n) == 0,
        0 <= c < n,
    ensures
        !reachable(g, r, c),
    decreases n,
{
    if c < n - 1 {
        lemma_row_none(g, r, (n - 1) as nat, c);
    }
}

} // verus!
