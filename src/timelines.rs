//! Counting timelines: the multiplicity engine.
//!
//! The model keeps, for each row, how many timelines stand on each column
//! (`timelines`); a timeline on a splitter becomes two, one on each side,
//! and timelines that would leave the row are lost. The engine works only
//! on an active window of columns outside which every count is zero.
use crate::bignum::{big_add, big_is_zero, big_one, big_value, big_zero};
use crate::grid::{
    find_start_column, first_start, grid_lines, has_start, is_grid, lemma_first_start,
    parse_grid, rejects, Grid, GridError, SPLITTER,
};
use crate::splits::splitter_row;
use num_bigint::BigUint;
use vstd::prelude::*;
use vstd::string::StringSliceAdditionalSpecFns;

verus! {

/// What column `c` of `prev` sends to column `x` of the next row.
pub open spec fn sent(prev: Seq<nat>, split: Seq<bool>, c: int, x: int) -> nat {
    if !split[c] && x == c {
        prev[c]
    } else if split[c] && (x == c - 1 || x == c + 1) {
        prev[c]
    } else {
        0
    }
}

/// The counts after crossing a row whose splitters are `split`.
pub open spec fn next_counts(prev: Seq<nat>, split: Seq<bool>) -> Seq<nat> {
    Seq::new(
        prev.len(),
        |x: int|
            (if x > 0 {
                sent(prev, split, x - 1, x)
            } else {
                0nat
            }) + sent(prev, split, x, x) + (if x + 1 < prev.len() {
                sent(prev, split, x + 1, x)
            } else {
                0nat
            }),
    )
}

/// The timelines on each column after row `r` of the grid `g`, `w` columns
/// wide, entered at column `s` of row 0.
pub open spec fn timelines(g: Seq<Seq<u8>>, w: nat, s: int, r: nat) -> Seq<nat>
    decreases r,
{
    if r == 0 {
        Seq::new(w, |c: int| if c == s { 1nat } else { 0nat })
    } else {
        next_counts(timelines(g, w, s, (r - 1) as nat), splitter_row(g[r as int]))
    }
}

pub open spec fn sum_nat(v: Seq<nat>) -> nat
    decreases v.len(),
{
    if v.len() == 0 {
        0
    } else {
        sum_nat(v.drop_last()) + v.last()
    }
}

/// The timelines that reach the bottom of a grid of `h` rows; with no row
/// to descend into, the start itself is the one timeline.
pub open spec fn total_timelines(g: Seq<Seq<u8>>, w: nat, s: int, h: nat) -> nat {
    if h <= 1 {
        1
    } else {
        sum_nat(timelines(g, w, s, (h - 1) as nat))
    }
}

/// The values of a row of big integers.
pub open spec fn values(v: Seq<BigUint>) -> Seq<nat> {
    Seq::new(v.len(), |i: int| big_value(v[i]))
}

/// `[l, r]` is the smallest window of `v` outside which all is zero.
pub open spec fn tight(v: Seq<nat>, l: int, r: int) -> bool {
    &&& 0 <= l <= r < v.len()
    &&& v[l] != 0
    &&& v[r] != 0
    &&& forall|c: int| 0 <= c < v.len() && (c < l || c > r) ==> v[c] == 0
}

pub open spec fn all_zero(v: Seq<nat>) -> bool {
    forall|c: int| 0 <= c < v.len() ==> v[c] == 0
}

/// What the columns `a .. b` of `prev` send to column `x`.
pub open spec fn sent_from(prev: Seq<nat>, split: Seq<bool>, a: int, b: int, x: int) -> nat
    decreases b - a,
{
    if b <= a {
        0
    } else {
        sent_from(prev, split, a, b - 1, x) + sent(prev, split, b - 1, x)
    }
}

proof fn lemma_sent_from(prev: Seq<nat>, split: Seq<bool>, a: int, b: int, x: int)
    ensures
        sent_from(prev, split, a, b, x) == (if a <= x - 1 < b {
            sent(prev, split, x - 1, x)
        } else {
            0
        }) + (if a <= x < b {
            sent(prev, split, x, x)
        } else {
            0
        }) + (if a <= x + 1 < b {
            sent(prev, split, x + 1, x)
        } else {
            0
        }),
    decreases b - a,
{
    if b > a {
        lemma_sent_from(prev, split, a, b - 1, x);
    }
}

/// The counts of the next row, in the columns that can hold any.
pub proof fn lemma_next_counts_window(prev: Seq<nat>, split: Seq<bool>, l: int, r: int, x: int)
    requires
        prev.len() == split.len(),
        0 <= l <= r < prev.len(),
        forall|c: int| 0 <= c < prev.len() && (c < l || c > r) ==> prev[c] == 0,
        0 <= x < prev.len(),
    ensures
        next_counts(prev, split)[x] == sent_from(prev, split, l, r + 1, x),
        (x < l - 1 || x > r + 1) ==> next_counts(prev, split)[x] == 0,
{
    lemma_sent_from(prev, split, l, r + 1, x);
}

/// `(a, b)` is the window that trimming `v[nl ..= nr]` from both ends
/// leaves: its first and last non-zero columns, or `(0, 0)` where all of
/// them are zero.
pub open spec fn trimmed(v: Seq<nat>, nl: int, nr: int, a: int, b: int) -> bool {
    if forall|c: int| nl <= c <= nr ==> v[c] == 0 {
        a == 0 && b == 0
    } else {
        &&& nl <= a <= b <= nr
        &&& v[a] != 0
        &&& v[b] != 0
        &&& forall|c: int| nl <= c < a ==> v[c] == 0
        &&& forall|c: int| b < c <= nr ==> v[c] == 0
    }
}

/// One row of the multiplicity engine. From the counts `cur` in the window
/// `[l, r]`, on the grid row `row`, it writes into `next`, over the columns
/// `[l - 1, r + 1]` that lie in the row, what those columns receive, and
/// leaves the rest of `next` as it was; it returns that range trimmed of its
/// zero ends, or `(0, 0)` when all of it is zero. Where `cur` is zero outside
/// `[l, r]`, what is written is the next row's counts, which are zero
/// outside the range, and the window returned is their tight window.
pub fn step_row_part2(row: &[u8], cur: &[BigUint], next: &mut [BigUint], l: usize, r: usize) -> (res: (
    usize,
    usize,
))
    requires
        row@.len() == cur@.len() == old(next)@.len(),
        l <= r < cur@.len(),
    ensures
        final(next)@.len() == cur@.len(),
        ({
            let w = cur@.len() as int;
            let prev = values(cur@);
            let split = splitter_row(row@);
            let nc = next_counts(prev, split);
            let nl = if l > 0 {
                l - 1
            } else {
                0
            };
            let nr = if r + 1 < w {
                r + 1
            } else {
                w - 1
            };
            &&& forall|c: int|
                nl <= c <= nr ==> #[trigger] values(final(next)@)[c] == sent_from(
                    prev,
                    split,
                    l as int,
                    r + 1,
                    c,
                )
            &&& forall|c: int|
                0 <= c < w && (c < nl || c > nr) ==> #[trigger] final(next)@[c] == old(next)@[c]
            &&& trimmed(values(final(next)@), nl, nr, res.0 as int, res.1 as int)
            &&& (forall|c: int| 0 <= c < w && (c < l || c > r) ==> prev[c] == 0) ==> {
                &&& forall|c: int| nl <= c <= nr ==> values(final(next)@)[c] == nc[c]
                &&& forall|c: int| 0 <= c < w && (c < nl || c > nr) ==> #[trigger] nc[c] == 0
                &&& if all_zero(nc) {
                    res == (0usize, 0usize)
                } else {
                    tight(nc, res.0 as int, res.1 as int)
                }
            }
        }),
{
    let w = cur.len();
    let ghost prev = values(cur@);
    let ghost split = splitter_row(row@);
    let ghost nc = next_counts(prev, split);
    let ghost before = next@;
    // The counts can spread by at most one column on each side.
    let nl = if l > 0 {
        l - 1
    } else {
        0
    };
    let nr = if r + 1 < w {
        r + 1
    } else {
        w - 1
    };
    // Clear only the columns that can be written.
    let mut c: usize = nl;
    while c <= nr
        invariant
            nl <= c <= nr + 1,
            nr < w == next@.len() == before.len(),
            forall|x: int| nl <= x < c ==> big_value(next@[x]) == 0,
            forall|x: int| 0 <= x < w && (x < nl || x >= c) ==> next@[x] == before[x],
        decreases nr + 1 - c,
    {
        next[c] = big_zero();
        c = c + 1;
    }
    // Move each count on.
    let mut c: usize = l;
    proof {
        assert forall|x: int| nl <= x <= nr implies big_value(next@[x]) == sent_from(
            prev,
            split,
            l as int,
            l as int,
            x,
        ) by {}
    }
    while c <= r
        invariant
            l <= c <= r + 1,
            r < w,
            nr < w == next@.len() == cur@.len() == row@.len(),
            nl == (if l > 0 {
                l - 1
            } else {
                0
            }),
            nr == (if r + 1 < w {
                r + 1
            } else {
                w - 1
            }),
            prev == values(cur@),
            split == splitter_row(row@),
            before.len() == w,
            forall|x: int| nl <= x <= nr ==> big_value(next@[x]) == sent_from(prev, split, l as int, c as int, x),
            forall|x: int| 0 <= x < w && (x < nl || x > nr) ==> next@[x] == before[x],
        decreases r + 1 - c,
    {
        if !big_is_zero(&cur[c]) {
            if row[c] == SPLITTER {
                if c > 0 {
                    next[c - 1] = big_add(&next[c - 1], &cur[c]);
                }
                if c + 1 < w {
                    next[c + 1] = big_add(&next[c + 1], &cur[c]);
                }
            } else {
                next[c] = big_add(&next[c], &cur[c]);
            }
        }
        proof {
            assert forall|x: int| nl <= x <= nr implies big_value(next@[x]) == sent_from(
                prev,
                split,
                l as int,
                c + 1,
                x,
            ) by {
                assert(sent_from(prev, split, l as int, c + 1, x) == sent_from(
                    prev,
                    split,
                    l as int,
                    c as int,
                    x,
                ) + sent(prev, split, c as int, x));
            }
        }
        c = c + 1;
    }
    let ghost fv = values(next@);
    // Trim the window from the left.
    let mut new_l = nl;
    let mut found = false;
    while !found && new_l <= nr
        invariant
            nl <= new_l <= nr + 1,
            nr < w == next@.len(),
            fv == values(next@),
            forall|x: int| nl <= x < new_l ==> fv[x] == 0,
            found ==> new_l <= nr && fv[new_l as int] != 0,
        decreases nr + 1 - new_l, if found { 0int } else { 1int },
    {
        if big_is_zero(&next[new_l]) {
            new_l = new_l + 1;
        } else {
            found = true;
        }
    }
    let mut res: (usize, usize) = (0, 0);
    if found {
        // Trim the window from the right.
        let mut new_r = nr;
        let mut found_r = false;
        while !found_r
            invariant
                nl <= new_l <= new_r <= nr,
                nr < w == next@.len(),
                fv == values(next@),
                fv[new_l as int] != 0,
                forall|x: int| new_r < x <= nr ==> fv[x] == 0,
                found_r ==> fv[new_r as int] != 0,
            decreases new_r, if found_r { 0int } else { 1int },
        {
            if big_is_zero(&next[new_r]) {
                new_r = new_r - 1;
            } else {
                found_r = true;
            }
        }
        res = (new_l, new_r);
    }
    proof {
        if forall|x: int| 0 <= x < w && (x < l || x > r) ==> prev[x] == 0 {
            assert forall|x: int| 0 <= x < w implies (nl <= x <= nr ==> fv[x] == nc[x]) && ((x < nl
                || x > nr) ==> nc[x] == 0) by {
                lemma_next_counts_window(prev, split, l as int, r as int, x);
            }
            if found {
                assert(!all_zero(nc)) by {
                    assert(nc[res.0 as int] != 0);
                }
            } else {
                assert(all_zero(nc)) by {
                    assert forall|x: int| 0 <= x < nc.len() implies nc[x] == 0 by {
                        if nl <= x <= nr {
                            assert(fv[x] == 0);
                        }
                    }
                }
            }
        }
        if !found {
            assert(forall|c: int| nl <= c <= nr ==> fv[c] == 0);
        }
    }
    res
}

/// A tight window moves by at most one column on each side per row: the
/// columns of the old window lie within one column of the new one, so a
/// buffer cleared only around the new window still holds zero outside it.
pub proof fn lemma_window_moves(prev: Seq<nat>, split: Seq<bool>, l: int, r: int, a: int, b: int)
    requires
        prev.len() == split.len(),
        tight(prev, l, r),
        tight(next_counts(prev, split), a, b),
    ensures
        a <= l + 1,
        r <= b + 1,
{
    let nc = next_counts(prev, split);
    let w = prev.len() as int;
    if split[l] && l == 0 && w == 1 {
        assert(nc[0] == 0);
    } else if !split[l] {
        assert(nc[l] >= prev[l]);
    } else if l > 0 {
        assert(nc[l - 1] >= prev[l]);
    } else {
        assert(nc[l + 1] >= prev[l]);
    }
    if split[r] && r == 0 && w == 1 {
        assert(nc[0] == 0);
    } else if !split[r] {
        assert(nc[r] >= prev[r]);
    } else if r + 1 < w {
        assert(nc[r + 1] >= prev[r]);
    } else {
        assert(nc[r - 1] >= prev[r]);
    }
}

proof fn lemma_sum_zero(v: Seq<nat>)
    requires
        all_zero(v),
    ensures
        sum_nat(v) == 0,
    decreases v.len(),
{
    if v.len() > 0 {
        lemma_sum_zero(v.drop_last());
    }
}

/// Only the window adds to the sum.
proof fn lemma_sum_window(v: Seq<nat>, l: int, r: int, k: int)
    requires
        0 <= l <= r < v.len(),
        forall|c: int| 0 <= c < v.len() && (c < l || c > r) ==> v[c] == 0,
        0 <= k <= v.len(),
    ensures
        sum_nat(v.subrange(0, k)) == if k <= l {
            0
        } else if k <= r + 1 {
            sum_nat(v.subrange(l, k))
        } else {
            sum_nat(v.subrange(l, r + 1))
        },
    decreases k,
{
    if k > 0 {
        lemma_sum_window(v, l, r, k - 1);
        assert(v.subrange(0, k).drop_last() =~= v.subrange(0, k - 1));
        assert(sum_nat(v.subrange(0, k)) == sum_nat(v.subrange(0, k - 1)) + v[k - 1]);
        if l < k <= r + 1 {
            assert(v.subrange(l, k).drop_last() =~= v.subrange(l, k - 1));
            assert(sum_nat(v.subrange(l, k)) == sum_nat(v.subrange(l, k - 1)) + v[k - 1]);
            if k - 1 == l {
                assert(v.subrange(l, l) =~= Seq::<nat>::empty());
            }
        } else {
            assert(v[k - 1] == 0);
        }
    } else {
        assert(v.subrange(0, 0) =~= Seq::<nat>::empty());
    }
}

/// Once no timeline is left, none comes back.
proof fn lemma_zero_stays(g: Seq<Seq<u8>>, w: nat, s: int, t: nat, u: nat)
    requires
        t <= u,
        all_zero(timelines(g, w, s, t)),
    ensures
        all_zero(timelines(g, w, s, u)),
    decreases u - t,
{
    if u > t {
        lemma_zero_stays(g, w, s, t, (u - 1) as nat);
        lemma_timelines_len(g, w, s, (u - 1) as nat);
    }
}

pub(crate) proof fn lemma_timelines_len(g: Seq<Seq<u8>>, w: nat, s: int, t: nat)
    ensures
        timelines(g, w, s, t).len() == w,
    decreases t,
{
    if t > 0 {
        lemma_timelines_len(g, w, s, (t - 1) as nat);
    }
}

/// After a step, the buffer holds the new counts everywhere: the columns it
/// was not written in were zero already.
proof fn lemma_after_step(before: Seq<BigUint>, after: Seq<BigUint>, nc: Seq<nat>, l: int, r: int)
    requires
        before.len() == after.len() == nc.len(),
        0 <= l <= r < nc.len(),
        forall|c: int| 0 <= c < nc.len() && (c < l - 1 || c > r + 1) ==> values(before)[c] == 0,
        ({
            let w = nc.len() as int;
            let nl = if l > 0 {
                l - 1
            } else {
                0
            };
            let nr = if r + 1 < w {
                r + 1
            } else {
                w - 1
            };
            &&& forall|c: int| nl <= c <= nr ==> values(after)[c] == nc[c]
            &&& forall|c: int|
                0 <= c < w && (c < nl || c > nr) ==> #[trigger] after[c] == before[c]
            &&& forall|c: int| 0 <= c < w && (c < nl || c > nr) ==> #[trigger] nc[c] == 0
        }),
    ensures
        values(after) == nc,
{
    assert forall|c: int| 0 <= c < nc.len() implies values(after)[c] == nc[c] by {
        if c < l - 1 || c > r + 1 {
            assert(values(before)[c] == 0);
        }
    }
    assert(values(after) =~= nc);
}

/// The number of timelines that reach the bottom row when the beam enters at
/// column `s_col` of the top row.
pub fn process_part2_int(grid: &Grid, s_col: usize) -> (res: BigUint)
    requires
        grid.wf(),
        s_col < grid.width,
    ensures
        big_value(res) == total_timelines(grid.cells(), grid.width as nat, s_col as int, grid.height()),
{
    let h = grid.rows.len();
    let w = grid.width;
    let ghost g = grid.cells();
    if h <= 1 {
        // The start is the one timeline, already complete.
        return big_one();
    }
    let mut cur: Vec<BigUint> = Vec::new();
    let mut next: Vec<BigUint> = Vec::new();
    let mut i: usize = 0;
    while i < w
        invariant
            i <= w,
            cur@.len() == i,
            next@.len() == i,
            forall|c: int| 0 <= c < i ==> big_value(#[trigger] cur@[c]) == 0,
            forall|c: int| 0 <= c < i ==> big_value(#[trigger] next@[c]) == 0,
        decreases w - i,
    {
        cur.push(big_zero());
        next.push(big_zero());
        i = i + 1;
    }
    cur[s_col] = big_one();
    proof {
        assert(values(cur@) =~= timelines(g, w as nat, s_col as int, 0));
    }
    let mut l = s_col;
    let mut r = s_col;
    let mut row_idx: usize = 1;
    while row_idx < h
        invariant
            g == grid.cells(),
            grid.wf(),
            h == grid.rows@.len(),
            w == grid.width,
            1 <= row_idx <= h,
            cur@.len() == w,
            next@.len() == w,
            values(cur@) == timelines(g, w as nat, s_col as int, (row_idx - 1) as nat),
            tight(values(cur@), l as int, r as int),
            forall|c: int| 0 <= c < w && (c < l - 1 || c > r + 1) ==> values(next@)[c] == 0,
        decreases h - row_idx,
    {
        let ghost prev = values(cur@);
        let ghost old_next = next@;
        proof {
            assert(grid.rows@[row_idx as int]@ =~= g[row_idx as int]);
        }
        let (new_l, new_r) = step_row_part2(
            grid.rows[row_idx].as_slice(),
            cur.as_slice(),
            next.as_mut_slice(),
            l,
            r,
        );
        let ghost nc = next_counts(prev, splitter_row(g[row_idx as int]));
        proof {
            assert(nc == timelines(g, w as nat, s_col as int, row_idx as nat));
            assert(nc == next_counts(values(cur@), splitter_row(grid.rows@[row_idx as int]@)));
            lemma_after_step(old_next, next@, nc, l as int, r as int);
        }
        if new_l == 0 && new_r == 0 && big_is_zero(&next[0]) {
            // Every timeline has left the grid.
            proof {
                lemma_zero_stays(g, w as nat, s_col as int, row_idx as nat, (h - 1) as nat);
                lemma_timelines_len(g, w as nat, s_col as int, (h - 1) as nat);
                lemma_sum_zero(timelines(g, w as nat, s_col as int, (h - 1) as nat));
            }
            return big_zero();
        }
        proof {
            lemma_window_moves(prev, splitter_row(g[row_idx as int]), l as int, r as int, new_l as int, new_r as int);
        }
        std::mem::swap(&mut cur, &mut next);
        l = new_l;
        r = new_r;
        row_idx = row_idx + 1;
    }
    // The answer is the sum over the last row's window.
    let ghost last = values(cur@);
    let mut total = big_zero();
    let mut c: usize = l;
    proof {
        assert(last.subrange(l as int, l as int) =~= Seq::<nat>::empty());
    }
    while c <= r
        invariant
            l <= c <= r + 1,
            r < w == cur@.len(),
            last == values(cur@),
            big_value(total) == sum_nat(last.subrange(l as int, c as int)),
        decreases r + 1 - c,
    {
        proof {
            assert(last.subrange(l as int, c + 1).drop_last() =~= last.subrange(l as int, c as int));
        }
        total = big_add(&total, &cur[c]);
        c = c + 1;
    }
    proof {
        lemma_sum_window(last, l as int, r as int, w as int);
        assert(last.subrange(0, w as int) =~= last);
    }
    total
}

/// Parses `input` and counts the timelines of its beam.
pub fn process_part2(input: &str) -> (r: Result<BigUint, GridError>)
    ensures
        ({
            let ls = grid_lines(input.spec_bytes());
            match r {
                Ok(n) => {
                    &&& is_grid(ls)
                    &&& has_start(ls[0])
                    &&& big_value(n) == total_timelines(ls, ls[0].len(), first_start(ls[0]), ls.len())
                },
                Err(GridError::MissingStart) => is_grid(ls) && !has_start(ls[0]),
                Err(e) => rejects(ls, e),
            }
        }),
{
    let grid = match parse_grid(input) {
        Ok(g) => g,
        Err(e) => {
            return Err(e);
        },
    };
    proof {
        assert(grid.rows@[0]@ =~= grid.cells()[0]);
    }
    let s_col = match find_start_column(grid.rows[0].as_slice()) {
        Ok(c) => c,
        Err(e) => {
            return Err(e);
        },
    };
    proof {
        lemma_first_start(grid.cells()[0], s_col as int);
    }
    Ok(process_part2_int(&grid, s_col))
}

} // verus!
