//! Counting split events: the beam engine over packed rows.
//!
//! The model is one boolean per column per row: `beams` says where beams
//! stand after each row, and `total_splits` how many splitters they have hit.
//! The engine packs each row into 64-bit words and moves all columns at once.
use crate::bitset::{
    bit, bits_of, col, count_true, lemma_bit_and, lemma_bit_bottom_up, lemma_bit_low_mask,
    lemma_bit_not, lemma_bit_or, lemma_bit_shl1, lemma_bit_shr1, lemma_bit_top_down,
    lemma_bit_zero, lemma_col_index, lemma_col_split, lemma_count_true_le, lemma_words_for,
    last_word_mask, lemma_set_col, ones_below, popcount, set_bit, tail_clear, words_for,
};
use crate::grid::{
    find_start_column, first_start, grid_lines, has_start, is_grid, is_splitter, lemma_first_start,
    parse_grid, rejects, Grid, GridError, SPLITTER,
};
use vstd::string::StringSliceAdditionalSpecFns;
use vstd::prelude::*;

verus! {

/// Which columns of a row are splitters.
pub open spec fn splitter_row(row: Seq<u8>) -> Seq<bool> {
    Seq::new(row.len(), |c: int| is_splitter(row[c]))
}

/// Where beams stand after crossing a row whose splitters are `split`, from
/// `prev`: a beam on an empty cell goes on; a beam on a splitter stops there
/// and sends one beam to each neighbouring column inside the row.
pub open spec fn next_beams(prev: Seq<bool>, split: Seq<bool>) -> Seq<bool> {
    Seq::new(
        prev.len(),
        |c: int|
            (prev[c] && !split[c]) || (c > 0 && prev[c - 1] && split[c - 1]) || (c + 1 < prev.len()
                && prev[c + 1] && split[c + 1]),
    )
}

/// How many beams of `prev` stand on a splitter of `split`.
pub open spec fn row_hits(prev: Seq<bool>, split: Seq<bool>) -> nat {
    count_true(Seq::new(prev.len(), |c: int| prev[c] && split[c]))
}

/// The beams after row `r` of the grid `g`, `w` columns wide, whose beam
/// enters at column `s` of row 0.
pub open spec fn beams(g: Seq<Seq<u8>>, w: nat, s: int, r: nat) -> Seq<bool>
    decreases r,
{
    if r == 0 {
        Seq::new(w, |c: int| c == s)
    } else {
        next_beams(beams(g, w, s, (r - 1) as nat), splitter_row(g[r as int]))
    }
}

/// The splits on rows `1 .. h` of the grid.
pub open spec fn total_splits(g: Seq<Seq<u8>>, w: nat, s: int, h: nat) -> nat
    decreases h,
{
    if h <= 1 {
        0
    } else {
        total_splits(g, w, s, (h - 1) as nat) + row_hits(
            beams(g, w, s, (h - 2) as nat),
            splitter_row(g[h - 1]),
        )
    }
}

// ---- the packed step, word by word ----

pub open spec fn hit_word(cur: Seq<u64>, split: Seq<u64>, k: int) -> u64 {
    cur[k] & split[k]
}

/// The hits of word `k` moved one column up, with the top hit of word `k - 1`.
pub open spec fn up_word(cur: Seq<u64>, split: Seq<u64>, k: int) -> u64 {
    (hit_word(cur, split, k) << 1u64) | (if k > 0 {
        hit_word(cur, split, k - 1) >> 63u64
    } else {
        0u64
    })
}

/// The hits of word `k` moved one column down, with the bottom hit of word
/// `k + 1`.
pub open spec fn down_word(cur: Seq<u64>, split: Seq<u64>, k: int) -> u64 {
    (hit_word(cur, split, k) >> 1u64) | ((if k + 1 < cur.len() {
        hit_word(cur, split, k + 1) & 1u64
    } else {
        0u64
    }) << 63u64)
}

pub open spec fn stepped_word(cur: Seq<u64>, split: Seq<u64>, k: int) -> u64 {
    ((cur[k] & !split[k]) | up_word(cur, split, k)) | down_word(cur, split, k)
}

/// The packed row after one step, the last word cut by `last_mask`.
pub open spec fn stepped_row(cur: Seq<u64>, split: Seq<u64>, last_mask: u64) -> Seq<u64> {
    Seq::new(
        cur.len(),
        |k: int|
            if k == cur.len() - 1 {
                stepped_word(cur, split, k) & last_mask
            } else {
                stepped_word(cur, split, k)
            },
    )
}

/// The set bits of the hit words `0 .. k`.
pub open spec fn word_hits(cur: Seq<u64>, split: Seq<u64>, k: nat) -> nat
    decreases k,
{
    if k == 0 {
        0
    } else {
        word_hits(cur, split, (k - 1) as nat) + ones_below(hit_word(cur, split, k - 1), 64)
    }
}

pub open spec fn hit_cols(cur: Seq<u64>, split: Seq<u64>, m: nat) -> Seq<bool> {
    Seq::new(m, |c: int| col(cur, c) && col(split, c))
}

/// Column `c` of one packed step: a beam goes on where no splitter is, and
/// comes from a hit on either side.
proof fn lemma_stepped_col(cur: Seq<u64>, split: Seq<u64>, c: int)
    requires
        cur.len() == split.len(),
        0 <= c < 64 * cur.len(),
    ensures
        bit(stepped_word(cur, split, c / 64), (c % 64) as u64) == ((col(cur, c) && !col(split, c))
            || (c > 0 && col(cur, c - 1) && col(split, c - 1)) || (c + 1 < 64 * cur.len() && col(
            cur,
            c + 1,
        ) && col(split, c + 1))),
{
    lemma_col_split(c);
    let k = c / 64;
    let j = c % 64;
    let ju = j as u64;
    let n = cur.len() as int;
    let h = hit_word(cur, split, k);
    let lo = if k > 0 {
        hit_word(cur, split, k - 1) >> 63u64
    } else {
        0u64
    };
    let hi = if k + 1 < n {
        hit_word(cur, split, k + 1) & 1u64
    } else {
        0u64
    };
    lemma_bit_or((cur[k] & !split[k]) | up_word(cur, split, k), down_word(cur, split, k), ju);
    lemma_bit_or(cur[k] & !split[k], up_word(cur, split, k), ju);
    lemma_bit_and(cur[k], !split[k], ju);
    lemma_bit_not(split[k], ju);
    lemma_bit_or(h << 1u64, lo, ju);
    lemma_bit_or(h >> 1u64, hi << 63u64, ju);
    lemma_bit_shl1(h, ju);
    lemma_bit_shr1(h, ju);
    lemma_bit_zero(ju);
    if k > 0 {
        lemma_bit_top_down(hit_word(cur, split, k - 1), ju);
        lemma_bit_and(cur[k - 1], split[k - 1], 63);
        lemma_col_index(k - 1, 63);
    }
    if k + 1 < n {
        lemma_bit_bottom_up(hit_word(cur, split, k + 1), ju);
        lemma_bit_and(cur[k + 1], split[k + 1], 0);
        lemma_col_index(k + 1, 0);
    }
    if j > 0 {
        lemma_bit_and(cur[k], split[k], (j - 1) as u64);
        lemma_col_index(k, j - 1);
    }
    if j < 63 {
        lemma_bit_and(cur[k], split[k], (j + 1) as u64);
        lemma_col_index(k, j + 1);
    }
}

/// Read column by column, for every row width `w` that the words and the
/// mask are made for, the packed step is one step of the beam model, and its
/// count of hits is the model's.
pub open spec fn step_is_beam_step(cur: Seq<u64>, split: Seq<u64>, last_mask: u64) -> bool {
    forall|w: nat|
        #![trigger bits_of(stepped_row(cur, split, last_mask), w)]
        w >= 1 && cur.len() == words_for(w as int) && last_mask == last_word_mask(w as int)
            && tail_clear(cur, w as int) && tail_clear(split, w as int) ==> {
            &&& bits_of(stepped_row(cur, split, last_mask), w) == next_beams(
                bits_of(cur, w),
                bits_of(split, w),
            )
            &&& tail_clear(stepped_row(cur, split, last_mask), w as int)
            &&& word_hits(cur, split, cur.len()) == row_hits(bits_of(cur, w), bits_of(split, w))
        }
}

proof fn lemma_step_meaning(cur: Seq<u64>, split: Seq<u64>, last_mask: u64)
    requires
        cur.len() == split.len(),
    ensures
        step_is_beam_step(cur, split, last_mask),
{
    assert forall|w: nat|
        #![trigger bits_of(stepped_row(cur, split, last_mask), w)]
        w >= 1 && cur.len() == words_for(w as int) && last_mask == last_word_mask(w as int)
            && tail_clear(cur, w as int) && tail_clear(split, w as int) implies {
            &&& bits_of(stepped_row(cur, split, last_mask), w) == next_beams(
                bits_of(cur, w),
                bits_of(split, w),
            )
            &&& tail_clear(stepped_row(cur, split, last_mask), w as int)
            &&& word_hits(cur, split, cur.len()) == row_hits(bits_of(cur, w), bits_of(split, w))
        } by {
        lemma_step_row(cur, split, w as int, last_mask, stepped_row(cur, split, last_mask));
        lemma_word_hits(cur, split, w as int);
    }
}

/// One packed step is one step of the column model, and keeps the tail clear.
pub proof fn lemma_step_row(cur: Seq<u64>, split: Seq<u64>, w: int, last_mask: u64, next: Seq<u64>)
    requires
        w >= 1,
        cur.len() == split.len() == words_for(w),
        last_mask == last_word_mask(w),
        tail_clear(cur, w),
        tail_clear(split, w),
        next == stepped_row(cur, split, last_mask),
    ensures
        bits_of(next, w as nat) == next_beams(bits_of(cur, w as nat), bits_of(split, w as nat)),
        tail_clear(next, w),
{
    lemma_words_for(w);
    let n = cur.len() as int;
    assert forall|c: int| 0 <= c < 64 * n implies #[trigger] col(next, c) == (c < w && ((col(
        cur,
        c,
    ) && !col(split, c)) || (c > 0 && col(cur, c - 1) && col(split, c - 1)) || (c + 1 < w && col(
        cur,
        c + 1,
    ) && col(split, c + 1)))) by {
        lemma_col_split(c);
        let k = c / 64;
        let j = c % 64;
        lemma_stepped_col(cur, split, c);
        if k == n - 1 {
            lemma_bit_and(stepped_word(cur, split, k), last_mask, j as u64);
            lemma_bit_low_mask(w, j as u64);
        }
        if c + 1 < 64 * n && c + 1 >= w {
            assert(!col(cur, c + 1));
        }
    }
    assert(bits_of(next, w as nat) =~= next_beams(bits_of(cur, w as nat), bits_of(split, w as nat)));
}

proof fn lemma_hit_cols_step(cur: Seq<u64>, split: Seq<u64>, m: nat)
    ensures
        count_true(hit_cols(cur, split, m + 1)) == count_true(hit_cols(cur, split, m)) + if col(
            cur,
            m as int,
        ) && col(split, m as int) {
            1nat
        } else {
            0nat
        },
{
    assert(hit_cols(cur, split, m + 1).drop_last() =~= hit_cols(cur, split, m));
}

proof fn lemma_hits_in_word(cur: Seq<u64>, split: Seq<u64>, k: int, j: nat)
    requires
        0 <= k < cur.len(),
        cur.len() == split.len(),
        j <= 64,
    ensures
        count_true(hit_cols(cur, split, (64 * k + j) as nat)) == count_true(
            hit_cols(cur, split, (64 * k) as nat),
        ) + ones_below(hit_word(cur, split, k), j),
    decreases j,
{
    if j > 0 {
        let i = (j - 1) as nat;
        lemma_hits_in_word(cur, split, k, i);
        lemma_hit_cols_step(cur, split, (64 * k + i) as nat);
        lemma_col_index(k, i as int);
        lemma_bit_and(cur[k], split[k], i as u64);
    }
}

proof fn lemma_hits_words(cur: Seq<u64>, split: Seq<u64>, k: nat)
    requires
        k <= cur.len(),
        cur.len() == split.len(),
    ensures
        count_true(hit_cols(cur, split, 64 * k)) == word_hits(cur, split, k),
    decreases k,
{
    if k == 0 {
        assert(hit_cols(cur, split, 0) =~= Seq::<bool>::empty());
    } else {
        lemma_hits_words(cur, split, (k - 1) as nat);
        lemma_hits_in_word(cur, split, k - 1, 64);
    }
}

proof fn lemma_hits_tail(cur: Seq<u64>, split: Seq<u64>, w: nat, m: nat)
    requires
        w <= m <= 64 * cur.len(),
        tail_clear(cur, w as int),
    ensures
        count_true(hit_cols(cur, split, m)) == count_true(hit_cols(cur, split, w)),
    decreases m,
{
    if m > w {
        lemma_hits_tail(cur, split, w, (m - 1) as nat);
        lemma_hit_cols_step(cur, split, (m - 1) as nat);
        assert(!col(cur, m - 1));
    }
}

/// The set bits of all hit words count the beams that stand on splitters.
pub proof fn lemma_word_hits(cur: Seq<u64>, split: Seq<u64>, w: int)
    requires
        w >= 1,
        cur.len() == split.len() == words_for(w),
        tail_clear(cur, w),
    ensures
        word_hits(cur, split, cur.len()) == row_hits(bits_of(cur, w as nat), bits_of(split, w as nat)),
        word_hits(cur, split, cur.len()) <= w,
{
    lemma_words_for(w);
    lemma_hits_words(cur, split, cur.len());
    lemma_hits_tail(cur, split, w as nat, 64 * cur.len());
    assert(Seq::new(w as nat, |c: int| bits_of(cur, w as nat)[c] && bits_of(split, w as nat)[c])
        =~= hit_cols(cur, split, w as nat));
    lemma_count_true_le(hit_cols(cur, split, w as nat));
}

/// One row of the beam engine: from the packed beams `cur`, on a row whose
/// packed splitters are `split`, writes the packed beams after that row into
/// `next` (its last word cut by `last_mask`) and returns how many beams hit a
/// splitter.
pub fn step_row_part1(cur: &[u64], split: &[u64], next: &mut [u64], last_mask: u64) -> (r: u64)
    requires
        cur@.len() == split@.len() == old(next)@.len(),
        64 * cur@.len() <= u64::MAX,
    ensures
        final(next)@ == stepped_row(cur@, split@, last_mask),
        r == word_hits(cur@, split@, cur@.len()),
        step_is_beam_step(cur@, split@, last_mask),
{
    let chunks = cur.len();
    let ghost c = cur@;
    let ghost s = split@;
    // Straight beams, and the count of hits.
    let mut splits_on_row: u64 = 0;
    let mut k: usize = 0;
    while k < chunks
        invariant
            c == cur@,
            s == split@,
            chunks == c.len() == s.len() == next@.len(),
            64 * chunks <= u64::MAX,
            k <= chunks,
            forall|i: int| 0 <= i < k ==> next@[i] == c[i] & !s[i],
            splits_on_row == word_hits(c, s, k as nat),
            splits_on_row <= 64 * k,
        decreases chunks - k,
    {
        let hit = cur[k] & split[k];
        next[k] = cur[k] & !split[k];
        splits_on_row = splits_on_row + popcount(hit) as u64;
        k = k + 1;
    }
    // Hits moved one column up, the top bit carried into the next word.
    let mut carry: u64 = 0;
    let mut k: usize = 0;
    while k < chunks
        invariant
            c == cur@,
            s == split@,
            chunks == c.len() == s.len() == next@.len(),
            k <= chunks,
            forall|i: int| 0 <= i < k ==> next@[i] == (c[i] & !s[i]) | up_word(c, s, i),
            forall|i: int| k <= i < chunks ==> next@[i] == c[i] & !s[i],
            carry == if k > 0 {
                hit_word(c, s, k - 1) >> 63u64
            } else {
                0u64
            },
        decreases chunks - k,
    {
        let hit = cur[k] & split[k];
        let new_carry = hit >> 63u64;
        let shifted = (hit << 1u64) | carry;
        next[k] = next[k] | shifted;
        carry = new_carry;
        k = k + 1;
    }
    // Hits moved one column down, the bottom bit carried into the word below.
    let mut carry: u64 = 0;
    let mut k: usize = chunks;
    while k > 0
        invariant
            c == cur@,
            s == split@,
            chunks == c.len() == s.len() == next@.len(),
            k <= chunks,
            forall|i: int| 0 <= i < k ==> next@[i] == (c[i] & !s[i]) | up_word(c, s, i),
            forall|i: int| k <= i < chunks ==> next@[i] == stepped_word(c, s, i),
            carry == if k < chunks {
                hit_word(c, s, k as int) & 1u64
            } else {
                0u64
            },
        decreases k,
    {
        k = k - 1;
        let hit = cur[k] & split[k];
        let new_carry = hit & 1u64;
        let shifted = (hit >> 1u64) | (carry << 63u64);
        next[k] = next[k] | shifted;
        carry = new_carry;
    }
    // Columns past the end of the row never hold a beam.
    if chunks > 0 {
        next[chunks - 1] = next[chunks - 1] & last_mask;
    }
    proof {
        assert(next@ =~= stepped_row(c, s, last_mask));
        lemma_step_meaning(cur@, split@, last_mask);
    }
    splits_on_row
}

/// Packs the splitters of each row: bit `c` of row `r` is set exactly where
/// cell `(r, c)` is a splitter, for the first `width` cells of each row, and
/// no bit past column `width - 1` is set.
pub fn build_split_masks(rows: &[Vec<u8>], width: usize, chunks: usize, last_mask: u64) -> (out: Vec<
    Vec<u64>,
>)
    requires
        forall|r: int| 0 <= r < rows@.len() ==> (#[trigger] rows@[r])@.len() >= width,
        chunks == words_for(width as int),
        last_mask == last_word_mask(width as int),
    ensures
        out@.len() == rows@.len(),
        forall|r: int|
            0 <= r < rows@.len() ==> {
                &&& (#[trigger] out@[r])@.len() == chunks
                &&& bits_of(out@[r]@, width as nat) == splitter_row(rows@[r]@.subrange(0, width as int))
                &&& tail_clear(out@[r]@, width as int)
            },
{
    let mut out: Vec<Vec<u64>> = Vec::new();
    let mut r: usize = 0;
    proof {
        if width >= 1 {
            lemma_words_for(width as int);
        }
    }
    while r < rows.len()
        invariant
            r <= rows@.len(),
            forall|r: int| 0 <= r < rows@.len() ==> (#[trigger] rows@[r])@.len() >= width,
            chunks == words_for(width as int),
            width <= 64 * chunks,
            width >= 1 ==> 64 * (chunks - 1) < width,
            last_mask == last_word_mask(width as int),
            out@.len() == r,
            forall|i: int|
                0 <= i < r ==> {
                    &&& (#[trigger] out@[i])@.len() == chunks
                    &&& bits_of(out@[i]@, width as nat) == splitter_row(rows@[i]@.subrange(0, width as int))
                    &&& tail_clear(out@[i]@, width as int)
                },
        decreases rows@.len() - r,
    {
        let row = &rows[r];
        let mut mask_row: Vec<u64> = vec![0u64; chunks];
        proof {
            assert forall|c: int| 0 <= c < 64 * chunks implies !#[trigger] col(mask_row@, c) by {
                lemma_col_split(c);
                lemma_bit_zero((c % 64) as u64);
            }
        }
        let mut c: usize = 0;
        while c < width
            invariant
                row@.len() >= width,
                width <= 64 * chunks,
                c <= width,
                mask_row@.len() == chunks,
                forall|i: int|
                    0 <= i < 64 * chunks ==> #[trigger] col(mask_row@, i) == (i < c && is_splitter(
                        row@[i],
                    )),
            decreases width - c,
        {
            if row[c] == SPLITTER {
                proof {
                    lemma_set_col(mask_row@, c as int);
                }
                mask_row[c / 64] = mask_row[c / 64] | (1u64 << ((c % 64) as u64));
            }
            c = c + 1;
        }
        // No bit past the last column.
        if chunks > 0 {
            let ghost before = mask_row@;
            mask_row[chunks - 1] = mask_row[chunks - 1] & last_mask;
            proof {
                assert forall|i: int| 0 <= i < 64 * chunks implies #[trigger] col(mask_row@, i) == (i < width && is_splitter(row@[i])) by {
                    lemma_col_split(i);
                    assert(col(before, i) == (i < width && is_splitter(row@[i])));
                    if i / 64 == chunks - 1 {
                        assert(width >= 1);
                        lemma_bit_and(before[i / 64], last_mask, (i % 64) as u64);
                        lemma_bit_low_mask(width as int, (i % 64) as u64);
                        lemma_words_for(width as int);
                        assert(mask_row@[i / 64] == before[i / 64] & last_mask);
                    } else {
                        assert(mask_row@[i / 64] == before[i / 64]);
                    }
                }
            }
        }
        proof {
            assert(bits_of(mask_row@, width as nat) =~= splitter_row(row@.subrange(0, width as int)));
        }
        out.push(mask_row);
        r = r + 1;
    }
    out
}

/// The number of split events as the beam from column `s_col` of the top row
/// descends through the grid.
pub fn process_part1_int(grid: &Grid, s_col: usize) -> (r: u64)
    requires
        grid.wf(),
        s_col < grid.width,
    ensures
        r == total_splits(grid.cells(), grid.width as nat, s_col as int, grid.height()),
{
    let h = grid.rows.len();
    let w = grid.width;
    let ghost g = grid.cells();
    if h <= 1 {
        return 0;
    }
    proof {
        assert(h * w >= 2 * w) by (nonlinear_arith)
            requires
                h >= 2,
        ;
        lemma_words_for(w as int);
    }
    // One word for each 64 columns.
    let chunks = (w + 63) / 64;
    let last_mask: u64 = if w % 64 == 0 {
        !0u64
    } else {
        let k = (w % 64) as u64;
        assert(1u64 << k >= 1) by (bit_vector)
            requires
                k < 64,
        ;
        (1u64 << k) - 1
    };
    let split_masks = build_split_masks(grid.rows.as_slice(), w, chunks, last_mask);
    let mut cur: Vec<u64> = vec![0u64; chunks];
    let mut next: Vec<u64> = vec![0u64; chunks];
    proof {
        assert forall|c: int| 0 <= c < 64 * chunks implies !#[trigger] col(cur@, c) by {
            lemma_col_split(c);
            lemma_bit_zero((c % 64) as u64);
        }
    }
    set_bit(cur.as_mut_slice(), s_col);
    proof {
        assert(bits_of(cur@, w as nat) =~= beams(g, w as nat, s_col as int, 0));
    }
    let mut splits_total: u64 = 0;
    let mut r: usize = 1;
    while r < h
        invariant
            g == grid.cells(),
            grid.wf(),
            h == grid.rows@.len(),
            w == grid.width,
            1 <= r <= h,
            h * w <= usize::MAX,
            chunks == words_for(w as int),
            64 * chunks <= u64::MAX,
            last_mask == last_word_mask(w as int),
            split_masks@.len() == h,
            forall|i: int|
                0 <= i < h ==> {
                    &&& (#[trigger] split_masks@[i])@.len() == chunks
                    &&& bits_of(split_masks@[i]@, w as nat) == splitter_row(grid.rows@[i]@.subrange(0, w as int))
                    &&& tail_clear(split_masks@[i]@, w as int)
                },
            cur@.len() == chunks,
            next@.len() == chunks,
            tail_clear(cur@, w as int),
            bits_of(cur@, w as nat) == beams(g, w as nat, s_col as int, (r - 1) as nat),
            splits_total == total_splits(g, w as nat, s_col as int, r as nat),
            splits_total <= (r - 1) * w,
        decreases h - r,
    {
        let ghost before = cur@;
        let ghost mask = split_masks@[r as int]@;
        let splits_on_row = step_row_part1(
            cur.as_slice(),
            split_masks[r].as_slice(),
            next.as_mut_slice(),
            last_mask,
        );
        proof {
            lemma_step_row(before, mask, w as int, last_mask, next@);
            lemma_word_hits(before, mask, w as int);
            assert(grid.rows@[r as int]@ =~= g[r as int]);
            assert(grid.rows@[r as int]@.subrange(0, w as int) =~= grid.rows@[r as int]@);
            assert((r - 1) * w + w == r * w) by (nonlinear_arith);
            assert(r * w <= h * w) by (nonlinear_arith)
                requires
                    r <= h,
            ;
        }
        splits_total = splits_total + splits_on_row;
        std::mem::swap(&mut cur, &mut next);
        r = r + 1;
    }
    splits_total
}

/// Parses `input` and counts the split events of its beam.
pub fn process_part1(input: &str) -> (r: Result<u64, GridError>)
    ensures
        ({
            let ls = grid_lines(input.spec_bytes());
            match r {
                Ok(n) => {
                    &&& is_grid(ls)
                    &&& has_start(ls[0])
                    &&& n == total_splits(ls, ls[0].len(), first_start(ls[0]), ls.len())
                },
                Err(GridError::MissingStart) => is_grid(ls) && !has_start(ls[0]),
                Err(e) => rejects(ls, e),
            }
        }),
{
    let grid = match parse_grid(input) {
        Ok(g) => g,
        Err(e) => {
            return Err(e);
        },
    };
    proof {
        assert(grid.rows@[0]@ =~= grid.cells()[0]);
    }
    let s_col = match find_start_column(grid.rows[0].as_slice()) {
        Ok(c) => c,
        Err(e) => {
            return Err(e);
        },
    };
    proof {
        lemma_first_start(grid.cells()[0], s_col as int);
    }
    Ok(process_part1_int(&grid, s_col))
}

} // verus!
