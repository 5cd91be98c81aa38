//! Rows of booleans packed into 64-bit words.
//!
//! Column `c` of a packed row lives in word `c / 64`, at bit `c % 64`
//! (bit 0 being the least significant). A row `w` columns wide takes
//! `words_for(w)` words; the bits past column `w - 1` in the last word are
//! kept clear.
use vstd::arithmetic::div_mod::{lemma_fundamental_div_mod, lemma_fundamental_div_mod_converse};
use vstd::prelude::*;

verus! {

pub open spec fn bit(x: u64, j: u64) -> bool {
    (x >> j) & 1u64 == 1u64
}

/// Column `c` of the packed row `words`.
pub open spec fn col(words: Seq<u64>, c: int) -> bool {
    bit(words[c / 64], (c % 64) as u64)
}

/// The first `w` columns of `words`.
pub open spec fn bits_of(words: Seq<u64>, w: nat) -> Seq<bool> {
    Seq::new(w, |c: int| col(words, c))
}

/// Every column of `words` from `w` on is clear.
pub open spec fn tail_clear(words: Seq<u64>, w: int) -> bool {
    forall|c: int| w <= c < 64 * words.len() ==> !#[trigger] col(words, c)
}

pub open spec fn words_for(w: int) -> int {
    (w + 63) / 64
}

/// The mask that keeps the columns of the last word that lie below `w`.
pub open spec fn last_word_mask(w: int) -> u64 {
    if w % 64 == 0 {
        !0u64
    } else {
        ((1u64 << ((w % 64) as u64)) - 1) as u64
    }
}

/// How many of the low `j` bits of `x` are set.
pub open spec fn ones_below(x: u64, j: nat) -> nat
    decreases j,
{
    if j == 0 {
        0
    } else {
        ones_below(x, (j - 1) as nat) + if bit(x, (j - 1) as u64) {
            1nat
        } else {
            0nat
        }
    }
}

/// How many entries of `s` are true.
pub open spec fn count_true(s: Seq<bool>) -> nat
    decreases s.len(),
{
    if s.len() == 0 {
        0
    } else {
        count_true(s.drop_last()) + if s.last() {
            1nat
        } else {
            0nat
        }
    }
}

pub proof fn lemma_count_true_le(s: Seq<bool>)
    ensures
        count_true(s) <= s.len(),
    decreases s.len(),
{
    if s.len() > 0 {
        lemma_count_true_le(s.drop_last());
    }
}

pub proof fn lemma_bit_and(a: u64, b: u64, j: u64)
    requires
        j < 64,
    ensures
        bit(a & b, j) == (bit(a, j) && bit(b, j)),
{
    assert(((a & b) >> j) & 1u64 == 1u64 <==> ((a >> j) & 1u64 == 1u64 && (b >> j) & 1u64
        == 1u64)) by (bit_vector)
        requires
            j < 64,
    ;
}

pub proof fn lemma_bit_or(a: u64, b: u64, j: u64)
    requires
        j < 64,
    ensures
        bit(a | b, j) == (bit(a, j) || bit(b, j)),
{
    assert(((a | b) >> j) & 1u64 == 1u64 <==> ((a >> j) & 1u64 == 1u64 || (b >> j) & 1u64
        == 1u64)) by (bit_vector)
        requires
            j < 64,
    ;
}

pub proof fn lemma_bit_not(a: u64, j: u64)
    requires
        j < 64,
    ensures
        bit(!a, j) == !bit(a, j),
{
    assert(((!a) >> j) & 1u64 == 1u64 <==> !((a >> j) & 1u64 == 1u64)) by (bit_vector)
        requires
            j < 64,
    ;
}

/// Shifting a word up by one moves each column one place up.
pub proof fn lemma_bit_shl1(x: u64, j: u64)
    requires
        j < 64,
    ensures
        j == 0 ==> !bit(x << 1u64, j),
        j > 0 ==> bit(x << 1u64, j) == bit(x, (j - 1) as u64),
{
    assert(((x << 1u64) >> 0u64) & 1u64 != 1u64) by (bit_vector);
    assert(j > 0 ==> (((x << 1u64) >> j) & 1u64 == 1u64 <==> (x >> ((j - 1) as u64)) & 1u64
        == 1u64)) by (bit_vector)
        requires
            j < 64,
    ;
}

/// Shifting a word down by one moves each column one place down.
pub proof fn lemma_bit_shr1(x: u64, j: u64)
    requires
        j < 64,
    ensures
        j == 63 ==> !bit(x >> 1u64, j),
        j < 63 ==> bit(x >> 1u64, j) == bit(x, (j + 1) as u64),
{
    assert(((x >> 1u64) >> 63u64) & 1u64 != 1u64) by (bit_vector);
    assert(j < 63 ==> (((x >> 1u64) >> j) & 1u64 == 1u64 <==> (x >> ((j + 1) as u64)) & 1u64
        == 1u64)) by (bit_vector)
        requires
            j < 64,
    ;
}

/// The top bit of a word, brought down to bit 0.
pub proof fn lemma_bit_top_down(x: u64, j: u64)
    requires
        j < 64,
    ensures
        bit(x >> 63u64, j) == (j == 0 && bit(x, 63)),
{
    assert(((x >> 63u64) >> j) & 1u64 == 1u64 <==> (j == 0 && (x >> 63u64) & 1u64 == 1u64))
        by (bit_vector)
        requires
            j < 64,
    ;
}

/// The bottom bit of a word, taken up to bit 63.
pub proof fn lemma_bit_bottom_up(x: u64, j: u64)
    requires
        j < 64,
    ensures
        bit((x & 1u64) << 63u64, j) == (j == 63 && bit(x, 0)),
{
    assert((((x & 1u64) << 63u64) >> j) & 1u64 == 1u64 <==> (j == 63 && (x >> 0u64) & 1u64
        == 1u64)) by (bit_vector)
        requires
            j < 64,
    ;
}

pub proof fn lemma_bit_single(i: u64, j: u64)
    requires
        i < 64,
        j < 64,
    ensures
        bit(1u64 << i, j) == (i == j),
{
    assert((((1u64 << i) >> j) & 1u64 == 1u64) <==> i == j) by (bit_vector)
        requires
            i < 64,
            j < 64,
    ;
}

pub proof fn lemma_bit_zero(j: u64)
    requires
        j < 64,
    ensures
        !bit(0u64, j),
        !bit(0u64 << 63u64, j),
{
    assert((0u64 >> j) & 1u64 != 1u64) by (bit_vector);
    assert(((0u64 << 63u64) >> j) & 1u64 != 1u64) by (bit_vector);
}

pub proof fn lemma_bit_low_mask(w: int, j: u64)
    requires
        w >= 1,
        j < 64,
    ensures
        bit(last_word_mask(w), j) == (w % 64 == 0 || (j as int) < w % 64),
{
    if w % 64 == 0 {
        assert(((!0u64) >> j) & 1u64 == 1u64) by (bit_vector)
            requires
                j < 64,
        ;
    } else {
        let k = (w % 64) as u64;
        assert(((((1u64 << k) - 1u64) as u64 >> j) & 1u64 == 1u64) <==> j < k) by (bit_vector)
            requires
                1 <= k < 64,
                j < 64,
        ;
    }
}

/// Column `64 * k + j` is bit `j` of word `k`.
pub proof fn lemma_col_index(k: int, j: int)
    requires
        0 <= k,
        0 <= j < 64,
    ensures
        (64 * k + j) / 64 == k,
        (64 * k + j) % 64 == j,
{
    lemma_fundamental_div_mod_converse(64 * k + j, 64, k, j);
}

/// Column `c` is bit `c % 64` of word `c / 64`.
pub proof fn lemma_col_split(c: int)
    requires
        0 <= c,
    ensures
        c == 64 * (c / 64) + c % 64,
        0 <= c % 64 < 64,
        0 <= c / 64,
{
    lemma_fundamental_div_mod(c, 64);
}

/// Setting bit `c0 % 64` of word `c0 / 64` sets column `c0` and no other.
pub proof fn lemma_set_col(words: Seq<u64>, c0: int)
    requires
        0 <= c0 < 64 * words.len(),
    ensures
        ({
            let after = words.update(c0 / 64, words[c0 / 64] | (1u64 << ((c0 % 64) as u64)));
            forall|c: int| 0 <= c < 64 * words.len() ==> #[trigger] col(after, c) == (col(words, c) || c == c0)
        }),
{
    let after = words.update(c0 / 64, words[c0 / 64] | (1u64 << ((c0 % 64) as u64)));
    lemma_col_split(c0);
    assert forall|c: int| 0 <= c < 64 * words.len() implies #[trigger] col(after, c) == (col(words, c) || c == c0) by {
        lemma_col_split(c);
        if c / 64 == c0 / 64 {
            lemma_bit_or(words[c0 / 64], 1u64 << ((c0 % 64) as u64), (c % 64) as u64);
            lemma_bit_single((c0 % 64) as u64, (c % 64) as u64);
        }
    }
}

/// Sets column `col` of the packed row `bits`.
pub fn set_bit(bits: &mut [u64], col: usize)
    requires
        col < 64 * old(bits)@.len(),
    ensures
        final(bits)@.len() == old(bits)@.len(),
        forall|c: int| 0 <= c < 64 * old(bits)@.len() ==> #[trigger] crate::bitset::col(final(bits)@, c) == (crate::bitset::col(old(bits)@, c) || c == col),
{
    proof {
        lemma_set_col(old(bits)@, col as int);
    }
    bits[col / 64] = bits[col / 64] | (1u64 << ((col % 64) as u64));
}

pub proof fn lemma_words_for(w: int)
    requires
        w >= 1,
    ensures
        words_for(w) >= 1,
        64 * (words_for(w) - 1) < w <= 64 * words_for(w),
        w % 64 != 0 ==> w == 64 * (words_for(w) - 1) + w % 64,
        w % 64 == 0 ==> w == 64 * words_for(w),
{
    lemma_fundamental_div_mod_converse(w, 64, w / 64, w % 64);
    assert(w == 64 * (w / 64) + w % 64);
    if w % 64 == 0 {
        lemma_fundamental_div_mod_converse(w + 63, 64, w / 64, 63);
    } else {
        lemma_fundamental_div_mod_converse(w + 63, 64, w / 64 + 1, w % 64 - 1);
    }
}

/// The number of set bits of `x`.
pub fn popcount(x: u64) -> (r: u32)
    ensures
        r == ones_below(x, 64),
        r <= 64,
{
    let mut r: u32 = 0;
    let mut j: u64 = 0;
    while j < 64
        invariant
            j <= 64,
            r == ones_below(x, j as nat),
            r <= j,
        decreases 64 - j,
    {
        let b = (x >> j) & 1u64;
        assert(b == 0 || b == 1) by (bit_vector)
            requires
                b == (x >> j) & 1u64,
        ;
        r = r + b as u32;
        j = j + 1;
    }
    r
}

} // verus!
