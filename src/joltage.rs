//! Battery banks: the largest number that a few of a line's digits spell,
//! kept in their order.
use crate::numbers::{all_digits, digits_u128, digits_value, is_digit};
use vstd::prelude::*;
use vstd::string::StringSliceAdditionalSpecFns;

verus! {

pub open spec fn digit(b: u8) -> int {
    b - 48
}

/// The largest two-digit number `10 * s[i] + s[j]` with `i < j`.
pub open spec fn is_best_pair(s: Seq<u8>, v: int) -> bool {
    &&& exists|i: int, j: int| 0 <= i < j < s.len() && v == 10 * digit(#[trigger] s[i]) + digit(#[trigger] s[j])
    &&& forall|i: int, j: int| 0 <= i < j < s.len() ==> 10 * digit(#[trigger] s[i]) + digit(#[trigger] s[j]) <= v
}

/// The largest two-digit number that two digits of `line` spell in order;
/// `None` for fewer than two digits.
pub fn max_two_digits_ordered(line: &str) -> (r: Option<u8>)
    requires
        all_digits(line.spec_bytes()),
    ensures
        match r {
            Some(v) => line.spec_bytes().len() >= 2 && is_best_pair(line.spec_bytes(), v as int),
            None => line.spec_bytes().len() < 2,
        },
{
    let bytes = line.as_bytes();
    let n = bytes.len();
    if n < 2 {
        return None;
    }
    let ghost s = bytes@;
    // The largest digit to the right, and the best pair to the right.
    let mut max_suffix_digit: i8 = bytes[n - 1] as i8 - 48;
    let mut best_value: i16 = -1;
    let ghost mut top: int = n - 1;
    let ghost mut bi: int = 0;
    let ghost mut bj: int = 0;
    let mut i: usize = n - 1;
    while i > 0
        invariant
            s == bytes@,
            n == s.len() >= 2,
            all_digits(s),
            0 <= i < n,
            i <= top < n,
            max_suffix_digit == digit(s[top]),
            forall|j: int| i <= j < n ==> digit(#[trigger] s[j]) <= max_suffix_digit,
            i < n - 1 ==> 0 <= best_value <= 99,
            i == n - 1 ==> best_value == -1,
            i < n - 1 ==> i <= bi < bj < n && best_value == 10 * digit(s[bi]) + digit(s[bj]),
            forall|a: int, b: int| i <= a < b < n ==> 10 * digit(#[trigger] s[a]) + digit(#[trigger] s[b]) <= best_value,
        decreases i,
    {
        i = i - 1;
        let d = bytes[i] as i8 - 48;
        let candidate = (d as i16) * 10 + (max_suffix_digit as i16);
        if candidate > best_value {
            best_value = candidate;
            proof {
                bi = i as int;
                bj = top;
            }
        }
        if d > max_suffix_digit {
            max_suffix_digit = d;
            proof {
                top = i as int;
            }
        }
        proof {
            assert forall|a: int, b: int| i <= a < b < n implies 10 * digit(#[trigger] s[a]) + digit(#[trigger] s[b])
                <= best_value by {}
        }
    }
    proof {
        assert(is_best_pair(s, best_value as int));
    }
    Some(best_value as u8)
}

/// The index of the first largest digit among `u[0 .. m]`.
pub open spec fn first_max(u: Seq<u8>, m: int) -> int {
    choose|p: int| is_first_max(u, m, p)
}

/// `u[p]` is a largest byte of `u[0 .. m]`, and no earlier one is as large.
pub open spec fn is_first_max(u: Seq<u8>, m: int, p: int) -> bool {
    0 <= p < m && (forall|j: int| 0 <= j < m ==> #[trigger] u[j] <= u[p]) && (forall|j: int|
        0 <= j < p ==> #[trigger] u[j] < u[p])
}

proof fn lemma_first_max(u: Seq<u8>, m: int, p: int)
    requires
        0 <= p < m,
        forall|j: int| 0 <= j < m ==> #[trigger] u[j] <= u[p],
        forall|j: int| 0 <= j < p ==> #[trigger] u[j] < u[p],
    ensures
        first_max(u, m) == p,
{
    let f = first_max(u, m);
    assert(is_first_max(u, m, p));
    assert(is_first_max(u, m, f));
    if f < p {
        assert(u[f] < u[p]);
        assert(u[p] <= u[f]);
    } else if f > p {
        assert(u[p] < u[f]);
        assert(u[f] <= u[p]);
    }
}

/// The first largest byte among `s[pos .. pos + m]`, as an offset from `pos`.
fn first_max_from(s: &[u8], pos: usize, m: usize) -> (p: usize)
    requires
        1 <= m,
        pos + m <= s@.len(),
    ensures
        p < m,
        p == first_max(s@.subrange(pos as int, s@.len() as int), m as int),
{
    let ghost u = s@.subrange(pos as int, s@.len() as int);
    let n = s.len();
    let mut p: usize = 0;
    let mut j: usize = 1;
    while j < m
        invariant
            u == s@.subrange(pos as int, s@.len() as int),
            n == s@.len(),
            pos + m <= n,
            1 <= m,
            p < j <= m,
            forall|x: int| 0 <= x < j ==> #[trigger] u[x] <= u[p as int],
            forall|x: int| 0 <= x < p ==> #[trigger] u[x] < u[p as int],
        decreases m - j,
    {
        if s[pos + j] > s[pos + p] {
            p = j;
        }
        j = j + 1;
    }
    proof {
        lemma_first_max(u, m as int, p as int);
    }
    p
}

/// The largest `k`-digit number that digits of `u` spell in order, chosen
/// greedily: the first largest digit that still leaves room for the rest,
/// then the best `k - 1` digits after it.
pub open spec fn greedy(u: Seq<u8>, k: nat) -> Seq<u8>
    decreases k,
{
    if k == 0 || k > u.len() {
        Seq::empty()
    } else {
        let p = first_max(u, u.len() - k + 1);
        seq![u[p]] + greedy(u.subrange(p + 1, u.len() as int), (k - 1) as nat)
    }
}

/// What `max_k_digits_ordered` returns for `s` and `k`.
pub open spec fn best_k(s: Seq<u8>, k: nat) -> Option<u128> {
    if k == 0 || k > s.len() || !all_digits(s) || digits_value(greedy(s, k)) > u128::MAX {
        None
    } else {
        Some(digits_value(greedy(s, k)) as u128)
    }
}

proof fn lemma_first_max_exists(u: Seq<u8>, m: int)
    requires
        1 <= m <= u.len(),
    ensures
        is_first_max(u, m, first_max(u, m)),
    decreases m,
{
    if m == 1 {
        assert(is_first_max(u, 1, 0));
    } else {
        lemma_first_max_exists(u, m - 1);
        let p = first_max(u, m - 1);
        if u[m - 1] > u[p] {
            assert(is_first_max(u, m, m - 1));
        } else {
            assert(is_first_max(u, m, p));
        }
    }
}

proof fn lemma_greedy_digits(u: Seq<u8>, k: nat)
    requires
        all_digits(u),
    ensures
        k <= u.len() ==> greedy(u, k).len() == k,
        all_digits(greedy(u, k)),
    decreases k,
{
    if k > 0 && k <= u.len() {
        lemma_first_max_exists(u, u.len() - k + 1);
        let p = first_max(u, u.len() - k + 1);
        let rest = u.subrange(p + 1, u.len() as int);
        assert forall|i: int| 0 <= i < rest.len() implies is_digit(#[trigger] rest[i]) by {
            assert(rest[i] == u[p + 1 + i]);
        }
        lemma_greedy_digits(rest, (k - 1) as nat);
        let g = greedy(u, k);
        assert(forall|i: int| 1 <= i < g.len() ==> g[i] == greedy(rest, (k - 1) as nat)[i - 1]);
    }
}

/// The largest number that `k` of the digits of `line` spell in their
/// order; `None` where `k` is zero or more than the digits, where `line`
/// holds a byte that is not a digit, or where the number exceeds
/// `u128::MAX`.
pub fn max_k_digits_ordered(line: &str, k: usize) -> (r: Option<u128>)
    ensures
        r == best_k(line.spec_bytes(), k as nat),
{
    let bytes = line.as_bytes();
    let n = bytes.len();
    let ghost s = bytes@;
    if k == 0 || k > n {
        return None;
    }
    let mut c: usize = 0;
    while c < n
        invariant
            n == s.len(),
            s == bytes@,
            s == line.spec_bytes(),
            c <= n,
            forall|j: int| 0 <= j < c ==> is_digit(#[trigger] s[j]),
        decreases n - c,
    {
        if !(48u8 <= bytes[c] && bytes[c] <= 57u8) {
            proof {
                assert(!is_digit(s[c as int]));
            }
            return None;
        }
        c = c + 1;
    }
    // Pick each digit in turn: the first largest one that leaves enough
    // digits after it.
    let mut chosen: Vec<u8> = Vec::new();
    let mut pos: usize = 0;
    let mut t: usize = 0;
    proof {
        assert(s.subrange(0, n as int) =~= s);
    }
    while t < k
        invariant
            n == s.len(),
            s == bytes@,
            s == line.spec_bytes(),
            all_digits(s),
            1 <= k <= n,
            t <= k,
            pos + (k - t) <= n,
            chosen@ + greedy(s.subrange(pos as int, n as int), (k - t) as nat) == greedy(s, k as nat),
        decreases k - t,
    {
        let ghost u = s.subrange(pos as int, n as int);
        let m = (n - pos) - (k - t) + 1;
        let p = first_max_from(bytes, pos, m);
        proof {
            let rest = u.subrange(p + 1, u.len() as int);
            assert(rest =~= s.subrange(pos + p + 1, n as int));
            assert(greedy(u, (k - t) as nat) == seq![u[p as int]] + greedy(rest, (k - t - 1) as nat));
        }
        let ghost old_chosen = chosen@;
        chosen.push(bytes[pos + p]);
        proof {
            assert(chosen@ =~= old_chosen + seq![u[p as int]]);
            let rest = u.subrange(p + 1, u.len() as int);
            assert(old_chosen + (seq![u[p as int]] + greedy(rest, (k - t - 1) as nat)) =~= chosen@
                + greedy(rest, (k - t - 1) as nat));
        }
        pos = pos + p + 1;
        t = t + 1;
    }
    proof {
        assert(greedy(s.subrange(pos as int, n as int), 0) =~= Seq::<u8>::empty());
        assert(chosen@ =~= greedy(s, k as nat));
        lemma_greedy_digits(s, k as nat);
    }
    digits_u128(chosen.as_slice())
}

pub open spec fn pow10(n: nat) -> nat
    decreases n,
{
    if n == 0 {
        1
    } else {
        10 * pow10((n - 1) as nat)
    }
}

/// A leading digit weighs ten to the power of the digits after it.
proof fn lemma_value_front(x: u8, t: Seq<u8>)
    requires
        is_digit(x),
    ensures
        digits_value(seq![x] + t) == (x - 48) as nat * pow10(t.len()) + digits_value(t),
    decreases t.len(),
{
    if t.len() > 0 {
        lemma_value_front(x, t.drop_last());
        assert((seq![x] + t).drop_last() =~= seq![x] + t.drop_last());
        let a = (x - 48) as nat;
        let q = pow10(t.drop_last().len());
        let w = seq![x] + t;
        assert(w.last() == t.last());
        assert(digits_value(w) == digits_value(w.drop_last()) * 10 + (w.last() - 48) as nat);
        assert(digits_value(t) == digits_value(t.drop_last()) * 10 + (t.last() - 48) as nat);
        assert(pow10(t.len()) == 10 * q);
        assert(digits_value(w.drop_last()) == a * q + digits_value(t.drop_last()));
        assert((a * q + digits_value(t.drop_last())) * 10 + (t.last() - 48) as nat == a * (10 * q)
            + (digits_value(t.drop_last()) * 10 + (t.last() - 48) as nat)) by (nonlinear_arith);
    } else {
        assert(seq![x] + t =~= seq![x]);
        assert(seq![x].drop_last() =~= Seq::<u8>::empty());
        assert(digits_value(seq![x]) == digits_value(seq![x].drop_last()) * 10 + (x - 48) as nat);
        assert(digits_value(t) == 0);
        assert(pow10(0) == 1);
        assert(digits_value(seq![x] + t) == (x - 48) as nat * pow10(t.len()) + digits_value(t));
    }
}

proof fn lemma_value_bound(t: Seq<u8>)
    requires
        all_digits(t),
    ensures
        digits_value(t) < pow10(t.len()),
    decreases t.len(),
{
    if t.len() > 0 {
        lemma_value_bound(t.drop_last());
        let v = digits_value(t.drop_last());
        let q = pow10(t.drop_last().len());
        assert(is_digit(t[t.len() - 1]));
        let d = (t.last() - 48) as nat;
        assert(v * 10 + d < 10 * q) by (nonlinear_arith)
            requires
                v < q,
                d <= 9,
        ;
    }
}

/// `idx` picks positions of `s` in increasing order.
pub open spec fn is_selection(s: Seq<u8>, idx: Seq<int>) -> bool {
    &&& forall|j: int| 0 <= j < idx.len() ==> 0 <= #[trigger] idx[j] < s.len()
    &&& forall|a: int, b: int| 0 <= a < b < idx.len() ==> #[trigger] idx[a] < #[trigger] idx[b]
}

/// The digits of `s` at the positions `idx`.
pub open spec fn picked(s: Seq<u8>, idx: Seq<int>) -> Seq<u8> {
    Seq::new(idx.len(), |j: int| s[idx[j]])
}

proof fn lemma_selection_spread(s: Seq<u8>, idx: Seq<int>, j: int)
    requires
        is_selection(s, idx),
        0 <= j < idx.len(),
    ensures
        idx[j] >= idx[0] + j,
    decreases j,
{
    if j > 0 {
        lemma_selection_spread(s, idx, j - 1);
        assert(idx[j - 1] < idx[j]);
    }
}

/// The greedy choice is the largest: no `k` digits of `s` kept in order
/// spell a larger number than `greedy(s, k)`.
pub proof fn lemma_greedy_is_largest(s: Seq<u8>, k: nat, idx: Seq<int>)
    requires
        all_digits(s),
        1 <= k <= s.len(),
        is_selection(s, idx),
        idx.len() == k,
    ensures
        digits_value(picked(s, idx)) <= digits_value(greedy(s, k)),
    decreases k,
{
    let n = s.len() as int;
    let m = n - k + 1;
    lemma_first_max_exists(s, m);
    let p = first_max(s, m);
    let rest = s.subrange(p + 1, n);
    assert forall|i: int| 0 <= i < rest.len() implies is_digit(#[trigger] rest[i]) by {
        assert(rest[i] == s[p + 1 + i]);
    }
    let g_rest = greedy(rest, (k - 1) as nat);
    lemma_greedy_digits(rest, (k - 1) as nat);
    assert(greedy(s, k) == seq![s[p]] + g_rest);
    let i0 = idx[0];
    lemma_selection_spread(s, idx, k - 1);
    assert(i0 < m);
    let sel_rest = picked(s, idx).drop_first();
    assert(picked(s, idx) =~= seq![s[i0]] + sel_rest);
    assert forall|i: int| 0 <= i < sel_rest.len() implies is_digit(#[trigger] sel_rest[i]) by {
        assert(sel_rest[i] == s[idx[i + 1]]);
    }
    assert(is_digit(s[i0]));
    assert(is_digit(s[p]));
    lemma_value_front(s[i0], sel_rest);
    lemma_value_front(s[p], g_rest);
    let big = pow10((k - 1) as nat);
    assert(s[i0] <= s[p]);
    if s[i0] < s[p] {
        lemma_value_bound(sel_rest);
        let a = (s[i0] - 48) as nat;
        let b = (s[p] - 48) as nat;
        assert(a * big + digits_value(sel_rest) <= b * big + digits_value(g_rest)) by (nonlinear_arith)
            requires
                a + 1 <= b,
                digits_value(sel_rest) < big,
        ;
    } else {
        assert(i0 >= p) by {
            if i0 < p {
                assert(s[i0] < s[p]);
            }
        }
        if k > 1 {
            let idx2 = Seq::new((k - 1) as nat, |j: int| idx[j + 1] - (p + 1));
            assert forall|j: int| 0 <= j < idx2.len() implies 0 <= #[trigger] idx2[j] < rest.len() by {
                assert(idx[0] < idx[j + 1]);
            }
            assert forall|a: int, b: int| 0 <= a < b < idx2.len() implies #[trigger] idx2[a] < #[trigger] idx2[b] by {
                assert(idx[a + 1] < idx[b + 1]);
            }
            assert(picked(rest, idx2) =~= sel_rest);
            lemma_greedy_is_largest(rest, (k - 1) as nat, idx2);
        } else {
            assert(sel_rest =~= Seq::<u8>::empty());
        }
    }
}

/// What each line adds: its best `k` digits, or nothing where it has none.
pub open spec fn jolts_total(lines: Seq<&str>, k: nat) -> nat
    decreases lines.len(),
{
    if lines.len() == 0 {
        0
    } else {
        jolts_total(lines.drop_last(), k) + match best_k(lines.last().spec_bytes(), k) {
            Some(v) => v as nat,
            None => 0,
        }
    }
}

/// The sum over the lines of their best `k`-digit numbers (a line without
/// one adds nothing), held at `u128::MAX`.
pub fn calculate_total_jolts(lines: &[&str], k: usize) -> (r: u128)
    ensures
        r == if jolts_total(lines@, k as nat) > u128::MAX {
            u128::MAX as nat
        } else {
            jolts_total(lines@, k as nat)
        },
{
    let mut total_jolts: u128 = 0;
    let mut i: usize = 0;
    while i < lines.len()
        invariant
            i <= lines@.len(),
            total_jolts == if jolts_total(lines@.subrange(0, i as int), k as nat) > u128::MAX {
                u128::MAX as nat
            } else {
                jolts_total(lines@.subrange(0, i as int), k as nat)
            },
        decreases lines@.len() - i,
    {
        proof {
            assert(lines@.subrange(0, i + 1).drop_last() =~= lines@.subrange(0, i as int));
        }
        let line: &str = lines[i];
        let jolts = match max_k_digits_ordered(line, k) {
            Some(v) => v,
            None => 0,
        };
        total_jolts = total_jolts.saturating_add(jolts);
        i = i + 1;
    }
    proof {
        assert(lines@.subrange(0, lines@.len() as int) =~= lines@);
    }
    total_jolts
}

} // verus!
