//! Fresh ingredient IDs: inclusive ranges, merged, and the IDs they hold.
use crate::numbers::{i64_of, parse_i64};
use crate::text::{copy_range, find_byte, first_index, has_byte, lines_of, split_lines, trim, trim_bytes};
use vstd::prelude::*;
use vstd::seq_lib::to_multiset_contains;
use vstd::string::StringSliceAdditionalSpecFns;

verus! {

/// The inclusive range `[start, end]`.
#[derive(Clone, Copy, Debug, PartialEq, Eq, Structural)]
pub struct Interval {
    pub start: i64,
    pub end: i64,
}

/// Some range of `v` holds `x`.
pub open spec fn covered(v: Seq<Interval>, x: int) -> bool {
    exists|i: int| 0 <= i < v.len() && (#[trigger] v[i]).start <= x <= v[i].end
}

/// Every range of `v` is non-empty (start at most end).
pub open spec fn proper(v: Seq<Interval>) -> bool {
    forall|i: int| 0 <= i < v.len() ==> (#[trigger] v[i]).start <= v[i].end
}

/// The ranges are proper, in increasing order, and no two of them overlap
/// or touch.
pub open spec fn separated(v: Seq<Interval>) -> bool {
    &&& proper(v)
    &&& forall|i: int, j: int| 0 <= i < j < v.len() ==> (#[trigger] v[i]).end + 1 < (#[trigger] v[j]).start
}

/// The ranges are proper, in increasing order, and no two of them overlap
/// (they may touch).
pub open spec fn disjoint_sorted(v: Seq<Interval>) -> bool {
    &&& proper(v)
    &&& forall|i: int, j: int| 0 <= i < j < v.len() ==> (#[trigger] v[i]).end < (#[trigger] v[j]).start
}

/// Ordered by start, and by end where starts are equal.
pub open spec fn sorted(v: Seq<Interval>) -> bool {
    forall|i: int, j: int|
        0 <= i < j < v.len() ==> (#[trigger] v[i]).start < (#[trigger] v[j]).start || (v[i].start
            == v[j].start && v[i].end <= v[j].end)
}

/// Relies on `slice::sort_by_key`: a stable sort, so the result holds the
/// same ranges, ordered by the key `(start, end)`, which tuples compare
/// lexicographically.
#[verifier::external_body]
fn sort_intervals(v: &mut Vec<Interval>)
    ensures
        final(v)@.to_multiset() == old(v)@.to_multiset(),
        sorted(final(v)@),
{
    v.sort_by_key(|it| (it.start, it.end));
}

proof fn lemma_same_cover(a: Seq<Interval>, b: Seq<Interval>)
    requires
        a.to_multiset() == b.to_multiset(),
    ensures
        forall|x: int| covered(a, x) <==> covered(b, x),
        proper(a) ==> proper(b),
{
    assert forall|x: int| covered(a, x) implies covered(b, x) by {
        let i = choose|i: int| 0 <= i < a.len() && (#[trigger] a[i]).start <= x <= a[i].end;
        to_multiset_contains(a, a[i]);
        to_multiset_contains(b, a[i]);
        assert(a.contains(a[i]));
    }
    assert forall|x: int| covered(b, x) implies covered(a, x) by {
        let i = choose|i: int| 0 <= i < b.len() && (#[trigger] b[i]).start <= x <= b[i].end;
        to_multiset_contains(a, b[i]);
        to_multiset_contains(b, b[i]);
        assert(b.contains(b[i]));
    }
    if proper(a) {
        assert forall|i: int| 0 <= i < b.len() implies (#[trigger] b[i]).start <= b[i].end by {
            to_multiset_contains(a, b[i]);
            to_multiset_contains(b, b[i]);
            assert(b.contains(b[i]));
        }
    }
}

/// Merges ranges into the fewest ranges that hold the same IDs: in
/// increasing order, with no two overlapping or touching.
pub fn merge_intervals(v: Vec<Interval>) -> (merged: Vec<Interval>)
    requires
        proper(v@),
    ensures
        separated(merged@),
        forall|x: int| covered(merged@, x) <==> covered(v@, x),
{
    let mut v = v;
    let ghost orig = v@;
    sort_intervals(&mut v);
    proof {
        lemma_same_cover(orig, v@);
    }
    let mut merged: Vec<Interval> = Vec::new();
    let mut k: usize = 0;
    while k < v.len()
        invariant
            k <= v@.len(),
            proper(v@),
            sorted(v@),
            separated(merged@),
            merged@.len() > 0 <==> k > 0,
            k > 0 ==> merged@.last().start <= v@[k - 1].start,
            forall|x: int| covered(merged@, x) <==> covered(v@.subrange(0, k as int), x),
        decreases v@.len() - k,
    {
        let it = v[k];
        let ghost before = merged@;
        let n = merged.len();
        proof {
            assert(v@[k as int] == it);
        }
        let mut joined = false;
        if n > 0 {
            let last = merged[n - 1];
            // Inclusive ranges that overlap or touch become one.
            if last.end == i64::MAX || it.start <= last.end + 1 {
                if it.end > last.end {
                    merged[n - 1] = Interval { start: last.start, end: it.end };
                }
                joined = true;
                proof {
                    assert forall|x: int| covered(merged@, x) <==> (covered(before, x) || (it.start
                        <= x <= it.end)) by {
                        if covered(before, x) {
                            let i = choose|i: int| 0 <= i < before.len() && (#[trigger] before[i]).start <= x <= before[i].end;
                            if i == n - 1 {
                                assert(merged@[i].start <= x <= merged@[i].end);
                            } else {
                                assert(merged@[i] == before[i]);
                            }
                        }
                        if it.start <= x <= it.end {
                            assert(merged@[n - 1].start <= x <= merged@[n - 1].end);
                        }
                        if covered(merged@, x) {
                            let i = choose|i: int| 0 <= i < merged@.len() && (#[trigger] merged@[i]).start <= x <= merged@[i].end;
                            if i != n - 1 {
                                assert(before[i] == merged@[i]);
                            } else if x > last.end {
                                assert(it.start <= x <= it.end);
                            } else {
                                assert(before[i].start <= x <= before[i].end);
                            }
                        }
                    }
                }
            }
        }
        if !joined {
            merged.push(it);
            proof {
                assert forall|x: int| covered(merged@, x) <==> (covered(before, x) || (it.start <= x
                    <= it.end)) by {
                    if covered(before, x) {
                        let i = choose|i: int| 0 <= i < before.len() && (#[trigger] before[i]).start <= x <= before[i].end;
                        assert(merged@[i] == before[i]);
                    }
                    if it.start <= x <= it.end {
                        assert(merged@[n as int] == it);
                    }
                    if covered(merged@, x) {
                        let i = choose|i: int| 0 <= i < merged@.len() && (#[trigger] merged@[i]).start <= x <= merged@[i].end;
                        if i < n {
                            assert(before[i] == merged@[i]);
                        }
                    }
                }
            }
        }
        proof {
            let s0 = v@.subrange(0, k as int);
            let s1 = v@.subrange(0, k + 1);
            assert forall|x: int| covered(s1, x) <==> (covered(s0, x) || (it.start <= x <= it.end)) by {
                if covered(s0, x) {
                    let i = choose|i: int| 0 <= i < s0.len() && (#[trigger] s0[i]).start <= x <= s0[i].end;
                    assert(s1[i] == s0[i]);
                }
                if it.start <= x <= it.end {
                    assert(s1[k as int] == it);
                }
                if covered(s1, x) {
                    let i = choose|i: int| 0 <= i < s1.len() && (#[trigger] s1[i]).start <= x <= s1[i].end;
                    if i < k {
                        assert(s0[i] == s1[i]);
                    }
                }
            }
        }
        proof {
            let s0 = v@.subrange(0, k as int);
            let s1 = v@.subrange(0, k + 1);
            assert forall|x: int| covered(merged@, x) <==> covered(s1, x) by {
                assert(covered(merged@, x) <==> (covered(before, x) || (it.start <= x <= it.end)));
                assert(covered(before, x) <==> covered(s0, x));
                assert(covered(s1, x) <==> (covered(s0, x) || (it.start <= x <= it.end)));
            }
        }
        let ghost s1 = v@.subrange(0, k + 1);
        k = k + 1;
        proof {
            assert(v@.subrange(0, k as int) == s1);
        }
    }
    proof {
        assert(v@.subrange(0, v@.len() as int) =~= v@);
    }
    merged
}

/// Whether `x` lies in one of the ranges of `merged`, found by binary search
/// on the starts.
pub fn contains(merged: &[Interval], x: i64) -> (r: bool)
    requires
        disjoint_sorted(merged@),
    ensures
        r == covered(merged@, x as int),
{
    let n = merged.len();
    // The number of ranges that start at or before `x`.
    let mut lo: usize = 0;
    let mut hi: usize = n;
    while lo < hi
        invariant
            0 <= lo <= hi <= n == merged@.len(),
            disjoint_sorted(merged@),
            forall|i: int| 0 <= i < lo ==> (#[trigger] merged@[i]).start <= x,
            forall|i: int| hi <= i < n ==> (#[trigger] merged@[i]).start > x,
        decreases hi - lo,
    {
        let mid = lo + (hi - lo) / 2;
        if merged[mid].start <= x {
            proof {
                assert forall|i: int| 0 <= i < mid + 1 implies (#[trigger] merged@[i]).start <= x by {
                    if i < mid {
                        assert(merged@[i].end < merged@[mid as int].start);
                    }
                }
            }
            lo = mid + 1;
        } else {
            proof {
                assert forall|i: int| mid <= i < n implies (#[trigger] merged@[i]).start > x by {
                    if i > mid {
                        assert(merged@[mid as int].end < merged@[i].start);
                    }
                }
            }
            hi = mid;
        }
    }
    let idx = lo;
    if idx == 0 {
        proof {
            assert(!covered(merged@, x as int)) by {
                if covered(merged@, x as int) {
                    let i = choose|i: int| 0 <= i < merged@.len() && (#[trigger] merged@[i]).start <= x <= merged@[i].end;
                    assert(merged@[i].start > x);
                }
            }
        }
        return false;
    }
    // The last range that starts at or before `x` is the only one that can
    // hold it.
    let it = merged[idx - 1];
    proof {
        if x <= it.end {
            assert(merged@[idx - 1].start <= x <= merged@[idx - 1].end);
        } else {
            assert(!covered(merged@, x as int)) by {
                if covered(merged@, x as int) {
                    let i = choose|i: int| 0 <= i < merged@.len() && (#[trigger] merged@[i]).start <= x <= merged@[i].end;
                    if i < idx - 1 {
                        assert(merged@[i].end < merged@[idx - 1].start);
                    } else if i >= idx {
                        assert(merged@[i].start > x);
                    }
                }
            }
        }
    }
    x <= it.end
}

/// The IDs in all the ranges of `v`, counting overlaps again.
pub open spec fn total_size(v: Seq<Interval>) -> nat
    decreases v.len(),
{
    if v.len() == 0 {
        0
    } else {
        total_size(v.drop_last()) + (v.last().end - v.last().start + 1) as nat
    }
}

/// `x`, or `u64::MAX` where it is larger.
pub open spec fn capped(x: nat) -> nat {
    if x > u64::MAX {
        u64::MAX as nat
    } else {
        x
    }
}

/// The number of IDs in the ranges of `merged`, held at `u64::MAX`.
pub fn count_interval_members(merged: &[Interval]) -> (r: u64)
    requires
        proper(merged@),
    ensures
        r == capped(total_size(merged@)),
{
    let mut count: u64 = 0;
    let mut k: usize = 0;
    while k < merged.len()
        invariant
            k <= merged@.len(),
            proper(merged@),
            count == capped(total_size(merged@.subrange(0, k as int))),
        decreases merged@.len() - k,
    {
        let it = merged[k];
        proof {
            assert(merged@.subrange(0, k + 1).drop_last() =~= merged@.subrange(0, k as int));
            assert(merged@[k as int].start <= merged@[k as int].end);
        }
        // For an inclusive range, (end - start) + 1 IDs.
        let span = (it.end as i128 - it.start as i128) as u64;
        count = count.saturating_add(span);
        count = count.saturating_add(1);
        k = k + 1;
    }
    proof {
        assert(merged@.subrange(0, merged@.len() as int) =~= merged@);
    }
    count
}

/// What a range line reads as: cut at its first `'-'`, both sides trimmed
/// and read as `i64`, the smaller first.
pub open spec fn range_line(t: Seq<u8>) -> Option<Interval> {
    if has_byte(t, 45u8) {
        let i = first_index(t, 45u8);
        let a = i64_of(trim(t.subrange(0, i)));
        let b = i64_of(trim(t.subrange(i + 1, t.len() as int)));
        if a is Some && b is Some {
            if a->0 <= b->0 {
                Some(Interval { start: a->0 as i64, end: b->0 as i64 })
            } else {
                Some(Interval { start: b->0 as i64, end: a->0 as i64 })
            }
        } else {
            None
        }
    } else {
        None
    }
}

/// The ranges and numbers of the lines `ls`, and whether the blank line
/// that ends the ranges has been seen; `None` where a line does not read.
pub open spec fn parse_lines(ls: Seq<Seq<u8>>) -> Option<(Seq<Interval>, Seq<i64>, bool)>
    decreases ls.len(),
{
    if ls.len() == 0 {
        Some((Seq::empty(), Seq::empty(), false))
    } else {
        match parse_lines(ls.drop_last()) {
            None => None,
            Some((rs, ns, numbers)) => {
                let t = trim(ls.last());
                if t.len() == 0 {
                    Some((rs, ns, true))
                } else if !numbers {
                    match range_line(t) {
                        Some(iv) => Some((rs.push(iv), ns, false)),
                        None => None,
                    }
                } else {
                    match i64_of(t) {
                        Some(v) => Some((rs, ns.push(v as i64), true)),
                        None => None,
                    }
                }
            },
        }
    }
}

/// The text is ranges `a-b`, one per line, then after a blank line
/// numbers, one per line.
pub open spec fn input_ok(s: Seq<u8>) -> bool {
    parse_lines(lines_of(s)) is Some
}

proof fn lemma_unreadable_stays(ls: Seq<Seq<u8>>, j: int)
    requires
        0 <= j <= ls.len(),
        parse_lines(ls.subrange(0, j)) is None,
    ensures
        parse_lines(ls) is None,
    decreases ls.len(),
{
    if j == ls.len() {
        assert(ls.subrange(0, j) =~= ls);
    } else {
        assert(ls.drop_last().subrange(0, j) =~= ls.subrange(0, j));
        lemma_unreadable_stays(ls.drop_last(), j);
    }
}

fn read_range_line(t: &[u8]) -> (r: Option<Interval>)
    ensures
        r == range_line(t@),
{
    let n = t.len();
    let i = find_byte(t, 45u8);
    if i == n {
        return None;
    }
    let left = trim_bytes(copy_range(t, 0, i).as_slice());
    let right = trim_bytes(copy_range(t, i + 1, n).as_slice());
    match parse_i64(left.as_slice()) {
        Some(a) => match parse_i64(right.as_slice()) {
            Some(b) => {
                if a <= b {
                    Some(Interval { start: a, end: b })
                } else {
                    Some(Interval { start: b, end: a })
                }
            },
            None => None,
        },
        None => None,
    }
}

/// Reads the ranges and the numbers, or `None` where a line does not read.
pub fn try_parse_input(input: &str) -> (r: Option<(Vec<Interval>, Vec<i64>)>)
    ensures
        match parse_lines(lines_of(input.spec_bytes())) {
            Some((rs, ns, _)) => match r {
                Some((a, b)) => a@ == rs && b@ == ns,
                None => false,
            },
            None => r is None,
        },
{
    let lines = split_lines(input.as_bytes());
    let ghost ls = lines.deep_view();
    let mut ranges: Vec<Interval> = Vec::new();
    let mut numbers: Vec<i64> = Vec::new();
    let mut in_numbers = false;
    let mut k: usize = 0;
    while k < lines.len()
        invariant
            k <= lines@.len(),
            ls == lines.deep_view(),
            ls == lines_of(input.spec_bytes()),
            parse_lines(ls.subrange(0, k as int)) == Some((ranges@, numbers@, in_numbers)),
        decreases lines@.len() - k,
    {
        proof {
            assert(lines@[k as int]@ =~= ls[k as int]);
            assert(ls.subrange(0, k + 1).drop_last() =~= ls.subrange(0, k as int));
        }
        let line = trim_bytes(lines[k].as_slice());
        if line.len() == 0 {
            in_numbers = true;
        } else if !in_numbers {
            match read_range_line(line.as_slice()) {
                Some(iv) => ranges.push(iv),
                None => {
                    proof {
                        lemma_unreadable_stays(ls, k + 1);
                    }
                    return None;
                },
            }
        } else {
            match parse_i64(line.as_slice()) {
                Some(v) => numbers.push(v),
                None => {
                    proof {
                        lemma_unreadable_stays(ls, k + 1);
                    }
                    return None;
                },
            }
        }
        k = k + 1;
    }
    proof {
        assert(ls.subrange(0, lines@.len() as int) =~= ls);
    }
    Some((ranges, numbers))
}

/// Reads the ranges and the numbers of a well-formed input.
pub fn parse_input(input: &str) -> (r: (Vec<Interval>, Vec<i64>))
    requires
        input_ok(input.spec_bytes()),
    ensures
        match parse_lines(lines_of(input.spec_bytes())) {
            Some((rs, ns, _)) => r.0@ == rs && r.1@ == ns,
            None => false,
        },
{
    match try_parse_input(input) {
        Some(p) => p,
        None => (Vec::new(), Vec::new()),
    }
}

proof fn lemma_parsed_proper(ls: Seq<Seq<u8>>)
    requires
        parse_lines(ls) is Some,
    ensures
        match parse_lines(ls) {
            Some((rs, _, _)) => proper(rs),
            None => true,
        },
    decreases ls.len(),
{
    if ls.len() > 0 {
        lemma_parsed_proper(ls.drop_last());
    }
}

/// How many of `ns` lie in some range of `rs`.
pub open spec fn count_covered(rs: Seq<Interval>, ns: Seq<i64>) -> nat
    decreases ns.len(),
{
    if ns.len() == 0 {
        0
    } else {
        count_covered(rs, ns.drop_last()) + if covered(rs, ns.last() as int) {
            1nat
        } else {
            0nat
        }
    }
}

/// How many of the listed numbers lie in some range.
pub fn process_input_part1(input: &str) -> (r: u64)
    requires
        input_ok(input.spec_bytes()),
    ensures
        match parse_lines(lines_of(input.spec_bytes())) {
            Some((rs, ns, _)) => r == count_covered(rs, ns),
            None => false,
        },
{
    let (ranges, numbers) = parse_input(input);
    let ghost rs = ranges@;
    proof {
        lemma_parsed_proper(lines_of(input.spec_bytes()));
    }
    let merged = merge_intervals(ranges);
    proof {
        assert(disjoint_sorted(merged@));
    }
    let mut count: u64 = 0;
    let mut k: usize = 0;
    while k < numbers.len()
        invariant
            k <= numbers@.len(),
            disjoint_sorted(merged@),
            forall|x: int| covered(merged@, x) <==> covered(rs, x),
            count == count_covered(rs, numbers@.subrange(0, k as int)),
            count <= k,
        decreases numbers@.len() - k,
    {
        proof {
            assert(numbers@.subrange(0, k + 1).drop_last() =~= numbers@.subrange(0, k as int));
        }
        if contains(merged.as_slice(), numbers[k]) {
            count = count + 1;
        }
        k = k + 1;
    }
    proof {
        assert(numbers@.subrange(0, numbers@.len() as int) =~= numbers@);
    }
    count
}

/// How many `x` in `lo .. hi` satisfy `p`.
pub open spec fn count_in(p: spec_fn(int) -> bool, lo: int, hi: int) -> nat
    decreases hi - lo,
{
    if hi <= lo {
        0
    } else {
        count_in(p, lo, hi - 1) + if p(hi - 1) {
            1nat
        } else {
            0nat
        }
    }
}

/// How many IDs (values of `i64`) some range of `v` holds.
pub open spec fn ids_covered(v: Seq<Interval>) -> nat {
    count_in(|x: int| covered(v, x), i64::MIN as int, i64::MAX as int + 1)
}

proof fn lemma_count_ext(p: spec_fn(int) -> bool, q: spec_fn(int) -> bool, lo: int, hi: int)
    requires
        forall|x: int| lo <= x < hi ==> #[trigger] p(x) == q(x),
    ensures
        count_in(p, lo, hi) == count_in(q, lo, hi),
    decreases hi - lo,
{
    if hi > lo {
        lemma_count_ext(p, q, lo, hi - 1);
    }
}

proof fn lemma_count_union(
    p: spec_fn(int) -> bool,
    q: spec_fn(int) -> bool,
    u: spec_fn(int) -> bool,
    lo: int,
    hi: int,
)
    requires
        forall|x: int| lo <= x < hi ==> #[trigger] u(x) == (p(x) || q(x)),
        forall|x: int| lo <= x < hi ==> !(#[trigger] p(x) && q(x)),
    ensures
        count_in(u, lo, hi) == count_in(p, lo, hi) + count_in(q, lo, hi),
    decreases hi - lo,
{
    if hi > lo {
        lemma_count_union(p, q, u, lo, hi - 1);
    }
}

proof fn lemma_count_range(a: int, b: int, lo: int, hi: int)
    requires
        lo <= a <= b + 1,
        b < hi,
    ensures
        count_in(|x: int| a <= x <= b, lo, hi) == b - a + 1,
    decreases hi - lo,
{
    if hi - 1 > b {
        lemma_count_range(a, b, lo, hi - 1);
    } else if hi - 1 >= a {
        lemma_count_range(a, b - 1, lo, hi - 1);
        lemma_count_ext(|x: int| a <= x <= b, |x: int| a <= x <= b - 1, lo, hi - 1);
    } else {
        lemma_count_zero(|x: int| a <= x <= b, lo, hi);
    }
}

proof fn lemma_count_zero(p: spec_fn(int) -> bool, lo: int, hi: int)
    requires
        forall|x: int| lo <= x < hi ==> !#[trigger] p(x),
    ensures
        count_in(p, lo, hi) == 0,
    decreases hi - lo,
{
    if hi > lo {
        lemma_count_zero(p, lo, hi - 1);
    }
}

/// Separated ranges hold as many IDs as their sizes add up to.
pub proof fn lemma_separated_size(m: Seq<Interval>)
    requires
        separated(m),
    ensures
        total_size(m) == ids_covered(m),
    decreases m.len(),
{
    let lo = i64::MIN as int;
    let hi = i64::MAX as int + 1;
    if m.len() == 0 {
        lemma_count_zero(|x: int| covered(m, x), lo, hi);
    } else {
        let rest = m.drop_last();
        let last = m.last();
        assert(separated(rest)) by {
            assert forall|i: int, j: int| 0 <= i < j < rest.len() implies (#[trigger] rest[i]).end + 1 < (#[trigger] rest[j]).start by {
                assert(rest[i] == m[i] && rest[j] == m[j]);
            }
            assert forall|i: int| 0 <= i < rest.len() implies (#[trigger] rest[i]).start <= rest[i].end by {
                assert(rest[i] == m[i]);
            }
        }
        lemma_separated_size(rest);
        assert(m[m.len() - 1] == last);
        let p = |x: int| covered(rest, x);
        let q = |x: int| last.start <= x <= last.end;
        let u = |x: int| covered(m, x);
        assert forall|x: int| lo <= x < hi implies #[trigger] u(x) == (p(x) || q(x)) by {
            if covered(m, x) {
                let i = choose|i: int| 0 <= i < m.len() && (#[trigger] m[i]).start <= x <= m[i].end;
                if i < m.len() - 1 {
                    assert(rest[i] == m[i]);
                }
            }
            if covered(rest, x) {
                let i = choose|i: int| 0 <= i < rest.len() && (#[trigger] rest[i]).start <= x <= rest[i].end;
                assert(m[i] == rest[i]);
            }
        }
        assert forall|x: int| lo <= x < hi implies !(#[trigger] p(x) && q(x)) by {
            if covered(rest, x) {
                let i = choose|i: int| 0 <= i < rest.len() && (#[trigger] rest[i]).start <= x <= rest[i].end;
                assert(m[i] == rest[i]);
                assert(m[i].end + 1 < m[m.len() - 1].start);
            }
        }
        lemma_count_union(p, q, u, lo, hi);
        lemma_count_range(last.start as int, last.end as int, lo, hi);
        assert(m.len() - 1 >= 0);
        assert(last.start <= last.end);
    }
}

/// How many IDs the ranges hold together, each counted once, held at
/// `u64::MAX`.
pub fn process_input_part2(input: &str) -> (r: u64)
    requires
        input_ok(input.spec_bytes()),
    ensures
        match parse_lines(lines_of(input.spec_bytes())) {
            Some((rs, ns, _)) => r == capped(ids_covered(rs)),
            None => false,
        },
{
    let (ranges, _numbers) = parse_input(input);
    proof {
        lemma_parsed_proper(lines_of(input.spec_bytes()));
    }
    let merged = merge_intervals(ranges);
    let count = count_interval_members(merged.as_slice());
    proof {
        lemma_separated_size(merged@);
        lemma_count_ext(
            |x: int| covered(merged@, x),
            |x: int| covered(ranges@, x),
            i64::MIN as int,
            i64::MAX as int + 1,
        );
    }
    count
}

} // verus!
