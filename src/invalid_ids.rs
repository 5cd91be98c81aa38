//! Summing invalid product IDs over ranges.
//!
//! An ID is invalid when its decimal digits repeat a pattern: exactly twice
//! in one mode, at least twice in the other. Ranges come as `"a-b"` parts of
//! comma-separated lines.
use crate::numbers::{decimal, decimal_digits, parse_u64, unsigned_of};
use crate::text::{find_byte, first_index, has_byte, pieces, split_pieces, trim, trim_bytes};
use vstd::prelude::*;
use vstd::string::StringSliceAdditionalSpecFns;

verus! {

/// Which repetitions make an ID invalid.
#[derive(Debug, Clone, Copy, PartialEq, Eq, Structural)]
pub enum InvalidMode {
    /// The digits are one pattern written exactly twice (`5555`, `123123`).
    ExactDouble,
    /// The digits are one pattern written two or more times (`111`,
    /// `123123123`).
    AtLeastDouble,
}

/// The words that select the at-least-twice mode.
pub open spec fn at_least_word(s: Seq<u8>) -> bool {
    s == seq![97u8, 116, 108, 101, 97, 115, 116] || s == seq![97u8, 116, 45, 108, 101, 97, 115, 116]
        || s == seq![97u8, 116, 95, 108, 101, 97, 115, 116]
}

fn same_bytes(a: &[u8], b: &Vec<u8>) -> (r: bool)
    ensures
        r == (a@ == b@),
{
    if a.len() != b.len() {
        return false;
    }
    let mut i: usize = 0;
    while i < a.len()
        invariant
            i <= a@.len() == b@.len(),
            forall|j: int| 0 <= j < i ==> a@[j] == b@[j],
        decreases a@.len() - i,
    {
        if a[i] != b[i] {
            return false;
        }
        i = i + 1;
    }
    proof {
        assert(a@ =~= b@);
    }
    true
}

/// The mode that a command-line word names: `atleast`, `at-least` or
/// `at_least` select `AtLeastDouble`; anything else, or nothing,
/// `ExactDouble`.
pub fn parse_mode(arg: Option<&str>) -> (r: InvalidMode)
    ensures
        r == (match arg {
            Some(s) => if at_least_word(s.spec_bytes()) {
                InvalidMode::AtLeastDouble
            } else {
                InvalidMode::ExactDouble
            },
            None => InvalidMode::ExactDouble,
        }),
{
    match arg {
        Some(s) => {
            let b = s.as_bytes();
            let w1: Vec<u8> = vec![97u8, 116, 108, 101, 97, 115, 116];
            let w2: Vec<u8> = vec![97u8, 116, 45, 108, 101, 97, 115, 116];
            let w3: Vec<u8> = vec![97u8, 116, 95, 108, 101, 97, 115, 116];
            proof {
                assert(w1@ =~= seq![97u8, 116, 108, 101, 97, 115, 116]);
                assert(w2@ =~= seq![97u8, 116, 45, 108, 101, 97, 115, 116]);
                assert(w3@ =~= seq![97u8, 116, 95, 108, 101, 97, 115, 116]);
            }
            if same_bytes(b, &w1) || same_bytes(b, &w2) || same_bytes(b, &w3) {
                InvalidMode::AtLeastDouble
            } else {
                InvalidMode::ExactDouble
            }
        },
        None => InvalidMode::ExactDouble,
    }
}

/// An inclusive range of IDs.
#[derive(Debug, Clone, Copy, PartialEq, Eq, Structural)]
pub struct Range {
    pub start: u64,
    pub end: u64,
}

/// What a part `"a-b"` reads as: the text is trimmed and cut at its first
/// `'-'`, and both sides, trimmed, must read as `u64`.
pub open spec fn range_of(part: Seq<u8>) -> Option<Range> {
    let t = trim(part);
    if has_byte(t, 45u8) {
        let i = first_index(t, 45u8);
        let a = unsigned_of(trim(t.subrange(0, i)), u64::MAX as nat);
        let b = unsigned_of(trim(t.subrange(i + 1, t.len() as int)), u64::MAX as nat);
        if a is Some && b is Some {
            Some(Range { start: a->0 as u64, end: b->0 as u64 })
        } else {
            None
        }
    } else {
        None
    }
}

/// Reads a range from the bytes of a part.
pub fn range_from_bytes(part: &[u8]) -> (r: Option<Range>)
    ensures
        r == range_of(part@),
{
    let t = trim_bytes(part);
    let n = t.len();
    let i = find_byte(t.as_slice(), 45u8);
    if i == n {
        return None;
    }
    let left = trim_bytes(crate::text::copy_range(t.as_slice(), 0, i).as_slice());
    let right = trim_bytes(crate::text::copy_range(t.as_slice(), i + 1, n).as_slice());
    match parse_u64(left.as_slice()) {
        Some(a) => match parse_u64(right.as_slice()) {
            Some(b) => Some(Range { start: a, end: b }),
            None => None,
        },
        None => None,
    }
}

/// Parses a range `"start-end"`; `None` where the text is not one.
pub fn parse_range(part: &str) -> (r: Option<Range>)
    ensures
        r == range_of(part.spec_bytes()),
{
    range_from_bytes(part.as_bytes())
}

/// `s` is one pattern written exactly twice.
pub open spec fn is_double(s: Seq<u8>) -> bool {
    s.len() % 2 == 0 && s.subrange(0, (s.len() / 2) as int) == s.subrange((s.len() / 2) as int, s.len() as int)
}

/// `s` is its first `k` bytes written over and over, whole.
pub open spec fn repeats_with(s: Seq<u8>, k: int) -> bool {
    &&& 1 <= k
    &&& (s.len() as int) % k == 0
    &&& forall|i: int| 0 <= i < s.len() ==> #[trigger] s[i] == s[i % k]
}

/// `s` is one pattern written at least twice.
pub open spec fn is_repeated(s: Seq<u8>) -> bool {
    exists|k: int| 1 <= k <= s.len() / 2 && #[trigger] repeats_with(s, k)
}

/// Whether `s` is exactly two equal halves.
pub fn is_repeating_pattern(s: &[u8]) -> (r: bool)
    ensures
        r == is_double(s@),
{
    let n = s.len();
    if n % 2 != 0 {
        return false;
    }
    let mid = n / 2;
    let mut i: usize = 0;
    while i < mid
        invariant
            mid == n / 2,
            n == s@.len(),
            n % 2 == 0,
            i <= mid,
            forall|j: int| 0 <= j < i ==> #[trigger] s@[j] == s@[mid + j],
        decreases mid - i,
    {
        if s[i] != s[mid + i] {
            proof {
                assert(s@.subrange(0, mid as int)[i as int] != s@.subrange(mid as int, n as int)[i as int]);
            }
            return false;
        }
        i = i + 1;
    }
    proof {
        assert(s@.subrange(0, mid as int) =~= s@.subrange(mid as int, n as int));
    }
    true
}

/// Whether every byte of `s` equals the byte `size` places before it, down
/// to the first `size` bytes.
fn matches_first_chunk(s: &[u8], size: usize) -> (r: bool)
    requires
        1 <= size <= s@.len(),
    ensures
        r == forall|j: int| 0 <= j < s@.len() ==> #[trigger] s@[j] == s@[j % (size as int)],
{
    let len = s.len();
    let mut i: usize = 0;
    while i < len
        invariant
            len == s@.len(),
            1 <= size <= len,
            i <= len,
            forall|j: int| 0 <= j < i ==> #[trigger] s@[j] == s@[j % (size as int)],
        decreases len - i,
    {
        if s[i] != s[i % size] {
            return false;
        }
        i = i + 1;
    }
    true
}

/// Whether `s` is one pattern repeated two or more times.
pub fn is_repeating_at_least_twice(s: &[u8]) -> (r: bool)
    ensures
        r == is_repeated(s@),
{
    let len = s.len();
    let mut size: usize = 1;
    while size <= len / 2
        invariant
            len == s@.len(),
            1 <= size,
            size <= len / 2 + 1,
            forall|k: int| 1 <= k < size ==> !#[trigger] repeats_with(s@, k),
        decreases len / 2 + 1 - size,
    {
        // Every chunk of `size` bytes must match the first.
        if len % size == 0 && matches_first_chunk(s, size) {
            proof {
                assert(repeats_with(s@, size as int));
            }
            return true;
        }
        size = size + 1;
    }
    false
}

/// Whether `n` is an invalid ID in `mode`.
pub open spec fn invalid(n: nat, mode: InvalidMode) -> bool {
    match mode {
        InvalidMode::ExactDouble => is_double(decimal(n)),
        InvalidMode::AtLeastDouble => is_repeated(decimal(n)),
    }
}

/// Whether `n` is an invalid ID in `mode`.
pub fn is_invalid(n: u64, mode: InvalidMode) -> (r: bool)
    ensures
        r == invalid(n as nat, mode),
{
    let s = decimal_digits(n);
    match mode {
        InvalidMode::ExactDouble => is_repeating_pattern(s.as_slice()),
        InvalidMode::AtLeastDouble => is_repeating_at_least_twice(s.as_slice()),
    }
}

/// The sum of the invalid IDs in `lo .. hi`.
pub open spec fn invalid_sum(lo: nat, hi: nat, mode: InvalidMode) -> nat
    decreases hi,
{
    if hi <= lo {
        0
    } else {
        invalid_sum(lo, (hi - 1) as nat, mode) + if invalid((hi - 1) as nat, mode) {
            (hi - 1) as nat
        } else {
            0
        }
    }
}

/// The sum of the invalid IDs of a range; an empty range (start after end)
/// adds nothing.
pub open spec fn range_total(range: Range, mode: InvalidMode) -> nat {
    if range.start > range.end {
        0
    } else {
        invalid_sum(range.start as nat, range.end as nat + 1, mode)
    }
}

/// `x`, or `u64::MAX` where it is larger.
pub open spec fn capped(x: nat) -> nat {
    if x > u64::MAX {
        u64::MAX as nat
    } else {
        x
    }
}

/// The sum of the invalid IDs of `range`, held at `u64::MAX`.
pub fn sum_invalid_in_range(range: Range, mode: InvalidMode) -> (r: u64)
    ensures
        r == capped(range_total(range, mode)),
{
    if range.start > range.end {
        return 0;
    }
    let mut n = range.start;
    let mut acc: u64 = 0;
    let mut done = false;
    while !done
        invariant
            range.start <= n <= range.end,
            !done ==> acc == capped(invalid_sum(range.start as nat, n as nat, mode)),
            done ==> acc == capped(invalid_sum(range.start as nat, range.end as nat + 1, mode)),
        decreases range.end - n, if done {
            0int
        } else {
            1int
        },
    {
        if is_invalid(n, mode) {
            acc = acc.saturating_add(n);
        }
        if n == range.end {
            done = true;
        } else {
            n = n + 1;
        }
    }
    acc
}

/// The ranges among the parts `parts`, in order; parts that do not read
/// as ranges are left out.
pub open spec fn ranges_in(parts: Seq<Seq<u8>>) -> Seq<Range>
    decreases parts.len(),
{
    if parts.len() == 0 {
        Seq::empty()
    } else {
        match range_of(parts.last()) {
            Some(r) => ranges_in(parts.drop_last()).push(r),
            None => ranges_in(parts.drop_last()),
        }
    }
}

/// The ranges of a line: its comma-separated parts that read as ranges.
pub open spec fn ranges_of(line: Seq<u8>) -> Seq<Range> {
    ranges_in(pieces(line, 44u8))
}

/// The ranges of a comma-separated line, in order; parts that are empty or
/// do not read as ranges are skipped.
pub fn ranges(line: &str) -> (r: Vec<Range>)
    ensures
        r@ == ranges_of(line.spec_bytes()),
{
    let parts = split_pieces(line.as_bytes(), 44u8);
    let ghost ps = parts.deep_view();
    let mut out: Vec<Range> = Vec::new();
    let mut i: usize = 0;
    proof {
        assert(ps.subrange(0, 0) =~= Seq::<Seq<u8>>::empty());
    }
    while i < parts.len()
        invariant
            i <= parts@.len(),
            ps == parts.deep_view(),
            out@ == ranges_in(ps.subrange(0, i as int)),
        decreases parts@.len() - i,
    {
        proof {
            assert(parts@[i as int]@ =~= ps[i as int]);
            assert(ps.subrange(0, i + 1).drop_last() =~= ps.subrange(0, i as int));
        }
        match range_from_bytes(parts[i].as_slice()) {
            Some(range) => out.push(range),
            None => {},
        }
        i = i + 1;
    }
    proof {
        assert(ps.subrange(0, parts@.len() as int) =~= ps);
    }
    out
}

/// The invalid IDs of all the ranges `rs`.
pub open spec fn ranges_total(rs: Seq<Range>, mode: InvalidMode) -> nat
    decreases rs.len(),
{
    if rs.len() == 0 {
        0
    } else {
        ranges_total(rs.drop_last(), mode) + range_total(rs.last(), mode)
    }
}

pub open spec fn lines_total(lines: Seq<&str>, mode: InvalidMode) -> nat
    decreases lines.len(),
{
    if lines.len() == 0 {
        0
    } else {
        lines_total(lines.drop_last(), mode) + ranges_total(ranges_of(lines.last().spec_bytes()), mode)
    }
}

/// The sum of the invalid IDs of every range on every line, held at
/// `u64::MAX`. Parts that are not ranges are skipped.
pub fn sum_of_invalid_ids(lines: &[&str], mode: InvalidMode) -> (r: u64)
    ensures
        r == capped(lines_total(lines@, mode)),
{
    let mut sum: u64 = 0;
    let mut k: usize = 0;
    while k < lines.len()
        invariant
            k <= lines@.len(),
            sum == capped(lines_total(lines@.subrange(0, k as int), mode)),
        decreases lines@.len() - k,
    {
        let line: &str = lines[k];
        let rs = ranges(line);
        let ghost before = lines_total(lines@.subrange(0, k as int), mode);
        let mut i: usize = 0;
        proof {
            assert(rs@.subrange(0, 0) =~= Seq::<Range>::empty());
        }
        while i < rs.len()
            invariant
                i <= rs@.len(),
                sum == capped(before + ranges_total(rs@.subrange(0, i as int), mode)),
            decreases rs@.len() - i,
        {
            proof {
                assert(rs@.subrange(0, i + 1).drop_last() =~= rs@.subrange(0, i as int));
            }
            sum = sum.saturating_add(sum_invalid_in_range(rs[i], mode));
            i = i + 1;
        }
        proof {
            assert(rs@.subrange(0, rs@.len() as int) =~= rs@);
            assert(lines@.subrange(0, k + 1).drop_last() =~= lines@.subrange(0, k as int));
        }
        k = k + 1;
    }
    proof {
        assert(lines@.subrange(0, lines@.len() as int) =~= lines@);
    }
    sum
}

} // verus!
