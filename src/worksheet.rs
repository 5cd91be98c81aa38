//! A math worksheet: rows of numbers over a row of operators (`+` or `*`),
//! each problem combining the numbers above its operator.
use crate::numbers::{digits_value, is_digit};
use crate::text::{is_space, lines_of, non_blank, non_empty_lines, trim_start};
use vstd::prelude::*;
use vstd::string::StringSliceAdditionalSpecFns;

verus! {

/// The first byte of each word of `s` (words being separated by ASCII white
/// space).
pub open spec fn heads(s: Seq<u8>) -> Seq<u8>
    decreases s.len(),
{
    if s.len() == 0 {
        Seq::empty()
    } else {
        let h = heads(s.drop_last());
        if !is_space(s.last()) && (s.len() == 1 || is_space(s[s.len() - 2])) {
            h.push(s.last())
        } else {
            h
        }
    }
}

/// The operator of each word of the operator row: its first byte.
pub fn parse_ops_tokens(line: &[u8]) -> (r: Vec<u8>)
    ensures
        r@ == heads(line@),
{
    let mut out: Vec<u8> = Vec::new();
    let n = line.len();
    let mut i: usize = 0;
    proof {
        assert(line@.subrange(0, 0) =~= Seq::<u8>::empty());
    }
    while i < n
        invariant
            i <= n == line@.len(),
            out@ == heads(line@.subrange(0, i as int)),
        decreases n - i,
    {
        let b = line[i];
        let space = b == 32u8 || (9u8 <= b && b <= 13u8);
        let prev_space = i == 0 || (line[i - 1] == 32u8 || (9u8 <= line[i - 1] && line[i - 1] <= 13u8));
        proof {
            assert(line@.subrange(0, i + 1).drop_last() =~= line@.subrange(0, i as int));
        }
        if !space && prev_space {
            out.push(b);
        }
        i = i + 1;
    }
    proof {
        assert(line@.subrange(0, n as int) =~= line@);
    }
    out
}

/// The values of the maximal runs of decimal digits in `s`, in order.
pub open spec fn run_values(s: Seq<u8>) -> Seq<nat>
    decreases s.len(),
{
    if s.len() == 0 {
        Seq::empty()
    } else {
        let r = run_values(s.drop_last());
        let d = (s.last() - 48) as nat;
        if !is_digit(s.last()) {
            r
        } else if s.len() >= 2 && is_digit(s[s.len() - 2]) {
            r.update(r.len() - 1, r.last() * 10 + d)
        } else {
            r.push(d)
        }
    }
}

/// The first byte of `s` that is not white space is not a digit.
pub open spec fn leads_with_other(s: Seq<u8>) -> bool {
    trim_start(s).len() > 0 && !is_digit(trim_start(s)[0])
}

/// What the number scanner reads from `s`: every run of digits, with a zero
/// first where the first byte that is not white space is not a digit.
pub open spec fn scanned(s: Seq<u8>) -> Seq<nat> {
    if leads_with_other(s) {
        seq![0nat] + run_values(s)
    } else {
        run_values(s)
    }
}

/// No run of digits in any prefix of `s` spells a value past `u128::MAX`.
pub open spec fn runs_fit(s: Seq<u8>) -> bool {
    forall|i: int, k: int|
        0 <= i <= s.len() && 0 <= k < run_values(s.subrange(0, i)).len() ==> #[trigger] run_values(
            s.subrange(0, i),
        )[k] <= u128::MAX
}

pub open spec fn as_nats(v: Seq<u128>) -> Seq<nat> {
    Seq::new(v.len(), |i: int| v[i] as nat)
}

proof fn lemma_run_values_len(s: Seq<u8>)
    ensures
        s.len() > 0 && is_digit(s.last()) ==> run_values(s).len() > 0,
    decreases s.len(),
{
    if s.len() > 1 {
        lemma_run_values_len(s.drop_last());
    }
}

proof fn lemma_trim_start_step(s: Seq<u8>, i: int)
    requires
        0 <= i < s.len(),
        forall|j: int| 0 <= j < i ==> is_space(#[trigger] s[j]),
    ensures
        trim_start(s) == trim_start(s.subrange(i, s.len() as int)),
    decreases i,
{
    if i > 0 {
        assert(s.subrange(1, s.len() as int).subrange(i - 1, s.len() - 1) =~= s.subrange(i, s.len() as int));
        lemma_trim_start_step(s.subrange(1, s.len() as int), i - 1);
    } else {
        assert(s.subrange(0, s.len() as int) =~= s);
    }
}

/// The first byte of `s` that is not white space, where there is one.
proof fn lemma_leading(s: Seq<u8>, i: int)
    requires
        0 <= i < s.len(),
        forall|j: int| 0 <= j < i ==> is_space(#[trigger] s[j]),
        !is_space(s[i]),
    ensures
        trim_start(s).len() > 0,
        trim_start(s)[0] == s[i],
{
    lemma_trim_start_step(s, i);
}

proof fn lemma_all_space(s: Seq<u8>)
    requires
        forall|j: int| 0 <= j < s.len() ==> is_space(#[trigger] s[j]),
    ensures
        trim_start(s).len() == 0,
    decreases s.len(),
{
    if s.len() > 0 {
        lemma_all_space(s.subrange(1, s.len() as int));
    }
}

proof fn lemma_runs_step(s: Seq<u8>, i: int)
    requires
        0 <= i < s.len(),
    ensures
        ({
            let pre = s.subrange(0, i);
            let post = s.subrange(0, i + 1);
            let d = (s[i] - 48) as nat;
            if !is_digit(s[i]) {
                run_values(post) == run_values(pre)
            } else if i > 0 && is_digit(s[i - 1]) {
                run_values(pre).len() > 0 && run_values(post) == run_values(pre).update(
                    run_values(pre).len() - 1,
                    run_values(pre).last() * 10 + d,
                )
            } else {
                run_values(post) == run_values(pre).push(d)
            }
        }),
{
    let pre = s.subrange(0, i);
    let post = s.subrange(0, i + 1);
    assert(post.drop_last() =~= pre);
    if i > 0 {
        lemma_run_values_len(pre);
    }
}

/// Reads every unsigned number of `bytes` into `out` (replacing what it
/// held): skip white space, read digits, skip to the next digit.
pub fn parse_u128_ws(bytes: &[u8], out: &mut Vec<u128>)
    requires
        runs_fit(bytes@),
    ensures
        as_nats(final(out)@) == scanned(bytes@),
{
    scan_u128(bytes, out);
}

/// Reads the numbers of `bytes` as `parse_u128_ws` does, and says whether
/// every number fitted in `u128`.
fn scan_u128(bytes: &[u8], out: &mut Vec<u128>) -> (ok: bool)
    ensures
        ok == runs_fit(bytes@),
        ok ==> as_nats(final(out)@) == scanned(bytes@),
{
    out.clear();
    let n = bytes.len();
    let mut in_run = false;
    let mut v: u128 = 0;
    let mut seen = false;
    let ghost mut first: int = 0;
    let mut i: usize = 0;
    proof {
        assert(bytes@.subrange(0, 0) =~= Seq::<u8>::empty());
        assert(as_nats(out@) =~= Seq::<nat>::empty());
    }
    while i < n
        invariant
            i <= n == bytes@.len(),
            forall|a: int, k: int|
                0 <= a <= i && 0 <= k < run_values(bytes@.subrange(0, a)).len() ==> #[trigger] run_values(
                    bytes@.subrange(0, a),
                )[k] <= u128::MAX,
            in_run == (i > 0 && is_digit(bytes@[i - 1])),
            seen ==> 0 <= first < i && !is_space(bytes@[first]) && forall|j: int|
                0 <= j < first ==> is_space(#[trigger] bytes@[j]),
            !seen ==> forall|j: int| 0 <= j < i ==> is_space(#[trigger] bytes@[j]),
            ({
                let pre = bytes@.subrange(0, i as int);
                let lead = if seen && !is_digit(bytes@[first]) {
                    seq![0nat]
                } else {
                    Seq::<nat>::empty()
                };
                &&& in_run ==> run_values(pre).len() > 0 && run_values(pre).last() == v
                &&& if in_run {
                    lead + run_values(pre).drop_last() == as_nats(out@)
                } else {
                    lead + run_values(pre) == as_nats(out@)
                }
            }),
        decreases n - i,
    {
        let b = bytes[i];
        let ghost pre = bytes@.subrange(0, i as int);
        let ghost post = bytes@.subrange(0, i + 1);
        let ghost old_out = as_nats(out@);
        proof {
            lemma_runs_step(bytes@, i as int);
        }
        if !seen && !(b == 32u8 || (9u8 <= b && b <= 13u8)) {
            seen = true;
            proof {
                first = i as int;
                assert(forall|j: int| 0 <= j < i ==> !is_digit(#[trigger] pre[j]));
                lemma_no_runs(pre);
            }
            if !(48u8 <= b && b <= 57u8) {
                out.push(0);
                proof {
                    assert(as_nats(out@) =~= seq![0nat]);
                }
            }
        }
        let ghost mid_out = as_nats(out@);
        if 48u8 <= b && b <= 57u8 {
            proof {
                lemma_run_values_len(post);
            }
            if in_run {
                let grown = match v.checked_mul(10) {
                    Some(m) => m.checked_add((b - 48u8) as u128),
                    None => None,
                };
                match grown {
                    Some(t) => {
                        v = t;
                    },
                    None => {
                        proof {
                            let rv = run_values(bytes@.subrange(0, i + 1));
                            assert(rv[rv.len() - 1] > u128::MAX);
                        }
                        return false;
                    },
                }
                proof {
                    assert(run_values(post).drop_last() =~= run_values(pre).drop_last());
                }
            } else {
                in_run = true;
                v = (b - 48u8) as u128;
                proof {
                    assert(run_values(post).drop_last() =~= run_values(pre));
                }
            }
        } else if in_run {
            out.push(v);
            in_run = false;
            proof {
                assert(as_nats(out@) =~= mid_out.push(v as nat));
                assert(run_values(pre) =~= run_values(pre).drop_last().push(run_values(pre).last()));
            }
        }
        i = i + 1;
        proof {
            assert(bytes@.subrange(0, i as int) == post);
        }
    }
    let ghost before = as_nats(out@);
    if in_run {
        out.push(v);
        proof {
            let rv = run_values(bytes@.subrange(0, n as int));
            assert(as_nats(out@) =~= before.push(v as nat));
            assert(rv =~= rv.drop_last().push(rv.last()));
        }
    }
    proof {
        assert(bytes@.subrange(0, n as int) =~= bytes@);
        if seen {
            lemma_leading(bytes@, first);
        } else {
            lemma_all_space(bytes@);
        }
        let lead = if seen && !is_digit(bytes@[first]) {
            seq![0nat]
        } else {
            Seq::<nat>::empty()
        };
        assert(as_nats(out@) =~= lead + run_values(bytes@));
        assert forall|a: int, k: int|
            0 <= a <= bytes@.len() && 0 <= k < run_values(bytes@.subrange(0, a)).len() implies #[trigger] run_values(
                bytes@.subrange(0, a),
            )[k] <= u128::MAX by {}
    }
    true
}

proof fn lemma_no_runs(s: Seq<u8>)
    requires
        forall|j: int| 0 <= j < s.len() ==> !is_digit(#[trigger] s[j]),
    ensures
        run_values(s).len() == 0,
    decreases s.len(),
{
    if s.len() > 0 {
        lemma_no_runs(s.drop_last());
    }
}

/// The lines of a worksheet: those that are not blank.
pub open spec fn sheet_lines(s: Seq<u8>) -> Seq<Seq<u8>> {
    non_blank(lines_of(s))
}

pub open spec fn is_plus(op: u8) -> bool {
    op == 43u8
}

/// Column `i` folded over the first `m` number rows: a sum for `'+'`, a
/// product for any other operator.
pub open spec fn column_value(ops: Seq<u8>, rows: Seq<Seq<u8>>, i: int, m: nat) -> nat
    decreases m,
{
    if m == 0 {
        if is_plus(ops[i]) {
            0
        } else {
            1
        }
    } else {
        let a = column_value(ops, rows, i, (m - 1) as nat);
        let x = scanned(rows[m - 1])[i];
        if is_plus(ops[i]) {
            a + x
        } else {
            a * x
        }
    }
}

/// The results of the first `k` columns, added up.
pub open spec fn columns_sum(ops: Seq<u8>, rows: Seq<Seq<u8>>, k: nat) -> nat
    decreases k,
{
    if k == 0 {
        0
    } else {
        columns_sum(ops, rows, (k - 1) as nat) + column_value(ops, rows, k - 1, rows.len())
    }
}

/// The grand total of a worksheet read row by row.
pub open spec fn sheet_total(s: Seq<u8>) -> nat {
    let ls = sheet_lines(s);
    columns_sum(heads(ls.last()), ls.drop_last(), heads(ls.last()).len())
}

/// A worksheet whose rows can be read: an operator row with one operator
/// at least, one number for each operator on every other row, and no
/// number, partial result or total past `u128::MAX`.
pub open spec fn sheet_ok(s: Seq<u8>) -> bool {
    let ls = sheet_lines(s);
    let ops = heads(ls.last());
    let rows = ls.drop_last();
    &&& ls.len() >= 1
    &&& ops.len() >= 1
    &&& forall|r: int| 0 <= r < rows.len() ==> runs_fit(#[trigger] rows[r]) && scanned(rows[r]).len() == ops.len()
    &&& forall|i: int, m: nat| 0 <= i < ops.len() && m <= rows.len() ==> #[trigger] column_value(ops, rows, i, m) <= u128::MAX
    &&& forall|k: nat| k <= ops.len() ==> #[trigger] columns_sum(ops, rows, k) <= u128::MAX
}

/// The grand total: each column of numbers combined by the operator under
/// it, and the results added up.
pub fn process_input_part1(input: &str) -> (r: u128)
    requires
        sheet_ok(input.spec_bytes()),
    ensures
        r == sheet_total(input.spec_bytes()),
{
    match try_process_input_part1(input) {
        Some(total) => total,
        None => 0,
    }
}

/// The grand total where the worksheet reads (`sheet_ok`), else `None`.
pub fn try_process_input_part1(input: &str) -> (r: Option<u128>)
    ensures
        r == (if sheet_ok(input.spec_bytes()) {
            Some(sheet_total(input.spec_bytes()) as u128)
        } else {
            None
        }),
{
    let ghost ls = sheet_lines(input.spec_bytes());
    let mut lines = non_empty_lines(input);
    if lines.len() == 0 {
        return None;
    }
    let op_line = lines.pop().unwrap();
    proof {
        assert(op_line@ =~= ls.last());
        assert(lines.deep_view() =~= ls.drop_last());
    }
    let ghost rows = ls.drop_last();
    let ops = parse_ops_tokens(op_line.as_slice());
    let cols = ops.len();
    if cols == 0 {
        return None;
    }
    let mut acc: Vec<u128> = Vec::new();
    let mut i: usize = 0;
    while i < cols
        invariant
            i <= cols == ops@.len(),
            acc@.len() == i,
            forall|j: int| 0 <= j < i ==> acc@[j] == column_value(ops@, rows, j, 0),
        decreases cols - i,
    {
        acc.push(if ops[i] == 43u8 {
            0
        } else {
            1
        });
        i = i + 1;
    }
    let mut tmp_nums: Vec<u128> = Vec::new();
    let mut r: usize = 0;
    while r < lines.len()
        invariant
            ls == sheet_lines(input.spec_bytes()),
            ls.len() >= 1,
            rows == ls.drop_last(),
            ops@ == heads(ls.last()),
            lines.deep_view() == rows,
            cols == ops@.len(),
            cols >= 1,
            acc@.len() == cols,
            r <= lines@.len(),
            forall|j: int| 0 <= j < cols ==> acc@[j] == column_value(ops@, rows, j, r as nat),
            forall|q: int| 0 <= q < r ==> runs_fit(#[trigger] rows[q]) && scanned(rows[q]).len() == cols,
            forall|j: int, m: nat| 0 <= j < cols && m <= r ==> #[trigger] column_value(ops@, rows, j, m) <= u128::MAX,
        decreases lines@.len() - r,
    {
        proof {
            assert(lines@[r as int]@ =~= rows[r as int]);
        }
        if !scan_u128(lines[r].as_slice(), &mut tmp_nums) {
            return None;
        }
        if tmp_nums.len() != cols {
            proof {
                assert(tmp_nums@.len() == as_nats(tmp_nums@).len());
            }
            return None;
        }
        let mut i: usize = 0;
        while i < cols
            invariant
                ls == sheet_lines(input.spec_bytes()),
                ls.len() >= 1,
                rows == ls.drop_last(),
                ops@ == heads(ls.last()),
                r < rows.len(),
                as_nats(tmp_nums@) == scanned(rows[r as int]),
                tmp_nums@.len() == cols,
                cols == ops@.len(),
                acc@.len() == cols,
                i <= cols,
                forall|j: int| 0 <= j < i ==> acc@[j] == column_value(ops@, rows, j, (r + 1) as nat),
                forall|j: int| i <= j < cols ==> acc@[j] == column_value(ops@, rows, j, r as nat),
            decreases cols - i,
        {
            let v = tmp_nums[i];
            proof {
                assert(v as nat == scanned(rows[r as int])[i as int]);
            }
            let next = if ops[i] == 43u8 {
                acc[i].checked_add(v)
            } else {
                acc[i].checked_mul(v)
            };
            match next {
                Some(x) => {
                    acc[i] = x;
                },
                None => {
                    proof {
                        assert(column_value(ops@, rows, i as int, (r + 1) as nat) > u128::MAX);
                    }
                    return None;
                },
            }
            i = i + 1;
        }
        proof {
            assert forall|j: int, m: nat| 0 <= j < cols && m <= r + 1 implies #[trigger] column_value(ops@, rows, j, m) <= u128::MAX by {
                if m == r + 1 {
                    assert(acc@[j] == column_value(ops@, rows, j, m));
                }
            }
        }
        r = r + 1;
    }
    let mut total: u128 = 0;
    let mut i: usize = 0;
    while i < cols
        invariant
            ls == sheet_lines(input.spec_bytes()),
            ls.len() >= 1,
            rows == ls.drop_last(),
            ops@ == heads(ls.last()),
            lines@.len() == rows.len(),
            cols == ops@.len(),
            acc@.len() == cols,
            i <= cols,
            forall|j: int| 0 <= j < cols ==> acc@[j] == column_value(ops@, rows, j, rows.len()),
            total == columns_sum(ops@, rows, i as nat),
            forall|k: nat| k <= i ==> #[trigger] columns_sum(ops@, rows, k) <= u128::MAX,
        decreases cols - i,
    {
        match total.checked_add(acc[i]) {
            Some(t) => {
                total = t;
            },
            None => {
                proof {
                    assert(columns_sum(ops@, rows, (i + 1) as nat) > u128::MAX);
                }
                return None;
            },
        }
        i = i + 1;
    }
    proof {
        assert(sheet_ok(input.spec_bytes()));
    }
    Some(total)
}

/// The maximal runs of columns that are not separators, as `(start, end)`
/// with `end` exclusive, left to right.
pub open spec fn blocks(seps: Seq<bool>) -> Seq<(int, int)>
    decreases seps.len(),
{
    if seps.len() == 0 {
        Seq::empty()
    } else {
        let b = blocks(seps.drop_last());
        let n = seps.len() as int;
        if seps.last() {
            b
        } else if n >= 2 && !seps[n - 2] {
            b.update(b.len() - 1, (b.last().0, n))
        } else {
            b.push((n - 1, n))
        }
    }
}

pub open spec fn pairs_view(v: Seq<(usize, usize)>) -> Seq<(int, int)> {
    Seq::new(v.len(), |i: int| (v[i].0 as int, v[i].1 as int))
}

proof fn lemma_blocks_nonempty(seps: Seq<bool>)
    requires
        seps.len() > 0,
        !seps.last(),
    ensures
        blocks(seps).len() > 0,
    decreases seps.len(),
{
    let n = seps.len() as int;
    if n >= 2 && !seps[n - 2] {
        assert(seps.drop_last().last() == seps[n - 2]);
        lemma_blocks_nonempty(seps.drop_last());
    }
}

proof fn lemma_blocks_step(seps: Seq<bool>, c: int)
    requires
        0 <= c < seps.len(),
    ensures
        ({
            let pre = blocks(seps.subrange(0, c));
            let post = blocks(seps.subrange(0, c + 1));
            if seps[c] {
                post == pre
            } else if c >= 1 && !seps[c - 1] {
                pre.len() > 0 && post == pre.update(pre.len() - 1, (pre.last().0, c + 1))
            } else {
                post == pre.push((c, c + 1))
            }
        }),
{
    let pre_s = seps.subrange(0, c);
    assert(seps.subrange(0, c + 1).drop_last() =~= pre_s);
    if c >= 1 && !seps[c - 1] {
        assert(pre_s.drop_last() =~= seps.subrange(0, c - 1));
        assert(pre_s.last() == seps[c - 1]);
        lemma_blocks_nonempty(pre_s);
    }
}

/// Splits the columns `0 .. width` into the maximal runs of columns that are
/// not separators (`seps[c]` says whether column `c` is one).
pub fn split_blocks(width: usize, seps: &[bool]) -> (r: Vec<(usize, usize)>)
    requires
        seps@.len() == width,
    ensures
        pairs_view(r@) == blocks(seps@),
{
    let mut out: Vec<(usize, usize)> = Vec::new();
    let mut c: usize = 0;
    proof {
        assert(seps@.subrange(0, 0) =~= Seq::<bool>::empty());
        assert(pairs_view(out@) =~= blocks(seps@.subrange(0, 0)));
    }
    while c < width
        invariant
            c <= width == seps@.len(),
            pairs_view(out@) == blocks(seps@.subrange(0, c as int)),
            c > 0 && !seps@[c - 1] ==> out@.len() > 0 && out@.last().1 == c,
        decreases width - c,
    {
        proof {
            lemma_blocks_step(seps@, c as int);
        }
        let ghost before = out@;
        if !seps[c] {
            if c > 0 && !seps[c - 1] {
                let n = out.len();
                let start = out[n - 1].0;
                out[n - 1] = (start, c + 1);
                proof {
                    assert(pairs_view(out@) =~= pairs_view(before).update(
                        before.len() - 1,
                        (pairs_view(before).last().0, c + 1),
                    ));
                }
            } else {
                out.push((c, c + 1));
                proof {
                    assert(pairs_view(out@) =~= pairs_view(before).push((c as int, c + 1)));
                }
            }
        }
        c = c + 1;
    }
    proof {
        assert(seps@.subrange(0, width as int) =~= seps@);
    }
    out
}

/// The byte at column `c` of a line, a space past its end.
pub open spec fn cell(l: Seq<u8>, c: int) -> u8 {
    if 0 <= c < l.len() {
        l[c]
    } else {
        32u8
    }
}

/// The length of the longest line.
pub open spec fn sheet_width(ls: Seq<Seq<u8>>) -> nat
    decreases ls.len(),
{
    if ls.len() == 0 {
        0
    } else {
        let w = sheet_width(ls.drop_last());
        if ls.last().len() > w {
            ls.last().len()
        } else {
            w
        }
    }
}

/// Column `c` is blank on every line.
pub open spec fn is_sep_col(ls: Seq<Seq<u8>>, c: int) -> bool {
    forall|r: int| 0 <= r < ls.len() ==> cell(#[trigger] ls[r], c) == 32u8
}

pub open spec fn sep_flags(ls: Seq<Seq<u8>>) -> Seq<bool> {
    Seq::new(sheet_width(ls), |c: int| is_sep_col(ls, c))
}

pub open spec fn is_op(b: u8) -> bool {
    b == 43u8 || b == 42u8
}

/// The first operator among the columns `a .. b` of the operator line, or
/// zero where there is none.
pub open spec fn op_from(op_line: Seq<u8>, a: int, b: int) -> u8
    decreases b - a,
{
    if a >= b {
        0
    } else if is_op(cell(op_line, a)) {
        cell(op_line, a)
    } else {
        op_from(op_line, a + 1, b)
    }
}

/// The digits of column `c` in the first `m` rows, top to bottom.
pub open spec fn col_digits(rows: Seq<Seq<u8>>, c: int, m: nat) -> Seq<u8>
    decreases m,
{
    if m == 0 {
        Seq::empty()
    } else {
        let d = col_digits(rows, c, (m - 1) as nat);
        if is_digit(cell(rows[m - 1], c)) {
            d.push(cell(rows[m - 1], c))
        } else {
            d
        }
    }
}

/// A block's columns `a .. c` combined by `op`: each column that holds a
/// digit is one number, read top to bottom.
pub open spec fn block_value(rows: Seq<Seq<u8>>, op: u8, a: int, c: int) -> nat
    decreases c - a,
{
    if c <= a {
        if op == 43u8 {
            0
        } else {
            1
        }
    } else {
        let acc = block_value(rows, op, a, c - 1);
        let ds = col_digits(rows, c - 1, rows.len());
        if ds.len() == 0 {
            acc
        } else if op == 43u8 {
            acc + digits_value(ds)
        } else {
            acc * digits_value(ds)
        }
    }
}

/// The results of the first `k` blocks, added up.
pub open spec fn blocks_sum(ls: Seq<Seq<u8>>, k: nat) -> nat
    decreases k,
{
    if k == 0 {
        0
    } else {
        let bl = blocks(sep_flags(ls))[k - 1];
        blocks_sum(ls, (k - 1) as nat) + block_value(ls.drop_last(), op_from(ls.last(), bl.0, bl.1), bl.0, bl.1)
    }
}

/// The grand total of a worksheet read column by column.
pub open spec fn sheet_total_by_columns(s: Seq<u8>) -> nat {
    let ls = sheet_lines(s);
    blocks_sum(ls, blocks(sep_flags(ls)).len())
}

/// A worksheet that reads column by column: a number row at least over
/// the operator row, an operator in every block, and no number, partial
/// result or total past `u128::MAX`.
pub open spec fn columns_ok(s: Seq<u8>) -> bool {
    let ls = sheet_lines(s);
    let rows = ls.drop_last();
    let bs = blocks(sep_flags(ls));
    &&& ls.len() >= 2
    &&& forall|i: int| 0 <= i < bs.len() ==> is_op(op_from(ls.last(), (#[trigger] bs[i]).0, bs[i].1))
    &&& forall|i: int, c: int, m: nat|
        #![trigger bs[i], col_digits(rows, c, m)]
        0 <= i < bs.len() && bs[i].0 <= c < bs[i].1 && m <= rows.len() ==> digits_value(
            col_digits(rows, c, m),
        ) <= u128::MAX
    &&& forall|i: int, c: int|
        0 <= i < bs.len() && bs[i].0 <= c <= bs[i].1 ==> #[trigger] block_value(
            rows,
            op_from(ls.last(), bs[i].0, bs[i].1),
            bs[i].0,
            c,
        ) <= u128::MAX
    &&& forall|k: nat| k <= bs.len() ==> #[trigger] blocks_sum(ls, k) <= u128::MAX
}

proof fn lemma_width(ls: Seq<Seq<u8>>)
    ensures
        forall|r: int| 0 <= r < ls.len() ==> (#[trigger] ls[r]).len() <= sheet_width(ls),
        ls.len() > 0 ==> exists|r: int| 0 <= r < ls.len() && (#[trigger] ls[r]).len() == sheet_width(ls),
    decreases ls.len(),
{
    if ls.len() > 0 {
        lemma_width(ls.drop_last());
        assert forall|r: int| 0 <= r < ls.len() implies (#[trigger] ls[r]).len() <= sheet_width(ls) by {
            if r < ls.len() - 1 {
                assert(ls[r] == ls.drop_last()[r]);
            }
        }
        if ls.len() > 1 && sheet_width(ls.drop_last()) >= ls.last().len() {
            let r = choose|r: int| 0 <= r < ls.drop_last().len() && (#[trigger] ls.drop_last()[r]).len() == sheet_width(ls.drop_last());
            assert(ls[r] == ls.drop_last()[r]);
        } else {
            assert(ls[ls.len() - 1] == ls.last());
        }
    }
}

/// `line` padded with spaces to `width` bytes.
fn pad_to_width(line: &Vec<u8>, width: usize) -> (r: Vec<u8>)
    requires
        line@.len() <= width,
    ensures
        r@.len() == width,
        forall|c: int| 0 <= c < width ==> r@[c] == cell(line@, c),
{
    let mut v: Vec<u8> = Vec::new();
    let mut c: usize = 0;
    while c < width
        invariant
            c <= width,
            line@.len() <= width,
            v@.len() == c,
            forall|j: int| 0 <= j < c ==> v@[j] == cell(line@, j),
        decreases width - c,
    {
        if c < line.len() {
            v.push(line[c]);
        } else {
            v.push(32u8);
        }
        c = c + 1;
    }
    v
}

proof fn lemma_blocks_bounds(seps: Seq<bool>)
    ensures
        forall|i: int|
            0 <= i < blocks(seps).len() ==> 0 <= (#[trigger] blocks(seps)[i]).0 < blocks(seps)[i].1
                <= seps.len(),
    decreases seps.len(),
{
    if seps.len() > 0 {
        let pre = seps.drop_last();
        lemma_blocks_bounds(pre);
        let n = seps.len() as int;
        let b = blocks(pre);
        if !seps.last() && n >= 2 && !seps[n - 2] {
            assert(pre.last() == seps[n - 2]);
            lemma_blocks_nonempty(pre);
            assert(blocks(seps) == b.update(b.len() - 1, (b.last().0, n)));
            assert forall|i: int| 0 <= i < blocks(seps).len() implies 0 <= (#[trigger] blocks(seps)[i]).0
                < blocks(seps)[i].1 <= seps.len() by {
                assert(b[b.len() - 1] == b.last());
            }
        } else if !seps.last() {
            assert(blocks(seps) == b.push((n - 1, n)));
            assert forall|i: int| 0 <= i < blocks(seps).len() implies 0 <= (#[trigger] blocks(seps)[i]).0
                < blocks(seps)[i].1 <= seps.len() by {
                if i < b.len() {
                    assert(blocks(seps)[i] == b[i]);
                }
            }
        }
    }
}

/// The grand total read the other way: blocks of columns between blank
/// columns are problems; in each, every column that holds digits is one
/// number read top to bottom, combined by the block's operator.
pub fn process_input_part2(input: &str) -> (r: u128)
    requires
        columns_ok(input.spec_bytes()),
    ensures
        r == sheet_total_by_columns(input.spec_bytes()),
{
    match try_process_input_part2(input) {
        Some(total) => total,
        None => 0,
    }
}

/// The grand total read column by column where the worksheet reads so
/// (`columns_ok`), else `None`.
pub fn try_process_input_part2(input: &str) -> (r: Option<u128>)
    ensures
        r == (if columns_ok(input.spec_bytes()) {
            Some(sheet_total_by_columns(input.spec_bytes()) as u128)
        } else {
            None
        }),
{
    let ghost ls = sheet_lines(input.spec_bytes());
    let mut lines = non_empty_lines(input);
    if lines.len() < 2 {
        return None;
    }
    let op_line = lines.pop().unwrap();
    proof {
        assert(op_line@ =~= ls.last());
        assert(lines.deep_view() =~= ls.drop_last());
    }
    let num_lines = lines;
    let ghost rows = ls.drop_last();
    // The widest line sets the width; the others are padded with spaces.
    let mut width = op_line.len();
    let mut r: usize = 0;
    proof {
        assert(rows.subrange(0, 0) =~= Seq::<Seq<u8>>::empty());
    }
    while r < num_lines.len()
        invariant
            num_lines.deep_view() == rows,
            r <= rows.len(),
            width == (if op_line@.len() > sheet_width(rows.subrange(0, r as int)) {
                op_line@.len()
            } else {
                sheet_width(rows.subrange(0, r as int))
            }),
        decreases rows.len() - r,
    {
        proof {
            assert(num_lines@[r as int]@ =~= rows[r as int]);
            assert(rows.subrange(0, r + 1).drop_last() =~= rows.subrange(0, r as int));
        }
        if num_lines[r].len() > width {
            width = num_lines[r].len();
        }
        r = r + 1;
    }
    proof {
        assert(rows.subrange(0, rows.len() as int) =~= rows);
        assert(ls.drop_last() == rows);
        assert(width == sheet_width(ls));
        lemma_width(ls);
        assert(ls[ls.len() - 1] == op_line@);
    }
    let op_row = pad_to_width(&op_line, width);
    let mut padded: Vec<Vec<u8>> = Vec::new();
    let mut r: usize = 0;
    while r < num_lines.len()
        invariant
            num_lines.deep_view() == rows,
            ls.len() >= 1,
            rows == ls.drop_last(),
            width == sheet_width(ls),
            forall|i: int| 0 <= i < ls.len() ==> (#[trigger] ls[i]).len() <= sheet_width(ls),
            r <= rows.len(),
            padded@.len() == r,
            forall|i: int| 0 <= i < r ==> (#[trigger] padded@[i])@.len() == width,
            forall|i: int, c: int|
                0 <= i < r && 0 <= c < width ==> #[trigger] padded@[i]@[c] == cell(rows[i], c),
        decreases rows.len() - r,
    {
        proof {
            assert(num_lines@[r as int]@ =~= rows[r as int]);
            assert(ls[r as int] == rows[r as int]);
        }
        let p = pad_to_width(&num_lines[r], width);
        padded.push(p);
        r = r + 1;
    }
    // A column is a separator where every line is blank there.
    let mut seps: Vec<bool> = Vec::new();
    let mut c: usize = 0;
    while c < width
        invariant
            rows == ls.drop_last(),
            ls.last() == op_line@,
            ls.len() >= 1,
            width == sheet_width(ls),
            op_row@.len() == width,
            forall|j: int| 0 <= j < width ==> op_row@[j] == cell(op_line@, j),
            padded@.len() == rows.len(),
            forall|i: int| 0 <= i < rows.len() ==> (#[trigger] padded@[i])@.len() == width,
            forall|i: int, j: int|
                0 <= i < rows.len() && 0 <= j < width ==> #[trigger] padded@[i]@[j] == cell(rows[i], j),
            c <= width,
            seps@.len() == c,
            forall|j: int| 0 <= j < c ==> seps@[j] == is_sep_col(ls, j),
        decreases width - c,
    {
        let mut sep = op_row[c] == 32u8;
        let mut i: usize = 0;
        while i < padded.len()
            invariant
                rows == ls.drop_last(),
                padded@.len() == rows.len(),
                forall|i: int| 0 <= i < rows.len() ==> (#[trigger] padded@[i])@.len() == width,
                forall|i: int, j: int|
                    0 <= i < rows.len() && 0 <= j < width ==> #[trigger] padded@[i]@[j] == cell(rows[i], j),
                c < width,
                i <= rows.len(),
                sep == (cell(op_line@, c as int) == 32u8 && forall|k: int| 0 <= k < i ==> cell(#[trigger] rows[k], c as int) == 32u8),
            decreases rows.len() - i,
        {
            proof {
                assert(padded@[i as int]@[c as int] == cell(rows[i as int], c as int));
            }
            if padded[i][c] != 32u8 {
                sep = false;
            }
            i = i + 1;
        }
        proof {
            assert(sep == is_sep_col(ls, c as int)) by {
                if sep {
                    assert forall|k: int| 0 <= k < ls.len() implies cell(#[trigger] ls[k], c as int) == 32u8 by {
                        if k < rows.len() {
                            assert(ls[k] == rows[k]);
                        }
                    }
                } else if cell(op_line@, c as int) != 32u8 {
                    assert(cell(ls[ls.len() - 1], c as int) != 32u8);
                } else {
                    let k = choose|k: int| 0 <= k < rows.len() && cell(#[trigger] rows[k], c as int) != 32u8;
                    assert(ls[k] == rows[k]);
                }
            }
        }
        seps.push(sep);
        c = c + 1;
    }
    proof {
        assert(seps@ =~= sep_flags(ls));
        lemma_blocks_bounds(seps@);
    }
    let blocks_v = split_blocks(width, seps.as_slice());
    let ghost bs = blocks(sep_flags(ls));
    let mut total: u128 = 0;
    let mut bi: usize = 0;
    while bi < blocks_v.len()
        invariant
            ls == sheet_lines(input.spec_bytes()),
            rows == ls.drop_last(),
            ls.last() == op_line@,
            width == sheet_width(ls),
            op_row@.len() == width,
            forall|j: int| 0 <= j < width ==> op_row@[j] == cell(op_line@, j),
            padded@.len() == rows.len(),
            forall|i: int| 0 <= i < rows.len() ==> (#[trigger] padded@[i])@.len() == width,
            forall|i: int, j: int|
                0 <= i < rows.len() && 0 <= j < width ==> #[trigger] padded@[i]@[j] == cell(rows[i], j),
            pairs_view(blocks_v@) == bs,
            bs == blocks(sep_flags(ls)),
            forall|i: int| 0 <= i < bs.len() ==> 0 <= (#[trigger] bs[i]).0 < bs[i].1 <= width,
            bi <= bs.len(),
            total == blocks_sum(ls, bi as nat),
            ls.len() >= 2,
            forall|i: int| 0 <= i < bi ==> is_op(op_from(ls.last(), (#[trigger] bs[i]).0, bs[i].1)),
            forall|i: int, c: int, m: nat|
                #![trigger bs[i], col_digits(rows, c, m)]
                0 <= i < bi && bs[i].0 <= c < bs[i].1 && m <= rows.len() ==> digits_value(
                    col_digits(rows, c, m),
                ) <= u128::MAX,
            forall|i: int, c: int|
                0 <= i < bi && bs[i].0 <= c <= bs[i].1 ==> #[trigger] block_value(
                    rows,
                    op_from(ls.last(), bs[i].0, bs[i].1),
                    bs[i].0,
                    c,
                ) <= u128::MAX,
            forall|k: nat| k <= bi ==> #[trigger] blocks_sum(ls, k) <= u128::MAX,
        decreases bs.len() - bi,
    {
        let (start, end) = blocks_v[bi];
        proof {
            assert(bs[bi as int] == (start as int, end as int));
        }
        // The operator of the block.
        let mut op: u8 = 0;
        let mut c: usize = start;
        let mut found = false;
        while c < end && !found
            invariant
                start <= c <= end <= width,
                op_row@.len() == width,
                forall|j: int| 0 <= j < width ==> op_row@[j] == cell(op_line@, j),
                !found ==> op_from(op_line@, c as int, end as int) == op_from(op_line@, start as int, end as int),
                found ==> op == op_from(op_line@, start as int, end as int) && is_op(op),
                !found ==> op == 0,
            decreases end - c, if found { 0int } else { 1int },
        {
            let ch = op_row[c];
            if ch == 43u8 || ch == 42u8 {
                op = ch;
                found = true;
            } else {
                c = c + 1;
            }
        }
        proof {
            if !found {
                assert(op_from(op_line@, end as int, end as int) == 0);
            }
            assert(op == op_from(ls.last(), bs[bi as int].0, bs[bi as int].1));
        }
        if !found {
            return None;
        }
        let mut block_acc: u128 = if op == 43u8 {
            0
        } else {
            1
        };
        let mut c: usize = start;
        while c < end
            invariant
                ls == sheet_lines(input.spec_bytes()),
                ls.len() >= 2,
                rows == ls.drop_last(),
                width == sheet_width(ls),
                padded@.len() == rows.len(),
                forall|i: int| 0 <= i < rows.len() ==> (#[trigger] padded@[i])@.len() == width,
                forall|i: int, j: int|
                    0 <= i < rows.len() && 0 <= j < width ==> #[trigger] padded@[i]@[j] == cell(rows[i], j),
                bs == blocks(sep_flags(ls)),
                bi < bs.len(),
                bs[bi as int] == (start as int, end as int),
                start <= c <= end <= width,
                op == op_from(ls.last(), start as int, end as int),
                block_acc == block_value(rows, op, start as int, c as int),
                forall|c2: int, m: nat|
                    start <= c2 < c && m <= rows.len() ==> digits_value(#[trigger] col_digits(rows, c2, m))
                        <= u128::MAX,
                forall|c2: int| start <= c2 <= c ==> #[trigger] block_value(rows, op, start as int, c2) <= u128::MAX,
            decreases end - c,
        {
            // The number of this column, read top to bottom.
            let mut have_digit = false;
            let mut val: u128 = 0;
            let mut r: usize = 0;
            while r < padded.len()
                invariant
                    ls == sheet_lines(input.spec_bytes()),
                    rows == ls.drop_last(),
                    width == sheet_width(ls),
                    padded@.len() == rows.len(),
                    forall|i: int| 0 <= i < rows.len() ==> (#[trigger] padded@[i])@.len() == width,
                    forall|i: int, j: int|
                        0 <= i < rows.len() && 0 <= j < width ==> #[trigger] padded@[i]@[j] == cell(rows[i], j),
                    c < width,
                    r <= rows.len(),
                    val == digits_value(col_digits(rows, c as int, r as nat)),
                    have_digit == (col_digits(rows, c as int, r as nat).len() > 0),
                    forall|m: nat| m <= r ==> digits_value(#[trigger] col_digits(rows, c as int, m)) <= u128::MAX,
                    bs == blocks(sep_flags(ls)),
                    bi < bs.len(),
                    bs[bi as int] == (start as int, end as int),
                    start <= c < end,
                decreases rows.len() - r,
            {
                let ch = padded[r][c];
                proof {
                    assert(ch == cell(rows[r as int], c as int));
                    let d = col_digits(rows, c as int, r as nat);
                    assert(d.push(ch).drop_last() =~= d);
                }
                if 48u8 <= ch && ch <= 57u8 {
                    have_digit = true;
                    let grown = match val.checked_mul(10) {
                        Some(m) => m.checked_add((ch - 48u8) as u128),
                        None => None,
                    };
                    match grown {
                        Some(t) => {
                            val = t;
                        },
                        None => {
                            proof {
                                assert(digits_value(col_digits(rows, c as int, (r + 1) as nat)) > u128::MAX);
                                assert(bs[bi as int].0 <= c < bs[bi as int].1);
                            }
                            return None;
                        },
                    }
                }
                proof {
                    assert forall|m: nat| m <= r + 1 implies digits_value(#[trigger] col_digits(rows, c as int, m)) <= u128::MAX by {
                        if m == r + 1 {
                            assert(digits_value(col_digits(rows, c as int, m)) == val);
                        }
                    }
                }
                r = r + 1;
            }
            if have_digit {
                let next = if op == 43u8 {
                    block_acc.checked_add(val)
                } else {
                    block_acc.checked_mul(val)
                };
                match next {
                    Some(x) => {
                        block_acc = x;
                    },
                    None => {
                        proof {
                            assert(block_value(rows, op, start as int, c + 1) > u128::MAX);
                            assert(bs[bi as int].0 <= c + 1 <= bs[bi as int].1);
                        }
                        return None;
                    },
                }
            }
            c = c + 1;
        }
        match total.checked_add(block_acc) {
            Some(t) => {
                total = t;
            },
            None => {
                proof {
                    assert(blocks_sum(ls, (bi + 1) as nat) > u128::MAX);
                }
                return None;
            },
        }
        bi = bi + 1;
    }
    proof {
        assert(columns_ok(input.spec_bytes()));
    }
    Some(total)
}

} // verus!
