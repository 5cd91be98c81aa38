//! Splitting text into lines, and recognising blank lines.
//!
//! A line ends at a `'\n'` byte or at the end of the text; a `'\r'` just
//! before a `'\n'` is not part of the line, and a final `'\n'` does not
//! start a new, empty line.
use vstd::prelude::*;
use vstd::string::StringSliceAdditionalSpecFns;

verus! {

pub open spec fn is_space(b: u8) -> bool {
    b == 32u8 || (9u8 <= b && b <= 13u8)
}

/// A line made only of ASCII white space (or of nothing).
pub open spec fn is_blank(line: Seq<u8>) -> bool {
    forall|i: int| 0 <= i < line.len() ==> is_space(#[trigger] line[i])
}

/// The stretches of `s` between its `sep` bytes: one more than there are
/// `sep` bytes in `s`.
pub open spec fn pieces(s: Seq<u8>, sep: u8) -> Seq<Seq<u8>>
    decreases s.len(),
{
    if s.len() == 0 {
        seq![Seq::empty()]
    } else {
        let p = pieces(s.drop_last(), sep);
        if s.last() == sep {
            p.push(Seq::empty())
        } else {
            p.update(p.len() - 1, p.last().push(s.last()))
        }
    }
}

pub open spec fn strip_cr(line: Seq<u8>) -> Seq<u8> {
    if line.len() > 0 && line.last() == 13u8 {
        line.drop_last()
    } else {
        line
    }
}

/// The lines of `s`.
pub open spec fn lines_of(s: Seq<u8>) -> Seq<Seq<u8>> {
    if s.len() == 0 {
        Seq::empty()
    } else if s.last() == 10u8 {
        pieces(s.drop_last(), 10u8).map_values(|l: Seq<u8>| strip_cr(l))
    } else {
        let p = pieces(s, 10u8);
        p.drop_last().map_values(|l: Seq<u8>| strip_cr(l)).push(p.last())
    }
}

/// The lines of `ls` that are not blank, in their order.
pub open spec fn non_blank(ls: Seq<Seq<u8>>) -> Seq<Seq<u8>>
    decreases ls.len(),
{
    if ls.len() == 0 {
        Seq::empty()
    } else if is_blank(ls.last()) {
        non_blank(ls.drop_last())
    } else {
        non_blank(ls.drop_last()).push(ls.last())
    }
}

/// The number of bytes in all of `ls` together.
pub open spec fn total_len(ls: Seq<Seq<u8>>) -> nat
    decreases ls.len(),
{
    if ls.len() == 0 {
        0
    } else {
        total_len(ls.drop_last()) + ls.last().len()
    }
}

proof fn lemma_total_len_push(ls: Seq<Seq<u8>>, l: Seq<u8>)
    ensures
        total_len(ls.push(l)) == total_len(ls) + l.len(),
{
    assert(ls.push(l).drop_last() =~= ls);
}

pub(crate) proof fn lemma_total_len_prefix(ls: Seq<Seq<u8>>, k: int)
    requires
        0 <= k < ls.len(),
    ensures
        total_len(ls.subrange(0, k + 1)) == total_len(ls.subrange(0, k)) + ls[k].len(),
        total_len(ls.subrange(0, k + 1)) <= total_len(ls),
    decreases ls.len(),
{
    assert(ls.subrange(0, k + 1).drop_last() =~= ls.subrange(0, k));
    if k + 1 < ls.len() {
        lemma_total_len_prefix(ls.drop_last(), k);
        assert(ls.drop_last().subrange(0, k + 1) =~= ls.subrange(0, k + 1));
    } else {
        assert(ls.subrange(0, k + 1) =~= ls);
    }
}

proof fn lemma_pieces_nonempty(s: Seq<u8>, sep: u8)
    ensures
        pieces(s, sep).len() >= 1,
    decreases s.len(),
{
    if s.len() > 0 {
        lemma_pieces_nonempty(s.drop_last(), sep);
    }
}

fn strip_line_end(line: &mut Vec<u8>)
    ensures
        final(line)@ == strip_cr(old(line)@),
{
    let n = line.len();
    if n > 0 && line[n - 1] == 13u8 {
        line.pop();
    }
}

/// Splits `s` into its lines.
pub fn split_lines(s: &[u8]) -> (r: Vec<Vec<u8>>)
    ensures
        r.deep_view() == lines_of(s@),
        total_len(r.deep_view()) <= s@.len(),
{
    let mut out: Vec<Vec<u8>> = Vec::new();
    let mut cur: Vec<u8> = Vec::new();
    let n = s.len();
    let mut i: usize = 0;
    proof {
        assert(s@.subrange(0, 0) =~= Seq::<u8>::empty());
    }
    while i < n
        invariant
            i <= n == s@.len(),
            pieces(s@.subrange(0, i as int), 10u8).len() >= 1,
            out.deep_view() =~= pieces(s@.subrange(0, i as int), 10u8).drop_last().map_values(
                |l: Seq<u8>| strip_cr(l),
            ),
            cur@ == pieces(s@.subrange(0, i as int), 10u8).last(),
            total_len(out.deep_view()) + cur@.len() <= i,
        decreases n - i,
    {
        let b = s[i];
        let ghost pre = s@.subrange(0, i as int);
        proof {
            assert(s@.subrange(0, i + 1).drop_last() =~= pre);
        }
        let ghost p = pieces(pre, 10u8);
        let ghost old_out = out.deep_view();
        if b == 10u8 {
            let mut line = cur;
            strip_line_end(&mut line);
            proof {
                assert(line.deep_view() =~= line@);
            }
            out.push(line);
            cur = Vec::new();
            proof {
                assert(pieces(s@.subrange(0, i + 1), 10u8) == p.push(Seq::empty()));
                assert(p.push(Seq::empty()).drop_last() =~= p);
                assert(p =~= p.drop_last().push(p.last()));
                assert(out.deep_view() =~= old_out.push(strip_cr(p.last())));
                lemma_total_len_push(old_out, strip_cr(p.last()));
            }
        } else {
            cur.push(b);
            proof {
                let q = p.update(p.len() - 1, p.last().push(b));
                assert(pieces(s@.subrange(0, i + 1), 10u8) == q);
                assert(q.drop_last() =~= p.drop_last());
            }
        }
        i = i + 1;
        proof {
            lemma_pieces_nonempty(s@.subrange(0, i as int), 10u8);
        }
    }
    proof {
        assert(s@.subrange(0, n as int) =~= s@);
    }
    if n == 0 {
        proof {
            assert(out.deep_view() =~= Seq::<Seq<u8>>::empty());
        }
        out
    } else if s[n - 1] == 10u8 {
        proof {
            assert(s@.drop_last() =~= s@.subrange(0, n - 1));
            lemma_pieces_nonempty(s@.drop_last(), 10u8);
            assert(pieces(s@, 10u8).drop_last() =~= pieces(s@.drop_last(), 10u8));
        }
        out
    } else {
        // The last line has no line end to strip.
        let ghost old_out = out.deep_view();
        let line = cur;
        proof {
            assert(line.deep_view() =~= line@);
        }
        out.push(line);
        proof {
            let p = pieces(s@, 10u8);
            assert(out.deep_view() =~= old_out.push(p.last()));
            lemma_total_len_push(old_out, p.last());
        }
        out
    }
}

/// The lines of `input` that are not blank, in their order.
pub fn non_empty_lines(input: &str) -> (r: Vec<Vec<u8>>)
    ensures
        r.deep_view() == non_blank(lines_of(input.spec_bytes())),
        total_len(r.deep_view()) <= usize::MAX,
        forall|i: int| 0 <= i < r@.len() ==> (#[trigger] r@[i])@.len() > 0,
{
    let bytes = input.as_bytes();
    let lines = split_lines(bytes);
    let n = bytes.len();
    proof {
        assert(n == input.spec_bytes().len());
    }
    let mut out: Vec<Vec<u8>> = Vec::new();
    let mut k: usize = 0;
    while k < lines.len()
        invariant
            k <= lines@.len(),
            out.deep_view() == non_blank(lines.deep_view().subrange(0, k as int)),
            total_len(out.deep_view()) <= total_len(lines.deep_view().subrange(0, k as int)),
            total_len(lines.deep_view()) <= usize::MAX,
            forall|i: int| 0 <= i < out@.len() ==> (#[trigger] out@[i])@.len() > 0,
        decreases lines@.len() - k,
    {
        let line = &lines[k];
        let mut blank = true;
        let mut j: usize = 0;
        while j < line.len()
            invariant
                j <= line@.len(),
                blank == (forall|t: int| 0 <= t < j ==> is_space(#[trigger] line@[t])),
            decreases line@.len() - j,
        {
            let b = line[j];
            if !(b == 32u8 || (9u8 <= b && b <= 13u8)) {
                blank = false;
            }
            j = j + 1;
        }
        proof {
            let ls = lines.deep_view();
            assert(ls.subrange(0, k + 1).drop_last() =~= ls.subrange(0, k as int));
            assert(ls.subrange(0, k + 1).last() == line@);
        }
        let ghost old_out = out.deep_view();
        if !blank {
            let copy = line.clone();
            proof {
                assert(copy.deep_view() =~= copy@);
                assert(!is_space(line@[choose|t: int| 0 <= t < line@.len() && !is_space(line@[t])]));
            }
            out.push(copy);
            proof {
                assert(out.deep_view() =~= old_out.push(line@));
                lemma_total_len_push(old_out, line@);
            }
        }
        proof {
            lemma_total_len_prefix(lines.deep_view(), k as int);
        }
        k = k + 1;
    }
    proof {
        assert(lines.deep_view().subrange(0, lines@.len() as int) =~= lines.deep_view());
    }
    out
}

/// Splits `s` at each `sep` byte.
pub fn split_pieces(s: &[u8], sep: u8) -> (r: Vec<Vec<u8>>)
    ensures
        r.deep_view() == pieces(s@, sep),
{
    let mut out: Vec<Vec<u8>> = Vec::new();
    let mut cur: Vec<u8> = Vec::new();
    let n = s.len();
    let mut i: usize = 0;
    proof {
        assert(s@.subrange(0, 0) =~= Seq::<u8>::empty());
    }
    while i < n
        invariant
            i <= n == s@.len(),
            pieces(s@.subrange(0, i as int), sep).len() >= 1,
            out.deep_view() =~= pieces(s@.subrange(0, i as int), sep).drop_last(),
            cur@ == pieces(s@.subrange(0, i as int), sep).last(),
        decreases n - i,
    {
        let b = s[i];
        let ghost pre = s@.subrange(0, i as int);
        let ghost p = pieces(pre, sep);
        let ghost old_out = out.deep_view();
        proof {
            assert(s@.subrange(0, i + 1).drop_last() =~= pre);
        }
        if b == sep {
            let line = cur;
            proof {
                assert(line.deep_view() =~= line@);
            }
            out.push(line);
            cur = Vec::new();
            proof {
                assert(p.push(Seq::empty()).drop_last() =~= p);
                assert(p =~= p.drop_last().push(p.last()));
                assert(out.deep_view() =~= old_out.push(p.last()));
            }
        } else {
            cur.push(b);
            proof {
                let q = p.update(p.len() - 1, p.last().push(b));
                assert(q.drop_last() =~= p.drop_last());
            }
        }
        i = i + 1;
        proof {
            lemma_pieces_nonempty(s@.subrange(0, i as int), sep);
        }
    }
    proof {
        assert(s@.subrange(0, n as int) =~= s@);
        let p = pieces(s@, sep);
        assert(p =~= p.drop_last().push(p.last()));
        assert(cur.deep_view() =~= cur@);
    }
    out.push(cur);
    out
}

pub open spec fn trim_start(s: Seq<u8>) -> Seq<u8>
    decreases s.len(),
{
    if s.len() > 0 && is_space(s[0]) {
        trim_start(s.subrange(1, s.len() as int))
    } else {
        s
    }
}

pub open spec fn trim_end(s: Seq<u8>) -> Seq<u8>
    decreases s.len(),
{
    if s.len() > 0 && is_space(s.last()) {
        trim_end(s.drop_last())
    } else {
        s
    }
}

/// `s` without its leading and trailing ASCII white space.
pub open spec fn trim(s: Seq<u8>) -> Seq<u8> {
    trim_end(trim_start(s))
}

/// The bytes `a .. b` of `s`, copied.
pub fn copy_range(s: &[u8], a: usize, b: usize) -> (r: Vec<u8>)
    requires
        a <= b <= s@.len(),
    ensures
        r@ == s@.subrange(a as int, b as int),
{
    let mut r: Vec<u8> = Vec::new();
    let mut i: usize = a;
    while i < b
        invariant
            a <= i <= b <= s@.len(),
            r@ == s@.subrange(a as int, i as int),
        decreases b - i,
    {
        r.push(s[i]);
        i = i + 1;
        proof {
            assert(r@ =~= s@.subrange(a as int, i as int));
        }
    }
    r
}

/// `s` without its leading and trailing ASCII white space.
pub fn trim_bytes(s: &[u8]) -> (r: Vec<u8>)
    ensures
        r@ == trim(s@),
{
    let n = s.len();
    let mut a: usize = 0;
    proof {
        assert(s@.subrange(0, n as int) =~= s@);
    }
    while a < n && (s[a] == 32u8 || (9u8 <= s[a] && s[a] <= 13u8))
        invariant
            a <= n == s@.len(),
            trim_start(s@.subrange(a as int, n as int)) == trim_start(s@),
        decreases n - a,
    {
        proof {
            assert(s@.subrange(a as int, n as int).subrange(1, n - a) =~= s@.subrange(a + 1, n as int));
        }
        a = a + 1;
    }
    let mut b: usize = n;
    proof {
        assert(trim_start(s@) == s@.subrange(a as int, n as int));
    }
    while b > a && (s[b - 1] == 32u8 || (9u8 <= s[b - 1] && s[b - 1] <= 13u8))
        invariant
            a <= b <= n == s@.len(),
            trim_end(s@.subrange(a as int, b as int)) == trim(s@),
        decreases b - a,
    {
        proof {
            assert(s@.subrange(a as int, b as int).drop_last() =~= s@.subrange(a as int, b - 1));
        }
        b = b - 1;
    }
    copy_range(s, a, b)
}

/// The first index of `b` in `s`, where there is one.
pub open spec fn first_index(s: Seq<u8>, b: u8) -> int {
    choose|i: int| 0 <= i < s.len() && s[i] == b && forall|j: int| 0 <= j < i ==> s[j] != b
}

pub open spec fn has_byte(s: Seq<u8>, b: u8) -> bool {
    exists|i: int| 0 <= i < s.len() && s[i] == b
}

pub proof fn lemma_first_index(s: Seq<u8>, b: u8, i: int)
    requires
        0 <= i < s.len(),
        s[i] == b,
        forall|j: int| 0 <= j < i ==> s[j] != b,
    ensures
        first_index(s, b) == i,
        has_byte(s, b),
{
    let f = first_index(s, b);
    assert(has_byte(s, b));
    if f < i {
        assert(s[f] != b);
    } else if f > i {
        assert(s[i] != b);
    }
}

/// The index of the first `b` in `s`, or the length of `s` where there is
/// none.
pub fn find_byte(s: &[u8], b: u8) -> (i: usize)
    ensures
        i <= s@.len(),
        i == s@.len() <==> !has_byte(s@, b),
        i < s@.len() ==> i == first_index(s@, b),
{
    let n = s.len();
    let mut i: usize = 0;
    while i < n && s[i] != b
        invariant
            i <= n == s@.len(),
            forall|j: int| 0 <= j < i ==> s@[j] != b,
        decreases n - i,
    {
        i = i + 1;
    }
    proof {
        if i < n {
            lemma_first_index(s@, b, i as int);
        }
    }
    i
}

} // verus!
