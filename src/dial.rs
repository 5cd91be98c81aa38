//! A dial numbered 0 to 99, turned by lines `R<n>` and `L<n>`, counting how
//! often it points at zero.
use crate::numbers::{parse_u32, unsigned_of};
use crate::text::{trim, trim_bytes};
use vstd::prelude::*;
use vstd::string::StringSliceAdditionalSpecFns;

verus! {

/// How a line begins.
#[derive(Debug, Clone, Copy, PartialEq, Eq, Structural)]
pub enum LineStart {
    /// `'R'`: turn right, towards higher numbers.
    Right,
    /// `'L'`: turn left, towards lower numbers.
    Left,
    /// Anything else, or an empty line.
    Other,
}

pub open spec fn start_of(line: Seq<u8>) -> LineStart {
    if line.len() > 0 && line[0] == 82u8 {
        LineStart::Right
    } else if line.len() > 0 && line[0] == 76u8 {
        LineStart::Left
    } else {
        LineStart::Other
    }
}

/// How `line` begins.
pub fn classify_line(line: &str) -> (r: LineStart)
    ensures
        r == start_of(line.spec_bytes()),
{
    let b = line.as_bytes();
    if b.len() > 0 && b[0] == 82u8 {
        LineStart::Right
    } else if b.len() > 0 && b[0] == 76u8 {
        LineStart::Left
    } else {
        LineStart::Other
    }
}

/// Where the dial ends, and how often it pointed at zero on the way.
#[derive(Debug, Clone, Copy, PartialEq, Eq, Structural)]
pub struct Stats {
    pub value: u32,
    pub zero_hits: u32,
}

/// The times the dial passes or lands on zero turning right by `delta` from
/// `start`.
pub open spec fn right_hits(start: nat, delta: nat) -> nat {
    (start + delta) / 100
}

/// The times the dial passes or lands on zero turning left by `delta` from
/// `start`: from zero, once per full turn; otherwise once on reaching zero,
/// then once per full turn after that.
pub open spec fn left_hits(start: nat, delta: nat) -> nat {
    if start == 0 {
        delta / 100
    } else if delta < start {
        0
    } else {
        1 + (delta - start) as nat / 100
    }
}

/// The zeros passed turning right.
pub fn zero_hits_right(start: u32, delta: u32) -> (r: u32)
    ensures
        r == right_hits(start as nat, delta as nat),
{
    ((start as u64 + delta as u64) / 100) as u32
}

/// The zeros passed turning left.
pub fn zero_hits_left(start: u32, delta: u32) -> (r: u32)
    ensures
        r == left_hits(start as nat, delta as nat),
{
    if start == 0 {
        delta / 100
    } else if delta < start {
        0
    } else {
        1 + (delta - start) / 100
    }
}

/// The turn a line asks for: its direction (`true` for right) and the
/// number after the letter, trimmed. A line that is neither, or whose number
/// does not read as `u32`, asks for none.
pub open spec fn turn_of(line: Seq<u8>) -> Option<(bool, nat)> {
    if start_of(line) == LineStart::Other {
        None
    } else {
        match unsigned_of(trim(line.subrange(1, line.len() as int)), u32::MAX as nat) {
            Some(d) => Some((start_of(line) == LineStart::Right, d)),
            None => None,
        }
    }
}

/// The dial position and the zeros passed after the lines `lines`.
pub open spec fn run(start: nat, lines: Seq<Seq<u8>>) -> (nat, nat)
    decreases lines.len(),
{
    if lines.len() == 0 {
        (start % 100, 0)
    } else {
        let (v, h) = run(start, lines.drop_last());
        match turn_of(lines.last()) {
            Some((true, d)) => ((v + d) % 100, h + right_hits(v, d)),
            Some((false, d)) => ((v + 100 - d % 100) as nat % 100, h + left_hits(v, d)),
            None => (v, h),
        }
    }
}

pub open spec fn byte_lines(lines: Seq<&str>) -> Seq<Seq<u8>> {
    Seq::new(lines.len(), |i: int| lines[i].spec_bytes())
}

proof fn lemma_run_value(start: nat, lines: Seq<Seq<u8>>)
    ensures
        run(start, lines).0 < 100,
    decreases lines.len(),
{
    if lines.len() > 0 {
        lemma_run_value(start, lines.drop_last());
    }
}

/// Turns the dial from `start` through `lines`; lines that are not turns
/// are skipped. The count of zeros is held at `u32::MAX`.
pub fn process_lines(start: u32, lines: &[&str]) -> (r: Stats)
    ensures
        r.value == run(start as nat, byte_lines(lines@)).0,
        r.zero_hits == if run(start as nat, byte_lines(lines@)).1 > u32::MAX {
            u32::MAX as nat
        } else {
            run(start as nat, byte_lines(lines@)).1
        },
{
    let mut value = start % 100;
    let mut zero_hits: u32 = 0;
    let ghost all = byte_lines(lines@);
    let mut k: usize = 0;
    while k < lines.len()
        invariant
            k <= lines@.len(),
            all == byte_lines(lines@),
            value == run(start as nat, all.subrange(0, k as int)).0,
            zero_hits == if run(start as nat, all.subrange(0, k as int)).1 > u32::MAX {
                u32::MAX as nat
            } else {
                run(start as nat, all.subrange(0, k as int)).1
            },
        decreases lines@.len() - k,
    {
        let line: &str = lines[k];
        let b = line.as_bytes();
        proof {
            assert(all.subrange(0, k + 1).drop_last() =~= all.subrange(0, k as int));
            assert(all.subrange(0, k + 1).last() == b@);
            lemma_run_value(start as nat, all.subrange(0, k as int));
        }
        match classify_line(line) {
            LineStart::Right => {
                let rest = trim_bytes(crate::text::copy_range(b, 1, b.len()).as_slice());
                if let Some(delta) = parse_u32(rest.as_slice()) {
                    zero_hits = zero_hits.saturating_add(zero_hits_right(value, delta));
                    value = ((value as u64 + delta as u64) % 100) as u32;
                }
            },
            LineStart::Left => {
                let rest = trim_bytes(crate::text::copy_range(b, 1, b.len()).as_slice());
                if let Some(delta) = parse_u32(rest.as_slice()) {
                    zero_hits = zero_hits.saturating_add(zero_hits_left(value, delta));
                    value = (value + 100 - (delta % 100)) % 100;
                }
            },
            LineStart::Other => {},
        }
        k = k + 1;
    }
    proof {
        assert(all.subrange(0, lines@.len() as int) =~= all);
    }
    Stats { value, zero_hits }
}

} // verus!
