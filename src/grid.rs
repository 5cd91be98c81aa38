//! The splitter grid: parsing and validation.
//!
//! A grid is a rectangle of bytes: `'.'` for an empty cell, `'^'` for a
//! splitter, and one `'S'` in the top row where the beam enters.
use crate::text::{lemma_total_len_prefix, lines_of, non_blank, non_empty_lines, total_len};
use vstd::prelude::*;
use vstd::string::StringSliceAdditionalSpecFns;

verus! {

pub const SPLITTER: u8 = 94;

pub const START: u8 = 83;

pub open spec fn is_splitter(b: u8) -> bool {
    b == SPLITTER
}

/// Why a text is not a grid.
#[derive(Debug, Clone, Copy, PartialEq, Eq, Structural)]
pub enum GridError {
    /// The text holds no line that is not blank.
    EmptyInput,
    /// Line `row` (counting kept lines from zero) has `got` bytes where the
    /// first has `expected`.
    RaggedGrid { row: usize, got: usize, expected: usize },
    /// The top row holds no start cell.
    MissingStart,
}

/// A rectangular grid of cells, one byte each.
pub struct Grid {
    pub rows: Vec<Vec<u8>>,
    pub width: usize,
}

impl Grid {
    /// The rows as sequences of bytes.
    pub open spec fn cells(&self) -> Seq<Seq<u8>> {
        self.rows.deep_view()
    }

    pub open spec fn height(&self) -> nat {
        self.rows@.len()
    }

    /// At least one row, every row `width` cells wide, and the whole grid
    /// small enough to count its cells in a `usize`.
    pub open spec fn wf(&self) -> bool {
        &&& self.rows@.len() >= 1
        &&& self.width >= 1
        &&& forall|r: int| 0 <= r < self.rows@.len() ==> (#[trigger] self.rows@[r])@.len() == self.width
        &&& self.rows@.len() * self.width <= usize::MAX
    }
}

/// The kept lines of a text: those that are not blank.
pub open spec fn grid_lines(s: Seq<u8>) -> Seq<Seq<u8>> {
    non_blank(lines_of(s))
}

/// Every line of `ls` before index `n` has the length of the first.
pub open spec fn even_up_to(ls: Seq<Seq<u8>>, n: int) -> bool {
    forall|j: int| 0 <= j < n ==> (#[trigger] ls[j]).len() == ls[0].len()
}

/// The kept lines form a grid: there is one, and all are as long as the first.
pub open spec fn is_grid(ls: Seq<Seq<u8>>) -> bool {
    ls.len() >= 1 && even_up_to(ls, ls.len() as int)
}

/// `e` is the error with which parsing turns down the kept lines `ls`: no
/// line at all, or the first line whose length differs from the first's.
pub open spec fn rejects(ls: Seq<Seq<u8>>, e: GridError) -> bool {
    match e {
        GridError::EmptyInput => ls.len() == 0,
        GridError::RaggedGrid { row, got, expected } => {
            &&& ls.len() >= 1
            &&& row < ls.len()
            &&& even_up_to(ls, row as int)
            &&& got == ls[row as int].len()
            &&& expected == ls[0].len()
            &&& got != expected
        },
        GridError::MissingStart => false,
    }
}

pub open spec fn has_start(row: Seq<u8>) -> bool {
    exists|c: int| 0 <= c < row.len() && row[c] == START
}

/// The first column of `row` that holds the start cell.
pub open spec fn first_start(row: Seq<u8>) -> int {
    choose|c: int|
        0 <= c < row.len() && row[c] == START && forall|j: int| 0 <= j < c ==> row[j] != START
}

pub proof fn lemma_first_start(row: Seq<u8>, c: int)
    requires
        0 <= c < row.len(),
        row[c] == START,
        forall|j: int| 0 <= j < c ==> row[j] != START,
    ensures
        first_start(row) == c,
        has_start(row),
{
    let f = first_start(row);
    assert(0 <= f < row.len() && row[f] == START && forall|j: int| 0 <= j < f ==> row[j] != START);
    if f < c {
        assert(row[f] != START);
    } else if f > c {
        assert(row[c] != START);
    }
}

/// Parses `input` into a grid: blank lines are dropped, and every other line
/// must be as long as the first.
pub fn parse_grid(input: &str) -> (r: Result<Grid, GridError>)
    ensures
        ({
            let ls = grid_lines(input.spec_bytes());
            match r {
                Ok(g) => {
                    &&& is_grid(ls)
                    &&& g.wf()
                    &&& g.cells() == ls
                    &&& g.width == ls[0].len()
                },
                Err(e) => rejects(ls, e),
            }
        }),
{
    let lines = non_empty_lines(input);
    let ghost ls = lines.deep_view();
    if lines.len() == 0 {
        return Err(GridError::EmptyInput);
    }
    let width = lines[0].len();
    proof {
        assert(lines@[0]@ =~= ls[0]);
        assert(ls.subrange(0, 0) =~= Seq::<Seq<u8>>::empty());
        assert(ls.len() == lines@.len());
    }
    let mut k: usize = 0;
    while k < lines.len()
        invariant
            ls == lines.deep_view(),
            ls == grid_lines(input.spec_bytes()),
            1 <= lines@.len(),
            width == ls[0].len(),
            k <= lines@.len(),
            even_up_to(ls, k as int),
            total_len(ls) <= usize::MAX,
            total_len(ls.subrange(0, k as int)) == k * width,
        decreases lines@.len() - k,
    {
        proof {
            assert(lines@[k as int]@ =~= ls[k as int]);
        }
        if lines[k].len() != width {
            let e = GridError::RaggedGrid { row: k, got: lines[k].len(), expected: width };
            return Err(e);
        }
        proof {
            lemma_total_len_prefix(ls, k as int);
            assert((k + 1) * width == k * width + width) by (nonlinear_arith);
        }
        k = k + 1;
    }
    proof {
        assert(ls.subrange(0, lines@.len() as int) =~= ls);
        assert forall|r: int| 0 <= r < lines@.len() implies (#[trigger] lines@[r])@.len() == width by {
            assert(lines@[r]@ =~= ls[r]);
        }
    }
    Ok(Grid { rows: lines, width })
}

/// The first column of `top_row` that holds the start cell.
pub fn find_start_column(top_row: &[u8]) -> (r: Result<usize, GridError>)
    ensures
        match r {
            Ok(c) => c < top_row@.len() && top_row@[c as int] == START && forall|j: int|
                0 <= j < c ==> top_row@[j] != START,
            Err(e) => e == GridError::MissingStart && forall|j: int|
                0 <= j < top_row@.len() ==> top_row@[j] != START,
        },
{
    let mut c: usize = 0;
    while c < top_row.len()
        invariant
            c <= top_row@.len(),
            forall|j: int| 0 <= j < c ==> top_row@[j] != START,
        decreases top_row@.len() - c,
    {
        if top_row[c] == START {
            return Ok(c);
        }
        c = c + 1;
    }
    Err(GridError::MissingStart)
}

} // verus!
