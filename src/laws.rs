//! General facts about the two grid engines, stated over their models.
use crate::grid::Grid;
use crate::splits::{next_beams, total_splits};
use crate::timelines::{next_counts, total_timelines};
use vstd::prelude::*;

verus! {

/// Both engines are functions of the grid's cells and the start column
/// alone: two grids with the same cells give the same counts.
pub proof fn lemma_counts_depend_on_cells_only(a: &Grid, b: &Grid, s: int)
    requires
        a.cells() == b.cells(),
        a.width == b.width,
    ensures
        total_splits(a.cells(), a.width as nat, s, a.height()) == total_splits(
            b.cells(),
            b.width as nat,
            s,
            b.height(),
        ),
        total_timelines(a.cells(), a.width as nat, s, a.height()) == total_timelines(
            b.cells(),
            b.width as nat,
            s,
            b.height(),
        ),
{
    assert(a.height() == a.cells().len());
    assert(b.height() == b.cells().len());
}

/// A beam never wraps around the row: the first column gets beams only from
/// itself and the second, and the last only from itself and the one before.
pub proof fn lemma_beams_do_not_wrap(prev: Seq<bool>, split: Seq<bool>)
    requires
        prev.len() == split.len(),
        prev.len() >= 2,
    ensures
        next_beams(prev, split)[0] == ((prev[0] && !split[0]) || (prev[1] && split[1])),
        next_beams(prev, split)[prev.len() - 1] == ((prev[prev.len() - 1] && !split[prev.len()
            - 1]) || (prev[prev.len() - 2] && split[prev.len() - 2])),
{
}

/// Timelines never wrap around the row either: a splitter on the first
/// column sends nothing to the left, one on the last column nothing to the
/// right, and the end columns receive only from their one neighbour.
pub proof fn lemma_timelines_do_not_wrap(prev: Seq<nat>, split: Seq<bool>)
    requires
        prev.len() == split.len(),
        prev.len() >= 2,
    ensures
        next_counts(prev, split)[0] == (if split[0] {
            0
        } else {
            prev[0]
        }) + (if split[1] {
            prev[1]
        } else {
            0
        }),
        next_counts(prev, split)[prev.len() - 1] == (if split[prev.len() - 1] {
            0
        } else {
            prev[prev.len() - 1]
        }) + (if split[prev.len() - 2] {
            prev[prev.len() - 2]
        } else {
            0
        }),
{
}

} // verus!
