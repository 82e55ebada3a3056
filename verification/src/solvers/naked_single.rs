//! Naked single: a square with one candidate takes it.

use crate::board::Board;
use crate::grid::Grid;
use crate::mask::{count, count_candidates, first_candidate, has_bit, lowest_digit};
use crate::position::Position;
use crate::solvers::{run_rule, Rule};
use vstd::prelude::*;

verus! {

/// The attempt at square `n`: where promotion is not automatic and the square is
/// unassigned with exactly one candidate, that digit is placed and propagated.
pub open spec fn naked_single_at(b: Board, n: int) -> Board {
    let c = b.cells[n];
    if !b.auto_promote && b.valid() && c.value == 0 && count(c.candidates) == 1 {
        b.place(n, lowest_digit(c.candidates))
    } else {
        b
    }
}

/// Makes the attempt at square `n` and tells whether the grid changed.
pub fn try_naked_single(grid: &mut Grid, n: usize) -> (changed: bool)
    requires
        old(grid)@.wf(),
        n < 81,
    ensures
        final(grid)@ == naked_single_at(old(grid)@, n as int),
        old(grid)@.advances(final(grid)@),
        changed == (final(grid)@ != old(grid)@),
        old(grid)@.promoted() ==> final(grid)@.promoted(),
        old(grid)@.sound() ==> final(grid)@.sound(),
{
    proof {
        old(grid)@.lemma_advances_self();
    }
    if grid.auto_promote || !grid.is_valid() || grid.cells[n].value != 0 {
        return false;
    }
    if count_candidates(grid.cells[n].candidates) != 1 {
        return false;
    }
    let v: u8 = first_candidate(grid.cells[n].candidates);
    proof {
        if grid@.sound() {
            let a = grid@.cells[n as int].answer->0;
            assert(grid@.cells[n as int].wf());
            assert(has_bit(grid@.cells[n as int].candidates, (a - 1) as u16));
            assert(a == v);
        }
    }
    grid.place(n, v);
    proof {
        if old(grid)@.sound() {
            old(grid)@.lemma_sound_kept(grid@);
        }
    }
    true
}

/// Assigns the first square, in index order, that has a single candidate. Does
/// nothing while promotion is automatic.
pub fn step_naked_single(grid: &mut Grid) -> (changed: bool)
    requires
        old(grid)@.wf(),
    ensures
        final(grid)@ == Rule::NakedSingle.step(old(grid)@),
        old(grid)@.advances(final(grid)@),
        changed == (final(grid)@ != old(grid)@),
        old(grid)@.promoted() ==> final(grid)@.promoted(),
        old(grid)@.sound() ==> final(grid)@.sound(),
{
    run_rule(Rule::NakedSingle, grid, true)
}

/// Assigns every square that has a single candidate, in index order, each on what
/// the one before left. Does nothing while promotion is automatic.
pub fn solve_naked_single(grid: &mut Grid) -> (changed: bool)
    requires
        old(grid)@.wf(),
    ensures
        final(grid)@ == Rule::NakedSingle.apply(old(grid)@),
        old(grid)@.advances(final(grid)@),
        changed == (final(grid)@ != old(grid)@),
        old(grid)@.promoted() ==> final(grid)@.promoted(),
        old(grid)@.sound() ==> final(grid)@.sound(),
{
    run_rule(Rule::NakedSingle, grid, false)
}

/// The digit that the square at `pos` holds or is bound to take: its value, or
/// its only candidate. None for a position outside the grid, and for a square
/// that is still open.
pub fn solve_naked_single_cell(grid: &Grid, pos: Position) -> (r: Option<u8>)
    ensures
        !pos.in_grid() ==> r is None,
        pos.in_grid() ==> {
            let c = grid@.cells[pos.index()];
            r == if c.value != 0 {
                Some(c.value)
            } else if count(c.candidates) == 1 {
                Some(lowest_digit(c.candidates))
            } else {
                None
            }
        },
{
    if pos.row > 8 || pos.col > 8 {
        return None;
    }
    let cell = grid.cells[pos.get_index()];
    if cell.value != 0 {
        return Some(cell.value);
    }
    if count_candidates(cell.candidates) == 1 {
        return Some(first_candidate(cell.candidates));
    }
    None
}

} // verus!
