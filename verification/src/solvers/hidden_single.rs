//! Hidden single: a digit with one place left in a group goes there.

use crate::board::Board;
use crate::grid::Grid;
use crate::mask::{count, count_candidates, first_candidate, has_bit, lemma_single_bit, lowest_digit};
use crate::position::{
    group_cell, home_unit, lemma_decompose, lemma_unit_cells, peer_slot, slot_cell, unit_cell,
    Position,
};
use crate::solvers::{run_rule, Rule};
use vstd::prelude::*;

verus! {

/// The attempt at site `n`, which stands for group `n / 81`, place `(n / 9) % 9`
/// and digit `n % 9 + 1`: where that place is the only one of the group whose
/// square permits the digit, the digit is placed there and propagated.
pub open spec fn hidden_single_at(b: Board, n: int) -> Board {
    let u = n / 81;
    let k = (n / 9) % 9;
    let d = (n % 9 + 1) as u8;
    if b.valid() && b.places(u, d, 9) == 1u16 << (k as u16) {
        b.place(unit_cell(u, k), d)
    } else {
        b
    }
}

/// A digit with one place left in a group has that square's known answer for it:
/// the square of the group whose answer is the digit is assigned, and then its
/// peers have lost the digit, or it permits the digit, and then it is that place.
pub proof fn lemma_hidden_single_sound(b: Board, u: int, k: int, d: u8)
    requires
        b.wf(),
        b.sound(),
        0 <= u < 27,
        0 <= k < 9,
        1 <= d <= 9,
        b.places(u, d, 9) == 1u16 << (k as u16),
    ensures
        b.cells[unit_cell(u, k)].answer == Some(d),
{
    let p = b.lemma_unit_holds(u, d);
    b.lemma_places(u, d, 9);
    lemma_single_bit(k as u16);
    lemma_unit_cells(u, p, k);
    let q = unit_cell(u, p);
    let here = unit_cell(u, k);
    assert(has_bit(b.places(u, d, 9), k as u16));
    assert(b.cells[here].permits(d));
    assert(b.cells[q].wf());
    if p != k {
        if b.cells[q].value != 0 {
            assert(b.clash(q, here));
        } else {
            assert(b.cells[q].permits(d));
            assert(has_bit(b.places(u, d, 9), p as u16));
        }
    }
}

/// Makes the attempt at site `n` and tells whether the grid changed.
pub fn try_hidden_single(grid: &mut Grid, n: usize) -> (changed: bool)
    requires
        old(grid)@.wf(),
        n < 2187,
    ensures
        final(grid)@ == hidden_single_at(old(grid)@, n as int),
        old(grid)@.advances(final(grid)@),
        changed == (final(grid)@ != old(grid)@),
        old(grid)@.promoted() ==> final(grid)@.promoted(),
        old(grid)@.sound() ==> final(grid)@.sound(),
{
    proof {
        old(grid)@.lemma_advances_self();
    }
    let u: usize = n / 81;
    let k: usize = (n / 9) % 9;
    let d: u8 = (n % 9 + 1) as u8;
    if !grid.is_valid() {
        return false;
    }
    let found: u16 = grid.places(u, d);
    if found != 1u16 << (k as u16) {
        return false;
    }
    let j: usize = group_cell(u, k);
    proof {
        grid@.lemma_places(u as int, d, 9);
        lemma_single_bit(k as u16);
        assert(has_bit(found, k as u16));
        if grid@.sound() {
            lemma_hidden_single_sound(grid@, u as int, k as int, d);
        }
    }
    grid.place(j, d);
    proof {
        if old(grid)@.sound() {
            old(grid)@.lemma_sound_kept(grid@);
        }
    }
    true
}

/// The candidates of the unassigned squares other than square `idx` at the first
/// `k` places of its group of kind `kind`.
pub open spec fn others_mask(b: Board, idx: int, kind: int, k: int) -> u16
    decreases k,
{
    if k <= 0 {
        0
    } else {
        let rest = others_mask(b, idx, kind, k - 1);
        let j = peer_slot(idx, 9 * kind + k - 1);
        if j != idx && b.cells[j].value == 0 {
            rest | b.cells[j].candidates
        } else {
            rest
        }
    }
}

/// The candidates of square `idx` that no other square of its group of kind `kind`
/// permits; none for an assigned square.
pub open spec fn alone_in(b: Board, idx: int, kind: int) -> u16 {
    if b.cells[idx].value == 0 {
        b.cells[idx].candidates & !others_mask(b, idx, kind, 9)
    } else {
        0
    }
}

/// The digit that is a hidden single at square `idx`: the only candidate of the
/// square that its column permits nowhere else, or else its row, or else its
/// region; none where no group has exactly one such candidate.
pub open spec fn hidden_single_of(b: Board, idx: int) -> Option<u8> {
    if count(alone_in(b, idx, 0)) == 1 {
        Some(lowest_digit(alone_in(b, idx, 0)))
    } else if count(alone_in(b, idx, 1)) == 1 {
        Some(lowest_digit(alone_in(b, idx, 1)))
    } else if count(alone_in(b, idx, 2)) == 1 {
        Some(lowest_digit(alone_in(b, idx, 2)))
    } else {
        None
    }
}

/// The candidates of square `idx` that no other square of its group of kind `kind`
/// permits.
fn alone_mask(grid: &Grid, idx: usize, kind: usize) -> (m: u16)
    requires
        idx < 81,
        kind < 3,
    ensures
        m == alone_in(grid@, idx as int, kind as int),
{
    let mut others: u16 = 0;
    let mut k: usize = 0;
    while k < 9
        invariant
            k <= 9,
            idx < 81,
            kind < 3,
            others == others_mask(grid@, idx as int, kind as int, k as int),
        decreases 9 - k,
    {
        let j: usize = slot_cell(idx, 9 * kind + k);
        if j != idx && grid.cells[j].value == 0 {
            others = others | grid.cells[j].candidates;
        }
        k = k + 1;
    }
    if grid.cells[idx].value == 0 {
        grid.cells[idx].candidates & !others
    } else {
        0
    }
}

/// The hidden single at the square at `pos`, if it has one: the groups of the
/// square are looked at in the order column, row, region.
pub fn solve_hidden_single_cell(grid: &Grid, pos: Position) -> (r: Option<u8>)
    requires
        pos.in_grid(),
    ensures
        r == hidden_single_of(grid@, pos.index()),
{
    let idx: usize = pos.get_index();
    let mut kind: usize = 0;
    while kind < 3
        invariant
            kind <= 3,
            idx < 81,
            idx == pos.index(),
            forall|t: int| 0 <= t < kind ==> count(alone_in(grid@, idx as int, t)) != 1,
        decreases 3 - kind,
    {
        let alone: u16 = alone_mask(grid, idx, kind);
        if count_candidates(alone) == 1 {
            return Some(first_candidate(alone));
        }
        kind = kind + 1;
    }
    None
}

/// Places the first hidden single: groups in the order rows, columns, regions,
/// the squares of a group in order, the digits of a square rising.
pub fn step_hidden_single(grid: &mut Grid) -> (changed: bool)
    requires
        old(grid)@.wf(),
    ensures
        final(grid)@ == Rule::HiddenSingle.step(old(grid)@),
        old(grid)@.advances(final(grid)@),
        changed == (final(grid)@ != old(grid)@),
        old(grid)@.promoted() ==> final(grid)@.promoted(),
        old(grid)@.sound() ==> final(grid)@.sound(),
{
    run_rule(Rule::HiddenSingle, grid, true)
}

/// Places every hidden single, site by site, each on what the one before left.
pub fn solve_hidden_single(grid: &mut Grid) -> (changed: bool)
    requires
        old(grid)@.wf(),
    ensures
        final(grid)@ == Rule::HiddenSingle.apply(old(grid)@),
        old(grid)@.advances(final(grid)@),
        changed == (final(grid)@ != old(grid)@),
        old(grid)@.promoted() ==> final(grid)@.promoted(),
        old(grid)@.sound() ==> final(grid)@.sound(),
{
    run_rule(Rule::HiddenSingle, grid, false)
}

} // verus!
