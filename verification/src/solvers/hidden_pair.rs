//! Hidden pair: two digits that share their only two places in a group leave no
//! room for other digits there.

use crate::board::Board;
use crate::grid::Grid;
use crate::mask::{
    allows, count, count_candidates, digit_mask, has_bit, lemma_clear, lemma_constant_masks,
    lemma_single_bit, lemma_union, mask_of, ALL_CANDIDATES,
};
use crate::position::{lemma_unit_cells, peers, unit_cell};
use crate::search::{first_hit, lemma_first_hit};
use crate::solvers::{run_rule, Rule};
use vstd::prelude::*;

verus! {

/// Whether the digits `m / 9 + 1` and `m % 9 + 1`, the first below the second, have
/// the same places in group `u`, two in number.
pub open spec fn hidden_pair_at_digits(b: Board, u: int, m: int) -> bool {
    let first = b.places(u, (m / 9 + 1) as u8, 9);
    let second = b.places(u, (m % 9 + 1) as u8, 9);
    m / 9 < m % 9 && count(first) == 2 && first == second
}

/// The attempt at group `u`: for the first hidden pair of the group, in the order
/// of its digits, the two squares lose every other candidate.
pub open spec fn hidden_pair_at(b: Board, u: int) -> Board {
    let m = first_hit(|m: int| hidden_pair_at_digits(b, u, m), 0, 81);
    if b.valid() && m < 81 {
        b.strike(
            u,
            ALL_CANDIDATES & !b.places(u, (m / 9 + 1) as u8, 9),
            ALL_CANDIDATES & !(digit_mask((m / 9 + 1) as u8) | digit_mask((m % 9 + 1) as u8)),
            0,
        )
    } else {
        b
    }
}

/// The place of group `u` whose square has the digit `d` for known answer is one of
/// the places where the digit still can go, if there is any.
pub proof fn lemma_answer_place(b: Board, u: int, d: u8) -> (p: int)
    requires
        b.wf(),
        b.sound(),
        0 <= u < 27,
        1 <= d <= 9,
        b.places(u, d, 9) != 0,
    ensures
        0 <= p < 9,
        b.cells[unit_cell(u, p)].answer == Some(d),
        has_bit(b.places(u, d, 9), p as u16),
{
    let p = b.lemma_unit_holds(u, d);
    let q = unit_cell(u, p);
    b.lemma_places(u, d, 9);
    lemma_unit_cells(u, p, p);
    assert(b.cells[q].wf());
    if b.cells[q].value != 0 {
        crate::mask::lemma_nine_bits(b.places(u, d, 9));
        let x = choose|x: u16| x < 9 && has_bit(b.places(u, d, 9), x);
        let other = unit_cell(u, x as int);
        assert(b.cells[other].permits(d));
        lemma_unit_cells(u, p, x as int);
        assert(b.clash(q, other));
        assert(false);
    }
    assert(b.cells[q].permits(d));
    p
}

/// The two squares of a hidden pair have its two digits for known answers, so that
/// they lose no answer with their other candidates.
pub proof fn lemma_hidden_pair_sound(b: Board, u: int, m: int)
    requires
        b.wf(),
        b.sound(),
        0 <= u < 27,
        0 <= m < 81,
        hidden_pair_at_digits(b, u, m),
    ensures
        b.spares(
            u,
            ALL_CANDIDATES & !b.places(u, (m / 9 + 1) as u8, 9),
            ALL_CANDIDATES & !(digit_mask((m / 9 + 1) as u8) | digit_mask((m % 9 + 1) as u8)),
        ),
{
    let first = (m / 9 + 1) as u8;
    let second = (m % 9 + 1) as u8;
    let found = b.places(u, first, 9);
    let skip = ALL_CANDIDATES & !found;
    let both = digit_mask(first) | digit_mask(second);
    let bits = ALL_CANDIDATES & !both;
    lemma_constant_masks();
    lemma_clear(ALL_CANDIDATES, found);
    lemma_clear(ALL_CANDIDATES, both);
    lemma_single_bit((first - 1) as u16);
    lemma_single_bit((second - 1) as u16);
    lemma_union(digit_mask(first), digit_mask(second));
    let holds_first = lemma_answer_place(b, u, first);
    let holds_second = lemma_answer_place(b, u, second);
    assert(holds_first != holds_second);
    assert forall|p: int| 0 <= p < 9 && !has_bit(skip, p as u16) implies !allows(
        bits,
        (#[trigger] b.cells[unit_cell(u, p)]).answer->0,
    ) by {
        assert(has_bit(skip, p as u16) == (has_bit(ALL_CANDIDATES, p as u16) && !has_bit(
            found,
            p as u16,
        )));
        assert(has_bit(found, p as u16));
        assert(p == holds_first || p == holds_second);
        let a = b.cells[unit_cell(u, p)].answer->0;
        assert(a == first || a == second);
        assert(has_bit(bits, (a - 1) as u16) == (has_bit(ALL_CANDIDATES, (a - 1) as u16)
            && !has_bit(both, (a - 1) as u16)));
        assert(has_bit(both, (a - 1) as u16) == (has_bit(digit_mask(first), (a - 1) as u16)
            || has_bit(digit_mask(second), (a - 1) as u16)));
    }
}

/// Makes the attempt at group `u` and tells whether the grid changed.
pub fn try_hidden_pair(grid: &mut Grid, u: usize) -> (changed: bool)
    requires
        old(grid)@.wf(),
        u < 27,
    ensures
        final(grid)@ == hidden_pair_at(old(grid)@, u as int),
        old(grid)@.advances(final(grid)@),
        changed == (final(grid)@ != old(grid)@),
        old(grid)@.promoted() ==> final(grid)@.promoted(),
        old(grid)@.sound() ==> final(grid)@.sound(),
{
    proof {
        old(grid)@.lemma_advances_self();
    }
    let ghost p = |m: int| hidden_pair_at_digits(grid@, u as int, m);
    let mut m: usize = 0;
    while m < 81
        invariant
            m <= 81,
            u < 27,
            p == (|m: int| hidden_pair_at_digits(grid@, u as int, m)),
            forall|t: int| 0 <= t < m ==> !#[trigger] p(t),
        ensures
            m <= 81,
            m < 81 ==> p(m as int),
        decreases 81 - m,
    {
        let i: usize = m / 9;
        let j: usize = m % 9;
        if i < j {
            let first: u16 = grid.places(u, (i + 1) as u8);
            if count_candidates(first) == 2 {
                let second: u16 = grid.places(u, (j + 1) as u8);
                if first == second {
                    assert(p(m as int));
                    break;
                }
            }
        }
        assert(!p(m as int));
        m = m + 1;
    }
    proof {
        lemma_first_hit(p, 0, 81, m as int);
    }
    if !grid.is_valid() || m >= 81 {
        return false;
    }
    let first: u8 = (m / 9 + 1) as u8;
    let second: u8 = (m % 9 + 1) as u8;
    let skip: u16 = ALL_CANDIDATES & !grid.places(u, first);
    let bits: u16 = ALL_CANDIDATES & !(mask_of(first) | mask_of(second));
    proof {
        if grid@.sound() {
            lemma_hidden_pair_sound(grid@, u as int, m as int);
        }
    }
    grid.strike(u, skip, bits)
}

/// Applies the first hidden pair that changes the grid, the groups taken in the
/// order rows, columns, regions.
pub fn step_hidden_pair(grid: &mut Grid) -> (changed: bool)
    requires
        old(grid)@.wf(),
    ensures
        final(grid)@ == Rule::HiddenPair.step(old(grid)@),
        old(grid)@.advances(final(grid)@),
        changed == (final(grid)@ != old(grid)@),
        old(grid)@.promoted() ==> final(grid)@.promoted(),
        old(grid)@.sound() ==> final(grid)@.sound(),
{
    run_rule(Rule::HiddenPair, grid, true)
}

/// Applies the first hidden pair of every group, group by group.
pub fn solve_hidden_pair(grid: &mut Grid) -> (changed: bool)
    requires
        old(grid)@.wf(),
    ensures
        final(grid)@ == Rule::HiddenPair.apply(old(grid)@),
        old(grid)@.advances(final(grid)@),
        changed == (final(grid)@ != old(grid)@),
        old(grid)@.promoted() ==> final(grid)@.promoted(),
        old(grid)@.sound() ==> final(grid)@.sound(),
{
    run_rule(Rule::HiddenPair, grid, false)
}

} // verus!
