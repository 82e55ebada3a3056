//! X-Wing: a digit with the same two places in two parallel lines is struck from
//! the rest of the two lines that cross at those places.

use crate::board::Board;
use crate::grid::Grid;
use crate::mask::{
    allows, count, count_candidates, digit_mask, first_candidate, has_bit, lemma_clear,
    lemma_constant_masks, lemma_nine_bits, lemma_single_bit, lemma_union, lowest_digit, mask_of,
};
use crate::position::{col_of, lemma_unit_cells, peers, row_of, unit_cell};
use crate::solvers::hidden_pair::lemma_answer_place;
use crate::solvers::{run_rule, Rule};
use vstd::prelude::*;

verus! {

/// The line that crosses the lines of orientation `o` at their place `c`: a column
/// for rows (`o` is 0), a row for columns.
pub open spec fn cross_unit(o: int, c: int) -> int {
    if o == 0 {
        9 + c
    } else {
        c
    }
}

/// The attempt at site `n`, which stands for the orientation `n / 729`, the lines
/// `(n / 81) % 9` and `n % 9` and the digit `(n / 9) % 9 + 1`: where the first line
/// comes before the second and the digit has the same places in both, two in
/// number, it is struck from the two crossing lines outside the two lines.
pub open spec fn x_wing_at(b: Board, n: int) -> Board {
    let o = n / 729;
    let first = (n / 81) % 9;
    let d = ((n / 9) % 9 + 1) as u8;
    let second = n % 9;
    let found = b.places(9 * o + first, d, 9);
    if b.valid() && first < second && count(found) == 2 && found == b.places(
        9 * o + second,
        d,
        9,
    ) {
        let c1 = lowest_digit(found) - 1;
        let c2 = lowest_digit(found & !(1u16 << (c1 as u16))) - 1;
        let skip = (1u16 << (first as u16)) | (1u16 << (second as u16));
        b.strike(cross_unit(o, c1), skip, digit_mask(d), 0).strike(
            cross_unit(o, c2),
            skip,
            digit_mask(d),
            0,
        )
    } else {
        b
    }
}

/// The square at place `q` of line `first` and the square at place `p` of the line
/// that crosses at `q` are peers, unless `p` is that line.
proof fn lemma_cross_peers(o: int, first: int, q: int, p: int)
    requires
        0 <= o < 2,
        0 <= first < 9,
        0 <= q < 9,
        0 <= p < 9,
        p != first,
    ensures
        0 <= cross_unit(o, q) < 27,
        peers(unit_cell(9 * o + first, q), unit_cell(cross_unit(o, q), p)),
{
    lemma_unit_cells(9 * o + first, q, q);
    lemma_unit_cells(cross_unit(o, q), p, p);
}

/// Two squares at the same place of two parallel lines are peers.
proof fn lemma_parallel_peers(o: int, first: int, second: int, q: int)
    requires
        0 <= o < 2,
        0 <= first < 9,
        0 <= second < 9,
        first != second,
        0 <= q < 9,
    ensures
        peers(unit_cell(9 * o + first, q), unit_cell(9 * o + second, q)),
{
    lemma_unit_cells(9 * o + first, q, q);
    lemma_unit_cells(9 * o + second, q, q);
}

/// In an X-Wing the digit is the known answer of one square at each of the two
/// places, one in each of the two lines, so that no other square of the two
/// crossing lines has it for answer.
pub proof fn lemma_x_wing_sound(b: Board, n: int)
    requires
        b.wf(),
        b.sound(),
        0 <= n < 1458,
        (n / 81) % 9 < n % 9,
        count(b.places(9 * (n / 729) + (n / 81) % 9, ((n / 9) % 9 + 1) as u8, 9)) == 2,
        b.places(9 * (n / 729) + (n / 81) % 9, ((n / 9) % 9 + 1) as u8, 9) == b.places(
            9 * (n / 729) + n % 9,
            ((n / 9) % 9 + 1) as u8,
            9,
        ),
    ensures
        ({
            let o = n / 729;
            let first = (n / 81) % 9;
            let d = ((n / 9) % 9 + 1) as u8;
            let second = n % 9;
            let found = b.places(9 * o + first, d, 9);
            let c1 = lowest_digit(found) - 1;
            let c2 = lowest_digit(found & !(1u16 << (c1 as u16))) - 1;
            let skip = (1u16 << (first as u16)) | (1u16 << (second as u16));
            &&& 0 <= c1 < 9 && 0 <= c2 < 9
            &&& b.spares(cross_unit(o, c1), skip, digit_mask(d))
            &&& b.spares(cross_unit(o, c2), skip, digit_mask(d))
        }),
{
    let o = n / 729;
    let first = (n / 81) % 9;
    let d = ((n / 9) % 9 + 1) as u8;
    let second = n % 9;
    let found = b.places(9 * o + first, d, 9);
    b.lemma_places(9 * o + first, d, 9);
    lemma_nine_bits(found);
    lemma_constant_masks();
    let c1 = lowest_digit(found) - 1;
    let rest = found & !(1u16 << (c1 as u16));
    lemma_single_bit(c1 as u16);
    lemma_clear(found, 1u16 << (c1 as u16));
    assert(forall|i: u16| i < 9 ==> has_bit(rest, i) == (has_bit(found, i) && i != c1));
    lemma_nine_bits(rest);
    let c2 = lowest_digit(rest) - 1;
    assert(0 <= c1 < 9 && 0 <= c2 < 9 && c1 != c2);
    assert(has_bit(found, c1 as u16) && has_bit(found, c2 as u16));
    let skip = (1u16 << (first as u16)) | (1u16 << (second as u16));
    lemma_single_bit(first as u16);
    lemma_single_bit(second as u16);
    lemma_union(1u16 << (first as u16), 1u16 << (second as u16));
    lemma_single_bit((d - 1) as u16);
    let qa = lemma_answer_place(b, 9 * o + first, d);
    let qb = lemma_answer_place(b, 9 * o + second, d);
    assert(qa == c1 || qa == c2);
    assert(qb == c1 || qb == c2);
    if qa == qb {
        lemma_parallel_peers(o, first, second, qa);
        lemma_unit_cells(9 * o + first, qa, qa);
        lemma_unit_cells(9 * o + second, qa, qa);
        assert(false);
    }
    assert forall|c: int| c == c1 || c == c2 implies #[trigger] b.spares(
        cross_unit(o, c),
        skip,
        digit_mask(d),
    ) by {
        let line = if qa == c {
            first
        } else {
            second
        };
        let holder = unit_cell(9 * o + line, c);
        assert(b.cells[holder].answer == Some(d));
        assert forall|p: int| 0 <= p < 9 && !has_bit(skip, p as u16) implies !allows(
            digit_mask(d),
            (#[trigger] b.cells[unit_cell(cross_unit(o, c), p)]).answer->0,
        ) by {
            assert(has_bit(skip, p as u16) == (has_bit(1u16 << (first as u16), p as u16)
                || has_bit(1u16 << (second as u16), p as u16)));
            assert(p != first && p != second);
            lemma_cross_peers(o, line, c, p);
            let target = unit_cell(cross_unit(o, c), p);
            lemma_unit_cells(cross_unit(o, c), p, p);
            assert(b.cells[target].wf());
            let a = b.cells[target].answer->0;
            assert(a != d);
            assert(has_bit(digit_mask(d), (a - 1) as u16) == ((a - 1) as u16 == (d - 1) as u16));
        }
    }
    assert(b.spares(cross_unit(o, c1), skip, digit_mask(d)));
    assert(b.spares(cross_unit(o, c2), skip, digit_mask(d)));
}

/// Makes the attempt at site `n` and tells whether the grid changed.
pub fn try_x_wing(grid: &mut Grid, n: usize) -> (changed: bool)
    requires
        old(grid)@.wf(),
        n < 1458,
    ensures
        final(grid)@ == x_wing_at(old(grid)@, n as int),
        old(grid)@.advances(final(grid)@),
        changed == (final(grid)@ != old(grid)@),
        old(grid)@.promoted() ==> final(grid)@.promoted(),
        old(grid)@.sound() ==> final(grid)@.sound(),
{
    proof {
        old(grid)@.lemma_advances_self();
    }
    let o: usize = n / 729;
    let first: usize = (n / 81) % 9;
    let d: u8 = ((n / 9) % 9 + 1) as u8;
    let second: usize = n % 9;
    if !grid.is_valid() || first >= second {
        return false;
    }
    let found: u16 = grid.places(9 * o + first, d);
    if count_candidates(found) != 2 {
        return false;
    }
    if found != grid.places(9 * o + second, d) {
        return false;
    }
    proof {
        lemma_nine_bits(found);
    }
    let c1: usize = (first_candidate(found) - 1) as usize;
    let rest: u16 = found & !(1u16 << (c1 as u16));
    proof {
        lemma_single_bit(c1 as u16);
        lemma_clear(found, 1u16 << (c1 as u16));
        assert(forall|i: u16| i < 9 ==> has_bit(rest, i) == (has_bit(found, i) && i != c1));
        lemma_nine_bits(rest);
    }
    let c2: usize = (first_candidate(rest) - 1) as usize;
    let skip: u16 = (1u16 << (first as u16)) | (1u16 << (second as u16));
    let bit: u16 = mask_of(d);
    let u1: usize = if o == 0 {
        9 + c1
    } else {
        c1
    };
    let u2: usize = if o == 0 {
        9 + c2
    } else {
        c2
    };
    let ghost before = grid@;
    proof {
        if before.sound() {
            lemma_x_wing_sound(before, n as int);
        }
    }
    let one: bool = grid.strike(u1, skip, bit);
    let ghost mid = grid@;
    proof {
        if before.sound() {
            before.lemma_spares_kept(mid, u2 as int, skip, bit);
        }
    }
    let two: bool = grid.strike(u2, skip, bit);
    proof {
        before.lemma_advances_trans(mid, grid@);
    }
    one || two
}

/// Applies the first X-Wing that changes the grid: over the rows first, then over
/// the columns.
pub fn step_x_wing(grid: &mut Grid) -> (changed: bool)
    requires
        old(grid)@.wf(),
    ensures
        final(grid)@ == Rule::XWing.step(old(grid)@),
        old(grid)@.advances(final(grid)@),
        changed == (final(grid)@ != old(grid)@),
        old(grid)@.promoted() ==> final(grid)@.promoted(),
        old(grid)@.sound() ==> final(grid)@.sound(),
{
    run_rule(Rule::XWing, grid, true)
}

/// Applies every X-Wing, site by site.
pub fn solve_x_wing(grid: &mut Grid) -> (changed: bool)
    requires
        old(grid)@.wf(),
    ensures
        final(grid)@ == Rule::XWing.apply(old(grid)@),
        old(grid)@.advances(final(grid)@),
        changed == (final(grid)@ != old(grid)@),
        old(grid)@.promoted() ==> final(grid)@.promoted(),
        old(grid)@.sound() ==> final(grid)@.sound(),
{
    run_rule(Rule::XWing, grid, false)
}

} // verus!
