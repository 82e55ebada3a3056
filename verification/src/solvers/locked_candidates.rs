//! Locked candidates: where a line and a region cross, a digit confined to the
//! crossing in one of them cannot stand elsewhere in the other.

use crate::board::Board;
use crate::grid::Grid;
use crate::mask::{
    allows, digit_mask, first_candidate, has_bit, lemma_clear, lemma_nine_bits, lemma_region_line,
    lemma_single_bit, lemma_union, lemma_within, lowest_digit, mask_of,
};
use crate::position::{
    col_of, group_cell, lemma_compose, lemma_region_cell, lemma_unit_cells, peers, region_of,
    row_of, unit_cell,
};
use crate::solvers::hidden_pair::lemma_answer_place;
use crate::solvers::{run_rule, Rule};
use vstd::prelude::*;

verus! {

/// The candidates found in segment `sg` of line `u`: its squares at the places
/// `3 * sg` to `3 * sg + 2`.
pub open spec fn segment_mask(b: Board, u: int, sg: int) -> u16 {
    b.cells[unit_cell(u, 3 * sg)].candidates | b.cells[unit_cell(u, 3 * sg + 1)].candidates
        | b.cells[unit_cell(u, 3 * sg + 2)].candidates
}

/// The digits that line `u` permits in segment `sg` and in neither of its other
/// two segments.
pub open spec fn segment_only(b: Board, u: int, sg: int) -> u16 {
    segment_mask(b, u, sg) & !segment_mask(b, u, (sg + 1) % 3) & !segment_mask(
        b,
        u,
        (sg + 2) % 3,
    )
}

/// The region that holds segment `sg` of line `u`, as a group.
pub open spec fn segment_region(u: int, sg: int) -> int {
    if u < 9 {
        18 + 3 * (u / 3) + sg
    } else {
        18 + 3 * sg + (u - 9) / 3
    }
}

/// The places that the squares of line `u` take in a region they cross.
pub open spec fn line_places(u: int) -> u16 {
    if u < 9 {
        7u16 << ((3 * (u % 3)) as u16)
    } else {
        0x49u16 << (((u - 9) % 3) as u16)
    }
}

/// The attempt for segment `n % 3` of line `n / 3`, a row or a column: the digits
/// that the line permits in this segment alone are struck from the rest of the
/// segment's region.
pub open spec fn line_to_region_at(b: Board, n: int) -> Board {
    if b.valid() {
        b.strike(segment_region(n / 3, n % 3), line_places(n / 3), segment_only(b, n / 3, n % 3), 0)
    } else {
        b
    }
}

/// The attempt for region `q / 18`, digit `(q / 2) % 9 + 1` and, by `q % 2`, its
/// rows or its columns: where every square of the region that permits the digit
/// lies in one line, the digit is struck from that line outside the region.
pub open spec fn region_to_line_at(b: Board, q: int) -> Board {
    let r = q / 18;
    let d = ((q / 2) % 9 + 1) as u8;
    let found = b.places(18 + r, d, 9);
    let first = lowest_digit(found) - 1;
    if !b.valid() || found == 0 {
        b
    } else if q % 2 == 0 {
        if found & !(7u16 << ((3 * (first / 3)) as u16)) == 0 {
            b.strike(3 * (r / 3) + first / 3, 7u16 << ((3 * (r % 3)) as u16), digit_mask(d), 0)
        } else {
            b
        }
    } else {
        if found & !(0x49u16 << ((first % 3) as u16)) == 0 {
            b.strike(9 + 3 * (r % 3) + first % 3, 7u16 << ((3 * (r / 3)) as u16), digit_mask(d), 0)
        } else {
            b
        }
    }
}

/// The attempt at site `n`: the sites below 54 go from a line to a region, rows
/// first; the others from a region to a line.
pub open spec fn locked_candidates_at(b: Board, n: int) -> Board {
    if n < 54 {
        line_to_region_at(b, n)
    } else {
        region_to_line_at(b, n - 54)
    }
}

/// A digit among the candidates of a segment is a candidate of one of its squares.
proof fn lemma_segment_mask(b: Board, u: int, sg: int, d: u8) -> (q: int)
    requires
        allows(segment_mask(b, u, sg), d),
    ensures
        3 * sg <= q < 3 * sg + 3,
        allows(b.cells[unit_cell(u, q)].candidates, d),
{
    let c0 = b.cells[unit_cell(u, 3 * sg)].candidates;
    let c1 = b.cells[unit_cell(u, 3 * sg + 1)].candidates;
    let c2 = b.cells[unit_cell(u, 3 * sg + 2)].candidates;
    lemma_union(c0, c1);
    lemma_union(c0 | c1, c2);
    let i = (d - 1) as u16;
    assert(has_bit((c0 | c1) | c2, i) == (has_bit(c0 | c1, i) || has_bit(c2, i)));
    assert(has_bit(c0 | c1, i) == (has_bit(c0, i) || has_bit(c1, i)));
    if allows(c0, d) {
        3 * sg
    } else if allows(c1, d) {
        3 * sg + 1
    } else {
        3 * sg + 2
    }
}

/// A candidate of a square of a segment is among the candidates of the segment.
proof fn lemma_in_segment_mask(b: Board, u: int, sg: int, q: int, d: u8)
    requires
        3 * sg <= q < 3 * sg + 3,
        allows(b.cells[unit_cell(u, q)].candidates, d),
    ensures
        allows(segment_mask(b, u, sg), d),
{
    let c0 = b.cells[unit_cell(u, 3 * sg)].candidates;
    let c1 = b.cells[unit_cell(u, 3 * sg + 1)].candidates;
    let c2 = b.cells[unit_cell(u, 3 * sg + 2)].candidates;
    lemma_union(c0, c1);
    lemma_union(c0 | c1, c2);
    let i = (d - 1) as u16;
    assert(has_bit((c0 | c1) | c2, i) == (has_bit(c0 | c1, i) || has_bit(c2, i)));
    assert(has_bit(c0 | c1, i) == (has_bit(c0, i) || has_bit(c1, i)));
}

/// Where a line crosses a region: the square at place `q` of segment `sg` of line
/// `u` lies in the region of that segment, and the square of that region at a place
/// `p` off the line is another square.
proof fn lemma_crossing(u: int, sg: int, q: int, p: int)
    requires
        0 <= u < 18,
        0 <= sg < 3,
        3 * sg <= q < 3 * sg + 3,
        0 <= p < 9,
        !has_bit(line_places(u), p as u16),
    ensures
        18 <= segment_region(u, sg) < 27,
        region_of(unit_cell(u, q)) == segment_region(u, sg) - 18,
        region_of(unit_cell(segment_region(u, sg), p)) == segment_region(u, sg) - 18,
        unit_cell(segment_region(u, sg), p) != unit_cell(u, q),
        0 <= unit_cell(u, q) < 81,
        0 <= unit_cell(segment_region(u, sg), p) < 81,
{
    let r = segment_region(u, sg) - 18;
    lemma_region_cell(r, p);
    lemma_unit_cells(u, q, q);
    lemma_unit_cells(segment_region(u, sg), p, p);
    if u < 9 {
        lemma_compose(u, q);
        lemma_region_line(u % 3, p);
        assert(r / 3 == u / 3);
        assert(p / 3 != u % 3);
        assert(row_of(unit_cell(segment_region(u, sg), p)) != u);
    } else {
        let c = u - 9;
        lemma_compose(q, c);
        lemma_region_line(c % 3, p);
        assert(r % 3 == c / 3);
        assert(p % 3 != c % 3);
        assert(col_of(unit_cell(segment_region(u, sg), p)) != c);
    }
}

/// A digit that a line permits in one segment alone is the known answer of a
/// square of that segment, so that no other square of the segment's region has it
/// for answer.
pub proof fn lemma_line_to_region_sound(b: Board, n: int)
    requires
        b.wf(),
        b.sound(),
        0 <= n < 54,
    ensures
        b.spares(segment_region(n / 3, n % 3), line_places(n / 3), segment_only(b, n / 3, n % 3)),
{
    let u = n / 3;
    let sg = n % 3;
    let here = segment_mask(b, u, sg);
    let next = segment_mask(b, u, (sg + 1) % 3);
    let last = segment_mask(b, u, (sg + 2) % 3);
    let only = segment_only(b, u, sg);
    lemma_clear(here, next);
    lemma_clear(here & !next, last);
    assert forall|p: int| 0 <= p < 9 && !has_bit(line_places(u), p as u16) implies !allows(
        only,
        (#[trigger] b.cells[unit_cell(segment_region(u, sg), p)]).answer->0,
    ) by {
        let target = unit_cell(segment_region(u, sg), p);
        lemma_crossing(u, sg, 3 * sg, p);
        assert(b.cells[target].wf());
        let a = b.cells[target].answer->0;
        if allows(only, a) {
            let i = (a - 1) as u16;
            assert(has_bit((here & !next) & !last, i) == (has_bit(here & !next, i) && !has_bit(
                last,
                i,
            )));
            assert(has_bit(here & !next, i) == (has_bit(here, i) && !has_bit(next, i)));
            assert(allows(here, a) && !allows(next, a) && !allows(last, a));
            let x = lemma_segment_mask(b, u, sg, a);
            let q = b.lemma_unit_holds(u, a);
            let holder = unit_cell(u, q);
            lemma_unit_cells(u, q, x);
            assert(b.cells[holder].wf());
            if q / 3 == sg {
                lemma_crossing(u, sg, q, p);
                assert(peers(holder, target));
                assert(false);
            } else {
                if b.cells[holder].value != 0 {
                    assert(b.clash(holder, unit_cell(u, x)));
                    assert(false);
                } else {
                    lemma_in_segment_mask(b, u, q / 3, q, a);
                    assert(q / 3 == (sg + 1) % 3 || q / 3 == (sg + 2) % 3);
                    assert(false);
                }
            }
        }
    }
}

/// Where every square of a region that permits a digit lies in one line, the known
/// answer of one of them is the digit, so that no square of the line outside the
/// region has it for answer.
pub proof fn lemma_region_to_line_sound(b: Board, q: int)
    requires
        b.wf(),
        b.sound(),
        0 <= q < 162,
        b.places(18 + q / 18, ((q / 2) % 9 + 1) as u8, 9) != 0,
    ensures
        ({
            let r = q / 18;
            let d = ((q / 2) % 9 + 1) as u8;
            let found = b.places(18 + r, d, 9);
            let first = lowest_digit(found) - 1;
            &&& q % 2 == 0 && found & !(7u16 << ((3 * (first / 3)) as u16)) == 0 ==> b.spares(
                3 * (r / 3) + first / 3,
                7u16 << ((3 * (r % 3)) as u16),
                digit_mask(d),
            )
            &&& q % 2 != 0 && found & !(0x49u16 << ((first % 3) as u16)) == 0 ==> b.spares(
                9 + 3 * (r % 3) + first % 3,
                7u16 << ((3 * (r / 3)) as u16),
                digit_mask(d),
            )
        }),
{
    let r = q / 18;
    let d = ((q / 2) % 9 + 1) as u8;
    let found = b.places(18 + r, d, 9);
    let first = lowest_digit(found) - 1;
    b.lemma_places(18 + r, d, 9);
    lemma_nine_bits(found);
    lemma_single_bit((d - 1) as u16);
    let pa = lemma_answer_place(b, 18 + r, d);
    let holder = unit_cell(18 + r, pa);
    lemma_region_cell(r, pa);
    assert(0 <= first < 9);
    if q % 2 == 0 && found & !(7u16 << ((3 * (first / 3)) as u16)) == 0 {
        let t = first / 3;
        let line = 3 * (r / 3) + t;
        let skip = 7u16 << ((3 * (r % 3)) as u16);
        lemma_within(found, 7u16 << ((3 * t) as u16));
        lemma_region_line(t, pa);
        assert(has_bit(7u16 << ((3 * t) as u16), pa as u16));
        assert(pa / 3 == t);
        assert forall|p: int| 0 <= p < 9 && !has_bit(skip, p as u16) implies !allows(
            digit_mask(d),
            (#[trigger] b.cells[unit_cell(line, p)]).answer->0,
        ) by {
            let target = unit_cell(line, p);
            lemma_unit_cells(line, p, p);
            lemma_compose(line, p);
            lemma_region_line(r % 3, p);
            assert(p / 3 != r % 3);
            assert(row_of(holder) == line);
            assert(col_of(holder) != p);
            assert(peers(holder, target));
            let a = b.cells[target].answer->0;
            assert(a != d);
            assert(b.cells[target].wf());
            assert(has_bit(digit_mask(d), (a - 1) as u16) == ((a - 1) as u16 == (d - 1) as u16));
        }
    }
    if q % 2 != 0 && found & !(0x49u16 << ((first % 3) as u16)) == 0 {
        let t = first % 3;
        let line = 9 + 3 * (r % 3) + t;
        let skip = 7u16 << ((3 * (r / 3)) as u16);
        lemma_within(found, 0x49u16 << (t as u16));
        lemma_region_line(t, pa);
        assert(has_bit(0x49u16 << (t as u16), pa as u16));
        assert(pa % 3 == t);
        assert forall|p: int| 0 <= p < 9 && !has_bit(skip, p as u16) implies !allows(
            digit_mask(d),
            (#[trigger] b.cells[unit_cell(line, p)]).answer->0,
        ) by {
            let target = unit_cell(line, p);
            lemma_unit_cells(line, p, p);
            lemma_compose(p, line - 9);
            lemma_region_line(r / 3, p);
            assert(p / 3 != r / 3);
            assert(col_of(holder) == line - 9);
            assert(row_of(holder) != p);
            assert(peers(holder, target));
            let a = b.cells[target].answer->0;
            assert(a != d);
            assert(b.cells[target].wf());
            assert(has_bit(digit_mask(d), (a - 1) as u16) == ((a - 1) as u16 == (d - 1) as u16));
        }
    }
}

/// The candidates found in segment `sg` of line `u`.
fn segment_candidates(grid: &Grid, u: usize, sg: usize) -> (m: u16)
    requires
        u < 18,
        sg < 3,
    ensures
        m == segment_mask(grid@, u as int, sg as int),
{
    grid.cells[group_cell(u, 3 * sg)].candidates | grid.cells[group_cell(u, 3 * sg + 1)].candidates
        | grid.cells[group_cell(u, 3 * sg + 2)].candidates
}

/// Makes the attempt from a line to a region at site `n`.
fn try_line_to_region(grid: &mut Grid, n: usize) -> (changed: bool)
    requires
        old(grid)@.wf(),
        n < 54,
    ensures
        final(grid)@ == line_to_region_at(old(grid)@, n as int),
        old(grid)@.advances(final(grid)@),
        changed == (final(grid)@ != old(grid)@),
        old(grid)@.promoted() ==> final(grid)@.promoted(),
        old(grid)@.sound() ==> final(grid)@.sound(),
{
    proof {
        old(grid)@.lemma_advances_self();
    }
    if !grid.is_valid() {
        return false;
    }
    let u: usize = n / 3;
    let sg: usize = n % 3;
    let here: u16 = segment_candidates(grid, u, sg);
    let next: u16 = segment_candidates(grid, u, (sg + 1) % 3);
    let last: u16 = segment_candidates(grid, u, (sg + 2) % 3);
    let only: u16 = here & !next & !last;
    let region: usize = if u < 9 {
        18 + 3 * (u / 3) + sg
    } else {
        18 + 3 * sg + (u - 9) / 3
    };
    let skip: u16 = if u < 9 {
        7u16 << ((3 * (u % 3)) as u16)
    } else {
        0x49u16 << (((u - 9) % 3) as u16)
    };
    proof {
        if grid@.sound() {
            lemma_line_to_region_sound(grid@, n as int);
        }
    }
    grid.strike(region, skip, only)
}

/// Makes the attempt from a region to a line at site `q`.
fn try_region_to_line(grid: &mut Grid, q: usize) -> (changed: bool)
    requires
        old(grid)@.wf(),
        q < 162,
    ensures
        final(grid)@ == region_to_line_at(old(grid)@, q as int),
        old(grid)@.advances(final(grid)@),
        changed == (final(grid)@ != old(grid)@),
        old(grid)@.promoted() ==> final(grid)@.promoted(),
        old(grid)@.sound() ==> final(grid)@.sound(),
{
    proof {
        old(grid)@.lemma_advances_self();
    }
    let r: usize = q / 18;
    let d: u8 = ((q / 2) % 9 + 1) as u8;
    if !grid.is_valid() {
        return false;
    }
    let found: u16 = grid.places(18 + r, d);
    if found == 0 {
        return false;
    }
    proof {
        lemma_nine_bits(found);
        if grid@.sound() {
            lemma_region_to_line_sound(grid@, q as int);
        }
    }
    let first: usize = (first_candidate(found) - 1) as usize;
    let bit: u16 = mask_of(d);
    if q % 2 == 0 {
        if found & !(7u16 << ((3 * (first / 3)) as u16)) == 0 {
            return grid.strike(3 * (r / 3) + first / 3, 7u16 << ((3 * (r % 3)) as u16), bit);
        }
    } else {
        if found & !(0x49u16 << ((first % 3) as u16)) == 0 {
            return grid.strike(9 + 3 * (r % 3) + first % 3, 7u16 << ((3 * (r / 3)) as u16), bit);
        }
    }
    false
}

/// Makes the attempt at site `n` and tells whether the grid changed.
pub fn try_locked_candidates(grid: &mut Grid, n: usize) -> (changed: bool)
    requires
        old(grid)@.wf(),
        n < 216,
    ensures
        final(grid)@ == locked_candidates_at(old(grid)@, n as int),
        old(grid)@.advances(final(grid)@),
        changed == (final(grid)@ != old(grid)@),
        old(grid)@.promoted() ==> final(grid)@.promoted(),
        old(grid)@.sound() ==> final(grid)@.sound(),
{
    if n < 54 {
        try_line_to_region(grid, n)
    } else {
        try_region_to_line(grid, n - 54)
    }
}

/// Applies the first locked-candidates deduction that changes the grid: first from
/// the rows and from the columns to the regions, then from the regions to their
/// lines.
pub fn step_locked_candidates(grid: &mut Grid) -> (changed: bool)
    requires
        old(grid)@.wf(),
    ensures
        final(grid)@ == Rule::LockedCandidates.step(old(grid)@),
        old(grid)@.advances(final(grid)@),
        changed == (final(grid)@ != old(grid)@),
        old(grid)@.promoted() ==> final(grid)@.promoted(),
        old(grid)@.sound() ==> final(grid)@.sound(),
{
    run_rule(Rule::LockedCandidates, grid, true)
}

/// Applies every locked-candidates deduction, site by site.
pub fn solve_locked_candidates(grid: &mut Grid) -> (changed: bool)
    requires
        old(grid)@.wf(),
    ensures
        final(grid)@ == Rule::LockedCandidates.apply(old(grid)@),
        old(grid)@.advances(final(grid)@),
        changed == (final(grid)@ != old(grid)@),
        old(grid)@.promoted() ==> final(grid)@.promoted(),
        old(grid)@.sound() ==> final(grid)@.sound(),
{
    run_rule(Rule::LockedCandidates, grid, false)
}

} // verus!
