//! The grid: 81 squares, and the operations that keep its invariants.

use crate::board::{
    blank_table, digit_of, filled, given_count, is_blank, is_solution, lemma_mask_sum_update,
    read_table, Board, BoardState,
};
use crate::text::chars_of;
use crate::cell::Cell;
use crate::mask::{
    allows, count, count_candidates, digit_mask, first_candidate, has_bit, lemma_clear,
    lemma_constant_masks, lemma_nine_bits, lowest_digit, mask_allows, mask_of, ALL_CANDIDATES,
};
use crate::position::{
    group_cell, group_cells, lemma_decompose, lemma_slot_sees, lemma_slots_cover, peer_slot, peers,
    slot_cell, slot_of, unit_cell, Position,
};
use vstd::prelude::*;

verus! {

/// A Sudoku grid.
pub struct Grid {
    /// The squares, row by row.
    pub cells: [Cell; 81],
    /// How many givens the puzzle started with.
    pub starting_cell_count: usize,
    /// Whether a square left with a single candidate takes it at once.
    pub auto_promote: bool,
    pub current_state: BoardState,
}

impl View for Grid {
    type V = Board;

    open spec fn view(&self) -> Board {
        Board {
            cells: self.cells@,
            starting_cell_count: self.starting_cell_count,
            auto_promote: self.auto_promote,
            state: self.current_state,
        }
    }
}

/// Whether two squares are peers.
pub fn share_group(i: usize, j: usize) -> (r: bool)
    requires
        i < 81,
        j < 81,
    ensures
        r == peers(i as int, j as int),
{
    i != j && (i / 9 == j / 9 || i % 9 == j % 9 || (i / 27) * 3 + (i % 9) / 3 == (j / 27) * 3 + (j
        % 9) / 3)
}

/// The known answers of a grid, row by row, as one list.
pub open spec fn answers_of(answer: Option<[[u8; 9]; 9]>) -> Option<Seq<u8>> {
    match answer {
        Some(a) => Some(Seq::new(81, |i: int| a[i / 9][i % 9])),
        None => None,
    }
}

/// The digit that a character from `1` to `9` stands for; 0 for any other.
pub fn char_digit(ch: char) -> (d: u8)
    ensures
        d == digit_of(ch),
        d <= 9,
{
    if ch == '1' {
        1
    } else if ch == '2' {
        2
    } else if ch == '3' {
        3
    } else if ch == '4' {
        4
    } else if ch == '5' {
        5
    } else if ch == '6' {
        6
    } else if ch == '7' {
        7
    } else if ch == '8' {
        8
    } else if ch == '9' {
        9
    } else {
        0
    }
}

/// The table of givens that a text describes.
pub fn read_givens(text: &Vec<char>) -> (t: [char; 81])
    ensures
        t@ == read_table(text@, 0, 0, 0, blank_table()),
{
    let mut t: [char; 81] = [' '; 81];
    let mut row: usize = 0;
    let mut col: usize = 0;
    let mut i: usize = 0;
    assert(t@ =~= blank_table());
    while i < text.len()
        invariant
            i <= text.len(),
            row <= i,
            col <= i,
            read_table(text@, i as int, row as int, col as int, t@) == read_table(
                text@,
                0,
                0,
                0,
                blank_table(),
            ),
        decreases text.len() - i,
    {
        let ch: char = text[i];
        if ch == '\n' {
            row = row + 1;
            col = 0;
        } else if ch == '|' {
        } else {
            if row < 9 && col < 9 {
                t[9 * row + col] = ch;
            }
            col = col + 1;
        }
        i = i + 1;
    }
    t
}

impl Grid {
    /// The grid that the text `input` describes, or none where it describes no
    /// consistent grid. Up to nine lines of up to nine squares are read; a digit
    /// from `1` to `9` is a given, `0` and the space are empty squares, a bar is
    /// passed over. With `answer`, every square gets its known answer.
    pub fn from_string(input: &str, answer: Option<[[u8; 9]; 9]>, auto_promote: bool) -> (r: Option<
        Grid,
    >)
        ensures
            r is Some <==> Board::parsed(input@, answers_of(answer), auto_promote) is Some,
            r matches Some(g) ==> {
                &&& g@ == Board::parsed(input@, answers_of(answer), auto_promote)->0
                &&& g@.wf()
                &&& g@.promoted()
                &&& g@.pruned()
                &&& g@.state == BoardState::Solving
                &&& (answer is Some && is_solution(answers_of(answer)->0) ==> g@.sound())
            },
    {
        let text: Vec<char> = chars_of(input);
        let table: [char; 81] = read_givens(&text);
        let mut grid: Grid = Grid::new();
        grid.auto_promote = auto_promote;
        let ghost start = grid@;
        assert(start == (Board { auto_promote, ..Board::empty() }));
        let mut givens: usize = 0;
        let mut i: usize = 0;
        while i < 81
            invariant
                i <= 81,
                givens == given_count(table@, i as int),
                givens <= i,
                grid@.wf(),
                grid@.promoted(),
                grid@.valid() ==> grid@.pruned(),
                grid@.state == BoardState::Constructing || grid@.state == BoardState::Invalid,
                grid@.auto_promote == auto_promote,
                grid@ == start.write_givens(table@, i as int),
            decreases 81 - i,
        {
            let ch: char = table[i];
            if ch == ' ' || ch == '0' {
            } else {
                givens = givens + 1;
                let d: u8 = char_digit(ch);
                if d == 0 {
                    grid.current_state = BoardState::Invalid;
                    assert(grid@ == start.write_givens(table@, i as int).invalidated());
                } else {
                    let ghost before = grid@;
                    grid.set_cell(Position::from_index(i), d);
                    if grid.is_valid() {
                        let ghost set = grid@;
                        grid.cells[i].is_given = true;
                        proof {
                            assert(grid@ =~= set.with_cell(
                                i as int,
                                Cell { is_given: true, ..set.cells[i as int] },
                            ));
                            assert forall|j: int| 0 <= j < 81 implies (#[trigger] grid@.cells[j]).wf() by {
                                assert(set.cells[j].wf());
                            }
                            assert forall|j: int, k: int|
                                0 <= j < 81 && 0 <= k < 81 && #[trigger] peers(j, k)
                                    && grid@.cells[j].value != 0 implies grid@.cells[j].value
                                != grid@.cells[k].value by {
                                assert(grid@.cells[j].value == set.cells[j].value);
                                assert(grid@.cells[k].value == set.cells[k].value);
                            }
                            if grid@.auto_promote {
                                assert forall|j: int|
                                    0 <= j < 81 && (#[trigger] grid@.cells[j]).value
                                        == 0 implies count(grid@.cells[j].candidates) != 1 by {
                                    assert(set.cells[j].value == 0);
                                }
                            }
                            assert forall|j: int, k: int| !#[trigger] grid@.clash(j, k) by {
                                if grid@.clash(j, k) {
                                    assert(set.clash(j, k));
                                    assert(before.clash(j, k));
                                }
                            }
                        }
                    }
                }
            }
            i = i + 1;
        }
        let ghost written = grid@;
        if !grid.is_valid() {
            return None;
        }
        match answer {
            Some(a) => {
                let ghost answers = answers_of(answer)->0;
                let ghost target = written.with_answers(answers);
                let mut consistent: bool = true;
                let mut i: usize = 0;
                while i < 81
                    invariant
                        i <= 81,
                        grid@ == written,
                        written.wf(),
                        answers == answers_of(Some(a))->0,
                        target == written.with_answers(answers),
                        consistent == (forall|j: int| 0 <= j < i ==> (#[trigger] target.cells[j]).wf()),
                    decreases 81 - i,
                {
                    let ans: u8 = a[i / 9][i % 9];
                    let cell: Cell = grid.cells[i];
                    assert(written.cells[i as int].wf());
                    assert(target.cells[i as int] == Cell { answer: Some(ans), ..cell });
                    if ans < 1 || ans > 9 {
                        consistent = false;
                    } else if cell.value != 0 {
                        if cell.value != ans {
                            consistent = false;
                        }
                    } else if !mask_allows(cell.candidates, ans) {
                        consistent = false;
                    }
                    i = i + 1;
                }
                if !consistent {
                    proof {
                        let j = choose|j: int| 0 <= j < 81 && !(#[trigger] target.cells[j]).wf();
                        assert(!target.cells[j].wf());
                        assert(!target.cells_wf());
                    }
                    return None;
                }
                let mut i: usize = 0;
                while i < 81
                    invariant
                        i <= 81,
                        grid.starting_cell_count == written.starting_cell_count,
                        grid.auto_promote == written.auto_promote,
                        grid.current_state == written.state,
                        answers == answers_of(Some(a))->0,
                        target == written.with_answers(answers),
                        written.cells.len() == 81,
                        forall|j: int| 0 <= j < i ==> (#[trigger] grid@.cells[j]) == target.cells[j],
                        forall|j: int| i <= j < 81 ==> (#[trigger] grid@.cells[j]) == written.cells[j],
                    decreases 81 - i,
                {
                    let ghost before = grid@.cells;
                    grid.cells[i].answer = Some(a[i / 9][i % 9]);
                    assert(grid@.cells =~= before.update(
                        i as int,
                        Cell { answer: Some(a[i as int / 9][i as int % 9]), ..before[i as int] },
                    ));
                    i = i + 1;
                }
                assert(grid@ =~= target);
            },
            None => {},
        }
        grid.starting_cell_count = givens;
        grid.current_state = BoardState::Solving;
        proof {
            let b = grid@;
            assert forall|j: int, k: int|
                0 <= j < 81 && 0 <= k < 81 && #[trigger] peers(j, k) && b.cells[j].value
                    != 0 implies b.cells[j].value != b.cells[k].value by {
                assert(b.cells[j].value == written.cells[j].value);
                assert(b.cells[k].value == written.cells[k].value);
            }
            if b.auto_promote {
                assert forall|j: int|
                    0 <= j < 81 && (#[trigger] b.cells[j]).value == 0 implies count(
                    b.cells[j].candidates,
                ) != 1 by {
                    assert(written.cells[j].value == 0);
                    assert(b.cells[j].candidates == written.cells[j].candidates);
                }
            }
            assert forall|j: int, k: int| !#[trigger] b.clash(j, k) by {
                if b.clash(j, k) {
                    assert(b.cells[j].value == written.cells[j].value);
                    assert(b.cells[k].candidates == written.cells[k].candidates);
                    assert(written.clash(j, k));
                }
            }
            if answer is Some && is_solution(answers_of(answer)->0) {
                let a = answers_of(answer)->0;
                assert forall|j: int| 0 <= j < 81 implies (#[trigger] b.cells[j]).answer == Some(
                    a[j],
                ) by {}
            }
        }
        Some(grid)
    }

    /// A copy of the grid without the value of square `skip` (81 and more skip
    /// none): the values are written to a fresh grid, so that the candidates are found
    /// anew. With `copy_answer` the copy has the known answers of this grid.
    pub fn copy_without(&self, skip: usize, copy_answer: bool, auto_promote: bool) -> (g: Grid)
        requires
            self@.wf(),
        ensures
            g@ == self@.copy_without(skip as int, copy_answer, auto_promote),
            g@.wf(),
            g@.promoted(),
            g@.auto_promote == auto_promote,
            g@.valid() ==> g@.pruned(),
            copy_answer && self@.answered() ==> g@.sound(),
            !auto_promote && g@.valid() ==> forall|j: int|
                0 <= j < 81 ==> (#[trigger] g@.cells[j]).value == if j == skip {
                    0
                } else {
                    self@.cells[j].value
                },
    {
        let mut g: Grid = Grid::new();
        g.auto_promote = auto_promote;
        if copy_answer {
            let mut i: usize = 0;
            while i < 81
                invariant
                    i <= 81,
                    self@.wf(),
                    g.starting_cell_count == 0,
                    g.auto_promote == auto_promote,
                    g.current_state == BoardState::Constructing,
                    forall|j: int|
                        0 <= j < i ==> (#[trigger] g@.cells[j]) == (Cell {
                            answer: self@.cells[j].answer,
                            ..Cell::blank()
                        }),
                    forall|j: int| i <= j < 81 ==> (#[trigger] g@.cells[j]) == Cell::blank(),
                decreases 81 - i,
            {
                let ghost before = g@.cells;
                g.cells[i].answer = self.cells[i].answer;
                assert(g@.cells =~= before.update(
                    i as int,
                    Cell { answer: self@.cells[i as int].answer, ..before[i as int] },
                ));
                i = i + 1;
            }
        }
        let ghost start = g@;
        proof {
            lemma_constant_masks();
            assert(forall|i: int, k: int| !#[trigger] g@.clash(i, k));
            assert(start =~= self@.fresh(copy_answer, auto_promote));
            assert forall|j: int| 0 <= j < 81 implies (#[trigger] start.cells[j]).wf() by {
                assert(self@.cells[j].wf());
            }
        }
        let mut i: usize = 0;
        while i < 81
            invariant
                i <= 81,
                self@.wf(),
                g@.wf(),
                g@.promoted(),
                g@.state == BoardState::Constructing || g@.state == BoardState::Invalid,
                g@ == self@.replayed(start, skip as int, i as int),
                start == self@.fresh(copy_answer, auto_promote),
                forall|j: int| 0 <= j < 81 ==> (#[trigger] g@.cells[j]).answer == start.cells[j].answer,
                copy_answer && self@.answered() ==> g@.valid(),
                g@.valid() ==> g@.pruned(),
                g@.auto_promote == auto_promote,
                !auto_promote && g@.valid() ==> forall|j: int|
                    0 <= j < 81 ==> (#[trigger] g@.cells[j]).value == if j == skip || j >= i {
                        0
                    } else {
                        self@.cells[j].value
                    },
            decreases 81 - i,
        {
            let v: u8 = self.cells[i].value;
            if v != 0 && i != skip {
                let ghost before = g@;
                proof {
                    assert(self@.cells[i as int].wf());
                    if copy_answer && self@.answered() {
                        assert(before.answered()) by {
                            assert forall|j: int| 0 <= j < 81 implies (#[trigger] before.cells[j]).answer
                                == self@.cells[j].answer by {}
                        }
                    }
                }
                g.set_cell(Position::from_index(i), v);
                proof {
                    assert forall|j: int| 0 <= j < 81 implies (#[trigger] g@.cells[j]).answer
                        == start.cells[j].answer by {
                        assert(g@.cells[j].narrows(before.cells[j]));
                    }
                    if g@.valid() {
                        assert forall|j: int, k: int| !#[trigger] g@.clash(j, k) by {
                            if g@.clash(j, k) {
                                assert(before.clash(j, k));
                            }
                        }
                    }
                }
            }
            i = i + 1;
        }
        proof {
            if copy_answer && self@.answered() {
                assert forall|j: int| 0 <= j < 81 implies (#[trigger] g@.cells[j]).answer
                    == self@.cells[j].answer by {}
            }
        }
        g
    }

    /// A copy of the grid: its values are written to a fresh grid, so that the
    /// candidates are found anew. With `copy_answer` the copy has the known answers
    /// of this grid.
    pub fn copy_grid(&self, copy_answer: bool, auto_promote: bool) -> (g: Grid)
        requires
            self@.wf(),
        ensures
            g@ == self@.copy_without(81, copy_answer, auto_promote),
            g@.wf(),
            g@.promoted(),
            g@.auto_promote == auto_promote,
            g@.valid() ==> g@.pruned(),
            copy_answer && self@.answered() ==> g@.sound(),
            !auto_promote && g@.valid() ==> forall|j: int|
                0 <= j < 81 ==> (#[trigger] g@.cells[j]).value == self@.cells[j].value,
    {
        self.copy_without(81, copy_answer, auto_promote)
    }

    /// A grid with nothing written: every square blank, promotion automatic.
    pub fn new() -> (g: Grid)
        ensures
            g@ == Board::empty(),
            g@.wf(),
            g@.promoted(),
            g@.pruned(),
    {
        let g = Grid {
            cells: [Cell::new(); 81],
            starting_cell_count: 0,
            auto_promote: true,
            current_state: BoardState::Constructing,
        };
        proof {
            lemma_constant_masks();
            assert(g@.cells =~= Board::empty().cells);
        }
        g
    }

    /// The square at `pos`, if `pos` lies in the grid.
    pub fn get_cell(&self, pos: Position) -> (r: Option<&Cell>)
        ensures
            r is Some == pos.in_grid(),
            pos.in_grid() ==> *r->0 == self@.cells[pos.index()],
    {
        if pos.row > 8 || pos.col > 8 {
            return None;
        }
        Some(&self.cells[pos.get_index()])
    }

    /// The square at `pos`.
    pub fn get_cell_unchecked(&self, pos: Position) -> (r: &Cell)
        requires
            pos.in_grid(),
        ensures
            *r == self@.cells[pos.index()],
    {
        &self.cells[pos.get_index()]
    }

    /// The square at `pos`, to be changed in place. The grid is then what it was with
    /// that square replaced; keeping the grid's invariants is up to the caller.
    pub fn get_mut_cell_unchecked(&mut self, pos: Position) -> (cell: &mut Cell)
        requires
            pos.in_grid(),
        ensures
            *cell == old(self)@.cells[pos.index()],
            final(self)@ == old(self)@.with_cell(pos.index(), *final(cell)),
    {
        let idx: usize = pos.get_index();
        &mut self.cells[idx]
    }

    /// The square at `pos`, to be changed in place, if `pos` lies in the grid.
    pub fn get_mut_cell(&mut self, pos: Position) -> (r: Option<&mut Cell>)
        ensures
            r is Some == pos.in_grid(),
            !pos.in_grid() ==> final(self)@ == old(self)@,
            pos.in_grid() ==> *r->0 == old(self)@.cells[pos.index()] && final(self)@ == old(
                self,
            )@.with_cell(pos.index(), *final(r->0)),
    {
        if pos.row > 8 || pos.col > 8 {
            return None;
        }
        let idx: usize = pos.get_index();
        Some(&mut self.cells[idx])
    }

    /// Whether every square is assigned.
    pub fn is_done(&self) -> (r: bool)
        ensures
            r == (forall|i: int| 0 <= i < 81 ==> (#[trigger] self@.cells[i]).value != 0),
    {
        let mut i: usize = 0;
        while i < 81
            invariant
                i <= 81,
                forall|j: int| 0 <= j < i ==> (#[trigger] self@.cells[j]).value != 0,
            decreases 81 - i,
        {
            if self.cells[i].value == 0 {
                return false;
            }
            i = i + 1;
        }
        true
    }

    /// How many squares are assigned.
    pub fn count_filled(&self) -> (n: usize)
        ensures
            n == filled(self@.cells, 81),
            n <= 81,
    {
        let mut n: usize = 0;
        let mut i: usize = 0;
        while i < 81
            invariant
                i <= 81,
                n <= i,
                n == filled(self@.cells, i as int),
            decreases 81 - i,
        {
            if self.cells[i].value != 0 {
                n = n + 1;
            }
            i = i + 1;
        }
        n
    }

    /// Clears the dirty mark of every square.
    pub fn clear_dirty(&mut self)
        ensures
            final(self)@ == old(self)@.cleared(),
            old(self)@.wf() ==> final(self)@.wf(),
            old(self)@.promoted() ==> final(self)@.promoted(),
    {
        let mut i: usize = 0;
        while i < 81
            invariant
                i <= 81,
                self.starting_cell_count == old(self).starting_cell_count,
                self.auto_promote == old(self).auto_promote,
                self.current_state == old(self).current_state,
                forall|j: int|
                    0 <= j < i ==> (#[trigger] self@.cells[j]) == (Cell {
                        is_dirty: false,
                        ..old(self)@.cells[j]
                    }),
                forall|j: int| i <= j < 81 ==> (#[trigger] self@.cells[j]) == old(self)@.cells[j],
            decreases 81 - i,
        {
            let ghost before = self@.cells;
            self.cells[i].is_dirty = false;
            assert(self@.cells =~= before.update(
                i as int,
                Cell { is_dirty: false, ..before[i as int] },
            ));
            i = i + 1;
        }
        proof {
            assert(self@.cells =~= old(self)@.cleared().cells);
            if old(self)@.wf() {
                assert forall|j: int| 0 <= j < 81 implies (#[trigger] self@.cells[j]).wf() by {
                    assert(old(self)@.cells[j].wf());
                }
                assert forall|j: int, k: int|
                    0 <= j < 81 && 0 <= k < 81 && #[trigger] peers(j, k) && self@.cells[j].value
                        != 0 implies self@.cells[j].value != self@.cells[k].value by {
                    assert(self@.cells[j].value == old(self)@.cells[j].value);
                    assert(self@.cells[k].value == old(self)@.cells[k].value);
                }
            }
            if old(self)@.promoted() && self@.valid() && self@.auto_promote {
                assert forall|j: int|
                    0 <= j < 81 && (#[trigger] self@.cells[j]).value == 0 implies count(
                    self@.cells[j].candidates,
                ) != 1 by {
                    assert(old(self)@.cells[j].value == 0);
                }
            }
        }
    }

    /// Turns automatic promotion on or off.
    pub fn set_auto_promote(&mut self, on: bool)
        ensures
            final(self)@ == old(self)@.with_auto_promote(on),
            old(self)@.wf() ==> final(self)@.wf(),
    {
        self.auto_promote = on;
    }

    /// The three groups of the square at `pos`: the squares of its column, of its
    /// row and of its region, each in group order.
    pub fn get_cell_groups(pos: Position) -> (groups: Vec<[usize; 9]>)
        requires
            pos.in_grid(),
        ensures
            groups.len() == 3,
            forall|k: int|
                0 <= k < 9 ==> {
                    &&& (#[trigger] groups[0][k]) == unit_cell(9 + pos.col, k)
                    &&& groups[1][k] == unit_cell(pos.row as int, k)
                    &&& groups[2][k] == unit_cell(
                        18 + crate::position::region_of(pos.index()),
                        k,
                    )
                },
    {
        let region: (usize, usize) = pos.region();
        let mut groups: Vec<[usize; 9]> = Vec::new();
        groups.push(group_cells(9 + pos.col));
        groups.push(group_cells(pos.row));
        groups.push(group_cells(18 + region.0));
        groups
    }

    /// Strikes the value of the assigned square at `pos` from its peers, and values
    /// that follow from it where promotion is automatic.
    pub fn remove_seen_candidates(&mut self, pos: Position)
        requires
            old(self)@.wf(),
            pos.in_grid(),
            old(self)@.cells[pos.index()].value != 0,
        ensures
            final(self)@ == old(self)@.sweep(pos.index(), 0),
            old(self)@.advances(final(self)@),
            old(self)@.promoted() ==> final(self)@.promoted(),
    {
        let idx: usize = pos.get_index();
        self.sweep(idx);
    }

    /// The digits that the assigned peers of square `j` hold, as a mask.
    pub fn seen_mask(&self, j: usize) -> (m: u16)
        requires
            j < 81,
            forall|i: int| 0 <= i < 81 ==> (#[trigger] self@.cells[i]).value <= 9,
        ensures
            m == self@.seen(j as int, 27),
            m <= ALL_CANDIDATES,
    {
        let mut m: u16 = 0;
        let mut s: usize = 0;
        while s < 27
            invariant
                s <= 27,
                j < 81,
                forall|i: int| 0 <= i < 81 ==> (#[trigger] self@.cells[i]).value <= 9,
                m == self@.seen(j as int, s as int),
            decreases 27 - s,
        {
            let i: usize = slot_cell(j, s);
            if i != j && self.cells[i].value != 0 {
                m = m | mask_of(self.cells[i].value);
            }
            s = s + 1;
        }
        proof {
            self@.lemma_seen(j as int, 27);
        }
        m
    }

    /// Takes the value of the square at `pos` away, as `Board::unset` says: the
    /// square and its unassigned peers get the candidates that their assigned peers
    /// leave them. Nothing happens for a position outside the grid.
    pub fn unset_cell(&mut self, pos: Position)
        requires
            old(self)@.wf(),
        ensures
            !pos.in_grid() ==> final(self)@ == old(self)@,
            pos.in_grid() ==> final(self)@ == old(self)@.unset(pos.index()),
            final(self)@.wf(),
            old(self)@.valid() && old(self)@.answered() ==> final(self)@.valid(),
            old(self)@.pruned() && final(self)@.valid() ==> final(self)@.pruned(),
            old(self)@.sound() ==> final(self)@.sound(),
    {
        if pos.row > 8 || pos.col > 8 || !self.is_valid() {
            return;
        }
        let idx: usize = pos.get_index();
        let saved: [Cell; 81] = self.cells;
        self.cells[idx].value = 0;
        self.cells[idx].candidates = ALL_CANDIDATES;
        self.cells[idx].is_dirty = true;
        let ghost cleared = self@;
        let ghost after = cleared.reopened(idx as int);
        proof {
            assert(cleared =~= old(self)@.with_cell(
                idx as int,
                Cell {
                    value: 0,
                    candidates: ALL_CANDIDATES,
                    is_dirty: true,
                    ..old(self)@.cells[idx as int]
                },
            ));
            assert forall|i: int| 0 <= i < 81 implies (#[trigger] cleared.cells[i]).value <= 9 by {
                assert(old(self)@.cells[i].wf());
            }
        }
        let mut masks: [u16; 81] = [0; 81];
        let mut ok: bool = true;
        let mut j: usize = 0;
        while j < 81
            invariant
                j <= 81,
                idx < 81,
                self@ == cleared,
                old(self)@.wf(),
                cleared.cells.len() == 81,
                forall|i: int| 0 <= i < 81 ==> (#[trigger] cleared.cells[i]).value <= 9,
                forall|i: int|
                    0 <= i < 81 && i != idx ==> (#[trigger] cleared.cells[i]) == old(self)@.cells[i],
                cleared.cells[idx as int].answer == old(self)@.cells[idx as int].answer,
                cleared.cells[idx as int].value == 0,
                cleared.cells[idx as int].candidates == ALL_CANDIDATES,
                after == cleared.reopened(idx as int),
                forall|i: int| 0 <= i < j ==> #[trigger] masks[i] == after[i].candidates,
                ok == (forall|i: int| 0 <= i < j ==> (#[trigger] after[i]).wf()),
                old(self)@.answered() ==> ok,
            decreases 81 - j,
        {
            let cell: Cell = self.cells[j];
            let mut m: u16 = cell.candidates;
            proof {
                if j != idx {
                    assert(old(self)@.cells[j as int].wf());
                }
            }
            if cell.value == 0 && (j == idx || share_group(idx, j)) {
                let seen: u16 = self.seen_mask(j);
                m = ALL_CANDIDATES & !seen;
                proof {
                    lemma_clear(ALL_CANDIDATES, seen);
                    lemma_constant_masks();
                    assert(after[j as int] == cleared.reopened_cell(j as int));
                    if old(self)@.answered() {
                        let a = cell.answer->0;
                        assert(1 <= a <= 9);
                        cleared.lemma_seen(j as int, 27);
                        if allows(seen, a) {
                            let t = choose|t: int|
                                0 <= t < 27 && #[trigger] cleared.slot_holds(j as int, t, a);
                            let i = peer_slot(j as int, t);
                            lemma_slot_sees(j as int, t);
                            assert(i != idx);
                            assert(old(self)@.cells[i].wf());
                            assert(peers(j as int, i));
                            assert(false);
                        }
                        assert(has_bit(m, (a - 1) as u16));
                    }
                }
                let keeps: bool = match cell.answer {
                    Some(a) => mask_allows(m, a),
                    None => true,
                };
                if m == 0 || !keeps {
                    ok = false;
                }
            } else {
                assert(after[j as int] == cleared.cells[j as int]);
                assert(after[j as int].wf());
            }
            masks[j] = m;
            j = j + 1;
        }
        if !ok {
            self.cells = saved;
            self.current_state = BoardState::Invalid;
            assert(self@ =~= old(self)@.invalidated());
            return;
        }
        let mut j: usize = 0;
        while j < 81
            invariant
                j <= 81,
                self.starting_cell_count == cleared.starting_cell_count,
                self.auto_promote == cleared.auto_promote,
                self.current_state == cleared.state,
                after.len() == 81,
                forall|i: int| 0 <= i < 81 ==> #[trigger] masks[i] == after[i].candidates,
                forall|i: int|
                    0 <= i < 81 ==> (#[trigger] after[i]) == (Cell {
                        candidates: after[i].candidates,
                        ..cleared.cells[i]
                    }),
                forall|i: int| 0 <= i < j ==> (#[trigger] self@.cells[i]) == after[i],
                forall|i: int| j <= i < 81 ==> (#[trigger] self@.cells[i]) == cleared.cells[i],
            decreases 81 - j,
        {
            let ghost before = self@.cells;
            self.cells[j].candidates = masks[j];
            assert(self@.cells =~= before.update(
                j as int,
                Cell { candidates: masks[j as int], ..before[j as int] },
            ));
            j = j + 1;
        }
        proof {
            assert(self@.cells =~= after);
            assert forall|i: int, k: int|
                0 <= i < 81 && 0 <= k < 81 && #[trigger] peers(i, k) && self@.cells[i].value
                    != 0 implies self@.cells[i].value != self@.cells[k].value by {
                assert(after[i].value == cleared.cells[i].value);
                assert(after[k].value == cleared.cells[k].value);
                assert(i != idx);
                if k != idx {
                    assert(old(self)@.cells[k].value == cleared.cells[k].value);
                }
            }
            if old(self)@.pruned() {
                assert forall|i: int, k: int| !#[trigger] self@.clash(i, k) by {
                    if self@.clash(i, k) {
                        assert(after[i].value == cleared.cells[i].value);
                        assert(i != idx);
                        let v = cleared.cells[i].value;
                        assert(old(self)@.cells[i].wf());
                        if cleared.cells[k].value == 0 && (k == idx || peers(idx as int, k)) {
                            cleared.lemma_seen(k, 27);
                            lemma_slots_cover(k, i);
                            assert(cleared.slot_holds(k, slot_of(k, i), v));
                            assert(allows(cleared.seen(k, 27), v));
                            lemma_clear(ALL_CANDIDATES, cleared.seen(k, 27));
                            assert(has_bit(after[k].candidates, (v - 1) as u16) == (has_bit(
                                ALL_CANDIDATES,
                                (v - 1) as u16,
                            ) && !has_bit(cleared.seen(k, 27), (v - 1) as u16)));
                            assert(false);
                        } else {
                            assert(after[k] == cleared.cells[k]);
                            if k == idx {
                                assert(false);
                            }
                            assert(old(self)@.clash(i, k));
                        }
                    }
                }
            }
            if old(self)@.answered() {
                assert forall|i: int| 0 <= i < 81 implies (#[trigger] self@.cells[i]).answer
                    == old(self)@.cells[i].answer by {
                    assert(after[i].answer == cleared.cells[i].answer);
                }
            }
        }
    }

    /// Whether no contradiction has been met.
    pub fn is_valid(&self) -> (r: bool)
        ensures
            r == self@.valid(),
    {
        match self.current_state {
            BoardState::Invalid => false,
            _ => true,
        }
    }

    /// Whether a peer of square `j` holds the digit `v`.
    pub fn peer_has(&self, j: usize, v: u8) -> (r: bool)
        requires
            j < 81,
        ensures
            r == self@.peer_holds(j as int, v),
    {
        let mut s: usize = 0;
        while s < 27
            invariant
                s <= 27,
                j < 81,
                forall|t: int|
                    0 <= t < s ==> peer_slot(j as int, t) == j || self.cells[#[trigger] peer_slot(
                        j as int,
                        t,
                    )].value != v,
            decreases 27 - s,
        {
            let i: usize = slot_cell(j, s);
            if i != j && self.cells[i].value == v {
                assert(peers(j as int, i as int) && self@.cells[i as int].value == v);
                return true;
            }
            s = s + 1;
        }
        proof {
            assert forall|i: int| 0 <= i < 81 && #[trigger] peers(j as int, i) implies self@.cells[i].value
                != v by {
                lemma_slots_cover(j as int, i);
                assert(peer_slot(j as int, slot_of(j as int, i)) == i);
            }
        }
        false
    }

    /// Strikes the digits of `bits` from square `j`, as `Board::eliminate` says, and
    /// tells whether the grid changed.
    pub fn eliminate(&mut self, j: usize, bits: u16, mark: bool) -> (changed: bool)
        requires
            old(self)@.wf(),
            j < 81,
        ensures
            final(self)@ == old(self)@.eliminate(j as int, bits, mark),
            old(self)@.advances(final(self)@),
            changed == (final(self)@ != old(self)@),
            old(self)@.promoted() ==> final(self)@.promoted(),
            old(self)@.valid() && old(self)@.answered() && !allows(
                bits,
                old(self)@.cells[j as int].answer->0,
            ) ==> final(self)@.valid(),
            !old(self)@.auto_promote ==> old(self)@.same_values_but(final(self)@, -1),
            final(self)@.valid() ==> forall|w: u8|
                allows(bits, w) ==> !#[trigger] allows(final(self)@.cells[j as int].candidates, w),
        decreases old(self)@.weight(), 1int, 0int,
    {
        proof {
            lemma_constant_masks();
            assert(self@.cells[j as int].wf());
        }
        if !self.is_valid() || self.cells[j].value != 0 {
            return false;
        }
        let cell: Cell = self.cells[j];
        let rest: u16 = cell.candidates & !bits;
        let keeps_answer: bool = match cell.answer {
            Some(a) => mask_allows(rest, a),
            None => true,
        };
        proof {
            if self@.answered() && !allows(bits, cell.answer->0) {
                let a = cell.answer->0;
                assert(self@.cells[j as int].wf());
                lemma_clear(cell.candidates, bits);
                lemma_constant_masks();
                assert(has_bit(rest, (a - 1) as u16));
            }
        }
        if rest == 0 || !keeps_answer {
            self.current_state = BoardState::Invalid;
            assert(self@ == old(self)@.invalidated());
            return true;
        }
        let ghost narrowed = cell.without(bits, mark);
        proof {
            cell.lemma_without_wf(bits, mark);
            lemma_clear(cell.candidates, bits);
            old(self)@.lemma_narrow_cell(j as int, narrowed);
        }
        let changed: bool = rest != cell.candidates;
        if changed {
            self.cells[j].candidates = rest;
            if mark {
                self.cells[j].is_dirty = true;
            }
        }
        assert(self.cells[j as int] == narrowed);
        assert(self@ =~= old(self)@.with_cell(j as int, narrowed));
        assert forall|w: u8| allows(bits, w) implies !#[trigger] allows(rest, w) by {
            assert(has_bit(rest, (w - 1) as u16) == (has_bit(cell.candidates, (w - 1) as u16)
                && !has_bit(bits, (w - 1) as u16)));
        }
        if self.auto_promote && count_candidates(rest) == 1 {
            let v: u8 = first_candidate(rest);
            let ghost mid = self@;
            proof {
                assert(v != 0) by {
                    crate::mask::lemma_nine_bits(rest);
                }
                assert forall|i: int|
                    0 <= i < 81 && i != j && (#[trigger] mid.cells[i]).value == 0 && old(
                        self,
                    )@.promoted() && mid.valid() && mid.auto_promote implies count(
                    mid.cells[i].candidates,
                ) != 1 by {
                    assert(mid.cells[i] == old(self)@.cells[i]);
                }
            }
            self.place(j, v);
            proof {
                old(self)@.lemma_advances_trans(mid, self@);
            }
            return true;
        }
        changed
    }

    /// Gives the unassigned square `j` the digit `v` and propagates it, as
    /// `Board::place` says.
    pub fn place(&mut self, j: usize, v: u8)
        requires
            old(self)@.wf(),
            j < 81,
            old(self)@.cells[j as int].permits(v),
        ensures
            final(self)@ == old(self)@.place(j as int, v),
            old(self)@.advances(final(self)@),
            old(self)@.valid() ==> final(self)@.weight() < old(self)@.weight(),
            old(self)@.promoted_except(j as int) ==> final(self)@.promoted(),
            old(self)@.valid() && old(self)@.answered() && old(self)@.cells[j as int].answer
                == Some(v) ==> final(self)@.valid(),
            old(self)@.valid() && final(self)@.valid() ==> {
                final(self)@.cells[j as int] == old(self)@.cells[j as int].assigned(v)
            },
            !old(self)@.auto_promote ==> old(self)@.same_values_but(final(self)@, j as int),
        decreases old(self)@.weight(), 0int, 0int,
    {
        if !self.is_valid() {
            return;
        }
        let accepted: bool = match self.cells[j].answer {
            Some(a) => a == v,
            None => true,
        };
        proof {
            if self@.answered() && self@.cells[j as int].answer == Some(v) {
                assert forall|i: int| 0 <= i < 81 && #[trigger] peers(j as int, i) implies self@.cells[i].value
                    != v by {
                    assert(self@.cells[i].wf());
                }
            }
        }
        if !accepted || self.peer_has(j, v) {
            self.current_state = BoardState::Invalid;
            assert(self@ == old(self)@.invalidated());
            return;
        }
        let ghost before = self.cells[j as int];
        self.cells[j].value = v;
        self.cells[j].candidates = 0;
        self.cells[j].is_dirty = true;
        let ghost mid = self@;
        proof {
            lemma_constant_masks();
            lemma_mask_sum_update(old(self)@.cells, j as int, before.assigned(v));
            assert(mid =~= old(self)@.with_cell(j as int, before.assigned(v)));
            assert forall|i: int| 0 <= i < 81 implies (#[trigger] mid.cells[i]).narrows(
                old(self)@.cells[i],
            ) by {}
            assert forall|i: int, k: int|
                0 <= i < 81 && 0 <= k < 81 && #[trigger] peers(i, k) && mid.cells[i].value
                    != 0 implies mid.cells[i].value != mid.cells[k].value by {
                if i == j {
                    assert(peers(j as int, k));
                } else if k == j {
                    assert(peers(j as int, i));
                }
            }
            assert(old(self)@.narrows_to(mid));
        }
        self.sweep(j);
        proof {
            old(self)@.lemma_narrows_trans(mid, self@);
            assert(self@.cells[j as int].narrows(mid.cells[j as int]));
            if self@.valid() {
                assert forall|i: int, k: int| #[trigger] self@.clash(i, k) implies old(
                    self,
                )@.clash(i, k) by {
                    assert(mid.clash(i, k) && i != j);
                    assert(mid.cells[i] == old(self)@.cells[i]);
                    assert(mid.cells[k].narrows(old(self)@.cells[k]));
                }
            }
        }
    }

    /// Strikes the value of the assigned square `idx` from its peers, as
    /// `Board::sweep` says.
    pub fn sweep(&mut self, idx: usize)
        requires
            old(self)@.wf(),
            idx < 81,
            old(self)@.cells[idx as int].value != 0,
        ensures
            final(self)@ == old(self)@.sweep(idx as int, 0),
            old(self)@.advances(final(self)@),
            old(self)@.promoted() ==> final(self)@.promoted(),
            old(self)@.valid() && old(self)@.answered() ==> final(self)@.valid(),
            !old(self)@.auto_promote ==> old(self)@.same_values_but(final(self)@, -1),
            final(self)@.valid() ==> forall|i: int, k: int|
                #[trigger] final(self)@.clash(i, k) ==> old(self)@.clash(i, k) && i != idx,
        decreases old(self)@.weight(), 2int, 0int,
    {
        let v: u8 = self.cells[idx].value;
        let bit: u16 = mask_of(v);
        let mut s: usize = 0;
        while s < 27 && self.is_valid()
            invariant
                s <= 27,
                idx < 81,
                self@.wf(),
                self@.cells[idx as int].value == v,
                v != 0,
                bit == digit_mask(v),
                old(self)@.advances(self@),
                self@.sweep(idx as int, s as int) == old(self)@.sweep(idx as int, 0),
                old(self)@.promoted() ==> self@.promoted(),
                old(self)@.valid() && old(self)@.answered() ==> self@.valid(),
                !old(self)@.auto_promote ==> old(self)@.same_values_but(self@, -1),
                forall|w: u8| allows(bit, w) <==> w == v,
                self@.valid() ==> forall|k: int|
                    #[trigger] self@.clash(idx as int, k) ==> !Board::swept(idx as int, k, s as int),
            decreases 27 - s,
        {
            let j: usize = slot_cell(idx, s);
            let ghost before = self@;
            if j != idx {
                proof {
                    if old(self)@.answered() {
                        old(self)@.lemma_answered_kept(before);
                        assert(peers(idx as int, j as int));
                        assert(before.cells[idx as int].wf());
                        assert(before.cells[j as int].wf());
                    }
                }
                self.eliminate(j, bit, false);
                proof {
                    old(self)@.lemma_advances_trans(before, self@);
                }
            }
            proof {
                if self@.valid() {
                    assert forall|k: int| #[trigger] self@.clash(idx as int, k) implies !Board::swept(
                        idx as int,
                        k,
                        s as int + 1,
                    ) by {
                        assert(before.clash(idx as int, k));
                        assert(!Board::swept(idx as int, k, s as int));
                        if k == j {
                            assert(allows(bit, v));
                            assert(!allows(self@.cells[j as int].candidates, v));
                        }
                        if Board::swept(idx as int, k, s as int + 1) {
                            let t = choose|t: int|
                                0 <= t < s + 1 && #[trigger] peer_slot(idx as int, t) == k;
                            if t < s {
                                assert(Board::swept(idx as int, k, s as int));
                            }
                        }
                    }
                }
            }
            s = s + 1;
        }
        proof {
            if self@.valid() {
                assert forall|i: int, k: int| #[trigger] self@.clash(i, k) implies old(
                    self,
                )@.clash(i, k) && i != idx by {
                    if i == idx {
                        lemma_slots_cover(idx as int, k);
                        assert(peer_slot(idx as int, slot_of(idx as int, k)) == k);
                        assert(Board::swept(idx as int, k, 27));
                    }
                }
            }
        }
    }

    /// Strikes the digits of `bits`, with a dirty mark, from the squares of group `u`
    /// at the places that `skip` does not hold, and tells whether the grid changed.
    pub fn strike(&mut self, u: usize, skip: u16, bits: u16) -> (changed: bool)
        requires
            old(self)@.wf(),
            u < 27,
        ensures
            final(self)@ == old(self)@.strike(u as int, skip, bits, 0),
            old(self)@.advances(final(self)@),
            changed == (final(self)@ != old(self)@),
            old(self)@.promoted() ==> final(self)@.promoted(),
            old(self)@.sound() && old(self)@.spares(u as int, skip, bits) ==> final(self)@.sound(),
    {
        proof {
            old(self)@.lemma_advances_self();
        }
        let mut changed: bool = false;
        let mut k: usize = 0;
        while k < 9
            invariant
                k <= 9,
                u < 27,
                self@.wf(),
                old(self)@.advances(self@),
                self@.strike(u as int, skip, bits, k as int) == old(self)@.strike(
                    u as int,
                    skip,
                    bits,
                    0,
                ),
                changed == (self@ != old(self)@),
                old(self)@.promoted() ==> self@.promoted(),
                old(self)@.sound() && old(self)@.spares(u as int, skip, bits) ==> self@.sound(),
            decreases 9 - k,
        {
            if skip & (1u16 << (k as u16)) == 0 {
                let ghost before = self@;
                let j: usize = group_cell(u, k);
                proof {
                    if old(self)@.sound() && old(self)@.spares(u as int, skip, bits) {
                        assert(before.cells[j as int].narrows(old(self)@.cells[j as int]));
                        assert(!allows(bits, old(self)@.cells[unit_cell(u as int, k as int)].answer->0));
                    }
                }
                let c: bool = self.eliminate(j, bits, true);
                proof {
                    old(self)@.lemma_advances_trans(before, self@);
                    if old(self)@.sound() && old(self)@.spares(u as int, skip, bits) {
                        before.lemma_sound_kept(self@);
                    }
                }
                changed = changed || c;
            }
            k = k + 1;
        }
        changed
    }

    /// The places of group `u` whose squares permit the digit `d`, as a mask.
    pub fn places(&self, u: usize, d: u8) -> (m: u16)
        requires
            u < 27,
            1 <= d <= 9,
        ensures
            m == self@.places(u as int, d, 9),
            m <= 0x1FF,
    {
        let mut m: u16 = 0;
        let mut k: usize = 0;
        while k < 9
            invariant
                k <= 9,
                u < 27,
                1 <= d <= 9,
                m == self@.places(u as int, d, k as int),
            decreases 9 - k,
        {
            let j: usize = group_cell(u, k);
            if self.cells[j].contains_value(d) {
                m = m | (1u16 << (k as u16));
            }
            k = k + 1;
        }
        proof {
            self@.lemma_places(u as int, d, 9);
        }
        m
    }

    /// Writes the digit `value` at `pos`. Nothing happens where the square holds it
    /// already. While givens are written, a square that holds another digit or does
    /// not permit this one makes the grid invalid; once rules are at work, such a
    /// write is not permitted. Else the digit is placed and propagated.
    pub fn set_cell(&mut self, pos: Position, value: u8)
        requires
            old(self)@.wf(),
            pos.in_grid(),
            1 <= value <= 9,
            old(self)@.state == BoardState::Solving || old(self)@.state == BoardState::Solved ==> {
                ||| old(self)@.cells[pos.index()].value == value
                ||| old(self)@.cells[pos.index()].permits(value)
            },
        ensures
            final(self)@ == old(self)@.set_cell(pos.index(), value),
            old(self)@.advances(final(self)@),
            old(self)@.promoted() ==> final(self)@.promoted(),
            old(self)@.valid() && old(self)@.answered() && old(self)@.cells[pos.index()].answer
                == Some(value) ==> final(self)@.valid(),
            final(self)@.valid() && old(self)@.cells[pos.index()].value == 0 ==> {
                final(self)@.cells[pos.index()] == old(self)@.cells[pos.index()].assigned(value)
            },
            !old(self)@.auto_promote ==> old(self)@.same_values_but(final(self)@, pos.index()),
    {
        let idx: usize = pos.get_index();
        if !self.is_valid() || self.cells[idx].value == value {
            return;
        }
        if !self.cells[idx].contains_value(value) {
            self.current_state = BoardState::Invalid;
            assert(self@ == old(self)@.invalidated());
            return;
        }
        self.place(idx, value);
    }
}

} // verus!
