//! The mathematical model of a grid, and what the grid's operations do to it.

use crate::cell::Cell;
use crate::mask::{
    allows, count, digit_mask, has_bit, lemma_add_digit, lemma_constant_masks, lemma_count_nine,
    lemma_single_bit, lemma_union, lowest_digit, ALL_CANDIDATES,
};
use crate::position::{lemma_unit_cells, peer_slot, peers, unit_cell};
use vstd::prelude::*;

verus! {

/// Where a grid stands in its life.
#[derive(Clone, Copy, Debug, PartialEq, Eq)]
pub enum BoardState {
    /// A contradiction was met; nothing changes such a grid any more.
    Invalid,
    /// Givens are being written.
    Constructing,
    /// Rules are at work.
    Solving,
    Solved,
}

/// A grid as a value: its 81 squares in row-major order and its settings.
#[verifier::ext_equal]
pub struct Board {
    pub cells: Seq<Cell>,
    pub starting_cell_count: usize,
    pub auto_promote: bool,
    pub state: BoardState,
}

/// The sum of the candidate masks, read as numbers.
pub open spec fn mask_sum(cells: Seq<Cell>) -> nat
    decreases cells.len(),
{
    if cells.len() == 0 {
        0
    } else {
        mask_sum(cells.drop_last()) + cells.last().candidates as nat
    }
}

/// How many of the first `n` squares are assigned.
pub open spec fn filled(cells: Seq<Cell>, n: int) -> nat
    decreases n,
{
    if n <= 0 {
        0
    } else {
        filled(cells, n - 1) + if cells[n - 1].value != 0 {
            1nat
        } else {
            0nat
        }
    }
}

/// A table of 81 characters that stand for no given.
pub open spec fn blank_table() -> Seq<char> {
    Seq::new(81, |i: int| ' ')
}

/// The table of givens that the text from place `i` on describes, read into `t`
/// from row `row` and column `col` on: a line feed starts the next row, a bar
/// is passed over, and any other character stands for the next square of the
/// row. What lies beyond nine rows or nine columns is passed over.
pub open spec fn read_table(text: Seq<char>, i: int, row: int, col: int, t: Seq<char>) -> Seq<char>
    decreases text.len() - i,
{
    if i < 0 || i >= text.len() {
        t
    } else if text[i] == '\n' {
        read_table(text, i + 1, row + 1, 0, t)
    } else if text[i] == '|' {
        read_table(text, i + 1, row, col, t)
    } else if row < 9 && col < 9 {
        read_table(text, i + 1, row, col + 1, t.update(9 * row + col, text[i]))
    } else {
        read_table(text, i + 1, row, col + 1, t)
    }
}

/// The digit that a character from `1` to `9` stands for; 0 for any other.
pub open spec fn digit_of(ch: char) -> u8 {
    if ch == '1' {
        1
    } else if ch == '2' {
        2
    } else if ch == '3' {
        3
    } else if ch == '4' {
        4
    } else if ch == '5' {
        5
    } else if ch == '6' {
        6
    } else if ch == '7' {
        7
    } else if ch == '8' {
        8
    } else if ch == '9' {
        9
    } else {
        0
    }
}

/// The character of the digit `d`; `0` for what is no digit from 1 to 9.
pub open spec fn digit_char(d: u8) -> char {
    if d == 1 {
        '1'
    } else if d == 2 {
        '2'
    } else if d == 3 {
        '3'
    } else if d == 4 {
        '4'
    } else if d == 5 {
        '5'
    } else if d == 6 {
        '6'
    } else if d == 7 {
        '7'
    } else if d == 8 {
        '8'
    } else if d == 9 {
        '9'
    } else {
        '0'
    }
}

/// Whether a character stands for an empty square.
pub open spec fn is_blank(ch: char) -> bool {
    ch == ' ' || ch == '0'
}

/// How many of the first `n` characters of the table stand for a given.
pub open spec fn given_count(t: Seq<char>, n: int) -> nat
    decreases n,
{
    if n <= 0 {
        0
    } else {
        given_count(t, n - 1) + if is_blank(t[n - 1]) {
            0nat
        } else {
            1nat
        }
    }
}

/// The sum of the masks of well-formed squares is at most 511 for each.
pub proof fn lemma_mask_sum_bound(cells: Seq<Cell>)
    requires
        forall|i: int| 0 <= i < cells.len() ==> (#[trigger] cells[i]).candidates <= ALL_CANDIDATES,
    ensures
        mask_sum(cells) <= 511 * cells.len(),
    decreases cells.len(),
{
    if cells.len() > 0 {
        lemma_mask_sum_bound(cells.drop_last());
    }
}

/// Whether the answers, one for each square, are a solved grid: no two peers have
/// the same.
pub open spec fn is_solution(answers: Seq<u8>) -> bool {
    forall|i: int, j: int|
        0 <= i < 81 && 0 <= j < 81 && #[trigger] peers(i, j) ==> answers[i] != answers[j]
}

/// Replacing one square changes the sum by the difference of the two masks.
pub proof fn lemma_mask_sum_update(cells: Seq<Cell>, j: int, c: Cell)
    requires
        0 <= j < cells.len(),
    ensures
        mask_sum(cells.update(j, c)) + cells[j].candidates == mask_sum(cells) + c.candidates,
    decreases cells.len(),
{
    let after = cells.update(j, c);
    if j == cells.len() - 1 {
        assert(after.drop_last() =~= cells.drop_last());
    } else {
        assert(after.drop_last() =~= cells.drop_last().update(j, c));
        lemma_mask_sum_update(cells.drop_last(), j, c);
    }
}

impl Cell {
    /// Whether this square is what `before` may have become under deduction: an
    /// assigned square stays as it is; an unassigned one keeps answer and given
    /// mark, gains no candidate, and takes for value only a former candidate.
    pub open spec fn narrows(self, before: Cell) -> bool {
        &&& self.answer == before.answer
        &&& self.is_given == before.is_given
        &&& (before.value != 0 ==> self == before)
        &&& (self.value != 0 && before.value == 0 ==> allows(before.candidates, self.value))
        &&& self.candidates <= before.candidates
        &&& (before.is_dirty ==> self.is_dirty)
        &&& forall|v: u8| allows(self.candidates, v) ==> allows(before.candidates, v)
    }
}

impl Board {
    /// Whether no contradiction has been met.
    pub open spec fn valid(self) -> bool {
        self.state != BoardState::Invalid
    }

    /// Whether each of the 81 squares is well-formed.
    pub open spec fn cells_wf(self) -> bool {
        forall|i: int| 0 <= i < 81 ==> (#[trigger] self.cells[i]).wf()
    }

    /// The invariants of a grid: 81 well-formed squares, and no digit twice
    /// among the assigned squares of a row, a column or a region.
    pub open spec fn wf(self) -> bool {
        &&& self.cells.len() == 81
        &&& forall|i: int| 0 <= i < 81 ==> (#[trigger] self.cells[i]).wf()
        &&& forall|i: int, j: int|
            0 <= i < 81 && 0 <= j < 81 && #[trigger] peers(i, j) && self.cells[i].value != 0
                ==> self.cells[i].value != self.cells[j].value
    }

    /// A measure that every deduction lowers: the sum of the candidate masks,
    /// and one more while the grid is valid.
    pub open spec fn weight(self) -> nat {
        mask_sum(self.cells) + if self.valid() {
            1nat
        } else {
            0nat
        }
    }

    /// With automatic promotion on, a valid grid has no unassigned square with one candidate.
    pub open spec fn promoted(self) -> bool {
        self.valid() && self.auto_promote ==> forall|i: int|
            0 <= i < 81 && (#[trigger] self.cells[i]).value == 0 ==> count(self.cells[i].candidates)
                != 1
    }

    /// As `promoted`, but for square `j`.
    pub open spec fn promoted_except(self, j: int) -> bool {
        self.valid() && self.auto_promote ==> forall|i: int|
            0 <= i < 81 && i != j && (#[trigger] self.cells[i]).value == 0 ==> count(
                self.cells[i].candidates,
            ) != 1
    }

    /// Whether `self` is what `before` may have become under deduction: settings
    /// kept, an invalid grid untouched, every square narrowed.
    pub open spec fn refines(self, before: Board) -> bool {
        &&& self.cells.len() == before.cells.len()
        &&& self.auto_promote == before.auto_promote
        &&& self.starting_cell_count == before.starting_cell_count
        &&& (!before.valid() ==> self == before)
        &&& (self.valid() ==> self.state == before.state)
        &&& forall|i: int|
            0 <= i < self.cells.len() ==> (#[trigger] self.cells[i]).narrows(before.cells[i])
    }

    /// Whether square `k` still has for candidate the value that its peer `i` holds.
    pub open spec fn clash(self, i: int, k: int) -> bool {
        &&& 0 <= i < 81
        &&& 0 <= k < 81
        &&& peers(i, k)
        &&& self.cells[i].value != 0
        &&& allows(self.cells[k].candidates, self.cells[i].value)
    }

    /// Whether no square has for candidate a value that one of its peers holds.
    pub open spec fn pruned(self) -> bool {
        forall|i: int, k: int| !#[trigger] self.clash(i, k)
    }

    /// Whether every clash of `after` is one of this grid already.
    pub open spec fn no_new_clash(self, after: Board) -> bool {
        forall|i: int, k: int| #[trigger] after.clash(i, k) ==> self.clash(i, k)
    }

    /// A move from `self` to `after` under which the invariants hold again, nothing
    /// grows, and the weight falls unless nothing changes at all.
    pub open spec fn narrows_to(self, after: Board) -> bool {
        &&& after.wf()
        &&& after.refines(self)
        &&& after.weight() <= self.weight()
        &&& (after.weight() == self.weight() ==> after == self)
    }

    /// A step of deduction from `self` to `after`: the invariants hold again, nothing
    /// grew, the weight fell unless nothing changed at all, and unless the grid became
    /// invalid no square got a candidate that a peer holds.
    pub open spec fn advances(self, after: Board) -> bool {
        &&& self.narrows_to(after)
        &&& (after.valid() ==> self.no_new_clash(after))
    }

    /// Whether striking the digits of `bits` from the squares of group `u` at the
    /// places outside `skip` leaves every such square its known answer.
    pub open spec fn spares(self, u: int, skip: u16, bits: u16) -> bool {
        forall|k: int|
            0 <= k < 9 && !has_bit(skip, k as u16) ==> !allows(
                bits,
                (#[trigger] self.cells[unit_cell(u, k)]).answer->0,
            )
    }

    /// What spares the known answers of a grid spares those of the grids that
    /// deduction makes of it.
    pub proof fn lemma_spares_kept(self, after: Board, u: int, skip: u16, bits: u16)
        requires
            self.spares(u, skip, bits),
            after.refines(self),
            self.cells.len() == 81,
            0 <= u < 27,
        ensures
            after.spares(u, skip, bits),
    {
        assert forall|k: int| 0 <= k < 9 && !has_bit(skip, k as u16) implies !allows(
            bits,
            (#[trigger] after.cells[unit_cell(u, k)]).answer->0,
        ) by {
            lemma_unit_cells(u, k, k);
            assert(after.cells[unit_cell(u, k)].narrows(self.cells[unit_cell(u, k)]));
            assert(!allows(bits, self.cells[unit_cell(u, k)].answer->0));
        }
    }

    /// Whether the grid is on the way to its known answers: it is valid, the answers
    /// are a solved grid, and no square has for candidate a value that a peer holds.
    pub open spec fn sound(self) -> bool {
        self.valid() && self.answered() && self.pruned()
    }

    /// A step of deduction that leaves the grid valid leaves it on the way to its
    /// known answers.
    pub proof fn lemma_sound_kept(self, after: Board)
        requires
            self.sound(),
            self.cells.len() == 81,
            self.advances(after),
            after.valid(),
        ensures
            after.sound(),
    {
        self.lemma_answered_kept(after);
        assert forall|i: int, k: int| !#[trigger] after.clash(i, k) by {
            if after.clash(i, k) {
                assert(self.clash(i, k));
            }
        }
    }

    /// The known answers at the first `k` places of group `u`, as a mask.
    pub open spec fn unit_answers(self, u: int, k: int) -> u16
        decreases k,
    {
        if k <= 0 {
            0
        } else {
            self.unit_answers(u, k - 1) | digit_mask(self.cells[unit_cell(u, k - 1)].answer->0)
        }
    }

    /// The known answers at the first `k` places of a group are `k` different digits.
    pub proof fn lemma_unit_answers(self, u: int, k: int)
        requires
            self.wf(),
            self.answered(),
            0 <= u < 27,
            0 <= k <= 9,
        ensures
            self.unit_answers(u, k) <= 0x1FF,
            count(self.unit_answers(u, k)) == k,
            forall|v: u8| #[trigger]
                allows(self.unit_answers(u, k), v) <==> exists|p: int|
                    0 <= p < k && #[trigger] self.cells[unit_cell(u, p)].answer == Some(v),
        decreases k,
    {
        lemma_constant_masks();
        if k > 0 {
            self.lemma_unit_answers(u, k - 1);
            let rest = self.unit_answers(u, k - 1);
            let cell = unit_cell(u, k - 1);
            lemma_unit_cells(u, k - 1, k - 1);
            assert(self.cells[cell].wf());
            let a = self.cells[cell].answer->0;
            if allows(rest, a) {
                let p = choose|p: int|
                    0 <= p < k - 1 && #[trigger] self.cells[unit_cell(u, p)].answer == Some(a);
                lemma_unit_cells(u, p, k - 1);
                assert(peers(unit_cell(u, p), cell));
                assert(false);
            }
            lemma_add_digit(rest, a);
            assert forall|v: u8| #[trigger]
                allows(self.unit_answers(u, k), v) <==> exists|p: int|
                    0 <= p < k && #[trigger] self.cells[unit_cell(u, p)].answer == Some(v) by {
                if allows(rest, v) {
                    let p = choose|p: int|
                        0 <= p < k - 1 && #[trigger] self.cells[unit_cell(u, p)].answer == Some(v);
                    assert(self.cells[unit_cell(u, p)].answer == Some(v));
                } else if v == a {
                    assert(self.cells[unit_cell(u, k - 1)].answer == Some(v));
                }
                if exists|p: int|
                    0 <= p < k && #[trigger] self.cells[unit_cell(u, p)].answer == Some(v) {
                    let p = choose|p: int|
                        0 <= p < k && #[trigger] self.cells[unit_cell(u, p)].answer == Some(v);
                    if p < k - 1 {
                        assert(self.cells[unit_cell(u, p)].answer == Some(v));
                        assert(allows(rest, v));
                    }
                }
            }
        }
    }

    /// In a solved grid every group holds every digit: the known answers of a group
    /// have the digit `d` at one of its places.
    pub proof fn lemma_unit_holds(self, u: int, d: u8) -> (p: int)
        requires
            self.wf(),
            self.answered(),
            0 <= u < 27,
            1 <= d <= 9,
        ensures
            0 <= p < 9,
            self.cells[unit_cell(u, p)].answer == Some(d),
    {
        self.lemma_unit_answers(u, 9);
        lemma_count_nine(self.unit_answers(u, 9));
        assert(allows(self.unit_answers(u, 9), d));
        choose|p: int| 0 <= p < 9 && #[trigger] self.cells[unit_cell(u, p)].answer == Some(d)
    }

    /// Whether square `k` stands at one of the slots of square `idx` below `s`.
    pub open spec fn swept(idx: int, k: int, s: int) -> bool {
        exists|t: int| 0 <= t < s && #[trigger] peer_slot(idx, t) == k
    }

    /// The grid with automatic promotion switched on or off.
    pub open spec fn with_auto_promote(self, on: bool) -> Board {
        Board { auto_promote: on, ..self }
    }

    /// The grid with square `j` replaced by `c`.
    pub open spec fn with_cell(self, j: int, c: Cell) -> Board {
        Board { cells: self.cells.update(j, c), ..self }
    }

    /// The grid once a contradiction is met: as it is, and invalid.
    pub open spec fn invalidated(self) -> Board {
        Board { state: BoardState::Invalid, ..self }
    }

    /// Whether every square but square `j` has the value in `after` that it has here.
    pub open spec fn same_values_but(self, after: Board, j: int) -> bool {
        forall|i: int|
            0 <= i < 81 && i != j ==> (#[trigger] after.cells[i]).value == self.cells[i].value
    }

    /// Whether every square has a known answer and no two peers have the same: the
    /// answers are a solved grid.
    pub open spec fn answered(self) -> bool {
        &&& forall|i: int| 0 <= i < 81 ==> (#[trigger] self.cells[i]).answer is Some
        &&& forall|i: int, j: int|
            0 <= i < 81 && 0 <= j < 81 && #[trigger] peers(i, j) ==> self.cells[i].answer
                != self.cells[j].answer
    }

    /// The grid with nothing written: every square blank, promotion automatic,
    /// givens still to come.
    pub open spec fn empty() -> Board {
        Board {
            cells: Seq::new(81, |i: int| Cell::blank()),
            starting_cell_count: 0,
            auto_promote: true,
            state: BoardState::Constructing,
        }
    }

    /// The grid with every dirty mark cleared.
    pub open spec fn cleared(self) -> Board {
        Board {
            cells: Seq::new(
                self.cells.len(),
                |i: int| Cell { is_dirty: false, ..self.cells[i] },
            ),
            ..self
        }
    }

    /// The digits that the assigned peers of square `j` hold at its slots below `s`,
    /// as a mask.
    pub open spec fn seen(self, j: int, s: int) -> u16
        decreases s,
    {
        if s <= 0 {
            0
        } else {
            let rest = self.seen(j, s - 1);
            let i = peer_slot(j, s - 1);
            if i != j && self.cells[i].value != 0 {
                rest | digit_mask(self.cells[i].value)
            } else {
                rest
            }
        }
    }

    /// Square `j` with the candidates that its assigned peers leave it.
    pub open spec fn reopened_cell(self, j: int) -> Cell {
        Cell { candidates: ALL_CANDIDATES & !self.seen(j, 27), ..self.cells[j] }
    }

    /// A fresh grid for a copy of this one: blank squares, with the known answers of
    /// this grid where they are wanted.
    pub open spec fn fresh(self, copy_answer: bool, auto_promote: bool) -> Board {
        Board {
            cells: Seq::new(
                81,
                |i: int|
                    Cell {
                        answer: if copy_answer {
                            self.cells[i].answer
                        } else {
                            None
                        },
                        ..Cell::blank()
                    },
            ),
            starting_cell_count: 0,
            auto_promote,
            state: BoardState::Constructing,
        }
    }

    /// The grid `start` after the values of the first `n` squares of this grid, but
    /// for square `skip`, have been written to it in index order.
    pub open spec fn replayed(self, start: Board, skip: int, n: int) -> Board
        decreases n,
    {
        if n <= 0 {
            start
        } else {
            let b = self.replayed(start, skip, n - 1);
            if self.cells[n - 1].value != 0 && n - 1 != skip {
                b.set_cell(n - 1, self.cells[n - 1].value)
            } else {
                b
            }
        }
    }

    /// The copy of this grid but for square `skip`: a fresh grid to which the values
    /// of this one have been written, so that the candidates are found anew.
    pub open spec fn copy_without(self, skip: int, copy_answer: bool, auto_promote: bool) -> Board {
        self.replayed(self.fresh(copy_answer, auto_promote), skip, 81)
    }

    /// The grid after the character `ch` of the table has been read for square `i`:
    /// nothing for an empty square; a digit is written and the square marked as
    /// given; any other character makes the grid invalid.
    pub open spec fn write_given(self, i: int, ch: char) -> Board {
        if is_blank(ch) {
            self
        } else if digit_of(ch) == 0 {
            self.invalidated()
        } else {
            let b = self.set_cell(i, digit_of(ch));
            if b.valid() {
                b.with_cell(i, Cell { is_given: true, ..b.cells[i] })
            } else {
                b
            }
        }
    }

    /// The grid after the first `n` characters of the table have been read.
    pub open spec fn write_givens(self, t: Seq<char>, n: int) -> Board
        decreases n,
    {
        if n <= 0 {
            self
        } else {
            self.write_givens(t, n - 1).write_given(n - 1, t[n - 1])
        }
    }

    /// The grid with `answers` for the known answers of its squares.
    pub open spec fn with_answers(self, answers: Seq<u8>) -> Board {
        Board {
            cells: Seq::new(81, |i: int| Cell { answer: Some(answers[i]), ..self.cells[i] }),
            ..self
        }
    }

    /// The grid that a text describes: the givens of its table written one after the
    /// other to an empty grid, then the known answers attached. There is none where
    /// a character is neither a digit nor a blank, where a given contradicts what
    /// is written already, or where an answer is no digit from 1 to 9 or
    /// contradicts its square.
    pub open spec fn parsed(text: Seq<char>, answers: Option<Seq<u8>>, auto_promote: bool) -> Option<
        Board,
    > {
        let table = read_table(text, 0, 0, 0, blank_table());
        let written = (Board { auto_promote, ..Board::empty() }).write_givens(table, 81);
        let b = match answers {
            Some(a) => written.with_answers(a),
            None => written,
        };
        if written.valid() && b.cells_wf() {
            Some(
                Board {
                    state: BoardState::Solving,
                    starting_cell_count: given_count(table, 81) as usize,
                    ..b
                },
            )
        } else {
            None
        }
    }

    /// Two grids whose values agree on the first `n` squares, square `skip1` of the
    /// one and square `skip2` of the other counting as empty, replay to the same.
    pub proof fn lemma_replay_same(self, other: Board, start: Board, skip1: int, skip2: int, n: int)
        requires
            forall|i: int|
                0 <= i < n ==> (if i == skip1 {
                    0
                } else {
                    (#[trigger] self.cells[i]).value
                }) == (if i == skip2 {
                    0
                } else {
                    other.cells[i].value
                }),
        ensures
            self.replayed(start, skip1, n) == other.replayed(start, skip2, n),
        decreases n,
    {
        if n > 0 {
            self.lemma_replay_same(other, start, skip1, skip2, n - 1);
            let here = self.cells[n - 1];
        }
    }

    /// The squares once the unassigned ones among square `idx` and its peers have
    /// the candidates that their assigned peers leave them.
    pub open spec fn reopened(self, idx: int) -> Seq<Cell> {
        Seq::new(
            81,
            |j: int|
                if self.cells[j].value == 0 && (j == idx || peers(idx, j)) {
                    self.reopened_cell(j)
                } else {
                    self.cells[j]
                },
        )
    }

    /// The grid once square `idx` has lost its value: the square is unassigned and
    /// dirty, and it and every unassigned peer of it have the candidates that their
    /// assigned peers leave them. Where that would leave a square without candidate
    /// or without its known answer, the grid becomes invalid instead.
    pub open spec fn unset(self, idx: int) -> Board {
        let cleared = self.with_cell(
            idx,
            Cell { value: 0, candidates: ALL_CANDIDATES, is_dirty: true, ..self.cells[idx] },
        );
        let after = Board { cells: cleared.reopened(idx), ..cleared };
        if !self.valid() {
            self
        } else if after.cells_wf() {
            after
        } else {
            self.invalidated()
        }
    }

    /// Whether the square at slot `t` of square `j` is a peer that holds the digit `v`.
    pub open spec fn slot_holds(self, j: int, t: int, v: u8) -> bool {
        peer_slot(j, t) != j && self.cells[peer_slot(j, t)].value == v
    }

    /// A digit that the mask of seen digits allows is held by a peer at one of the
    /// slots, and a digit that a peer holds there is allowed by the mask.
    pub proof fn lemma_seen(self, j: int, s: int)
        requires
            0 <= s <= 27,
            0 <= j < 81,
            self.cells.len() == 81,
            forall|i: int| 0 <= i < 81 ==> (#[trigger] self.cells[i]).value <= 9,
        ensures
            self.seen(j, s) <= 0x1FF,
            forall|v: u8| #[trigger]
                allows(self.seen(j, s), v) ==> exists|t: int|
                    0 <= t < s && #[trigger] self.slot_holds(j, t, v),
            forall|v: u8, t: int|
                1 <= v <= 9 && 0 <= t < s && #[trigger] self.slot_holds(j, t, v) ==> allows(
                    self.seen(j, s),
                    v,
                ),
        decreases s,
    {
        lemma_constant_masks();
        if s > 0 {
            self.lemma_seen(j, s - 1);
            let rest = self.seen(j, s - 1);
            let i = peer_slot(j, s - 1);
            crate::position::lemma_slot_sees(j, s - 1);
            let w = self.cells[i].value;
            let taken = i != j && w != 0;
            if taken {
                lemma_single_bit((w - 1) as u16);
                lemma_union(rest, digit_mask(w));
            }
            assert forall|v: u8| #[trigger] allows(self.seen(j, s), v) implies exists|t: int|
                0 <= t < s && #[trigger] self.slot_holds(j, t, v) by {
                if allows(rest, v) {
                    let t = choose|t: int| 0 <= t < s - 1 && #[trigger] self.slot_holds(j, t, v);
                    assert(self.slot_holds(j, t, v));
                } else {
                    assert(taken);
                    assert(has_bit(rest | digit_mask(w), (v - 1) as u16) == (has_bit(
                        rest,
                        (v - 1) as u16,
                    ) || has_bit(digit_mask(w), (v - 1) as u16)));
                    assert(v == w);
                    assert(self.slot_holds(j, s - 1, v));
                }
            }
            assert forall|v: u8, t: int|
                1 <= v <= 9 && 0 <= t < s && #[trigger] self.slot_holds(j, t, v) implies allows(
                self.seen(j, s),
                v,
            ) by {
                if taken {
                    assert(has_bit(rest | digit_mask(w), (v - 1) as u16) == (has_bit(
                        rest,
                        (v - 1) as u16,
                    ) || has_bit(digit_mask(w), (v - 1) as u16)));
                }
                if t < s - 1 {
                    assert(allows(rest, v));
                } else {
                    assert(v == w);
                }
            }
        }
    }

    /// Whether a peer of square `j` holds the digit `v`.
    pub open spec fn peer_holds(self, j: int, v: u8) -> bool {
        exists|i: int| 0 <= i < 81 && #[trigger] peers(j, i) && self.cells[i].value == v
    }

    /// Striking the digits of `bits` from the unassigned square `j`. A square that
    /// would be left without candidate, or without its known answer, makes the grid
    /// invalid instead. With automatic promotion, a square left with one candidate
    /// takes it as its value, and that value is propagated.
    pub open spec fn eliminate(self, j: int, bits: u16, mark: bool) -> Board
        decreases self.weight(), 1int, 0int,
    {
        let c = self.cells[j];
        if !self.valid() || c.value != 0 {
            self
        } else if !c.survives(bits) {
            self.invalidated()
        } else {
            let b = self.with_cell(j, c.without(bits, mark));
            if self.auto_promote && count(c.candidates & !bits) == 1 && b.weight()
                <= self.weight() {
                b.place(j, lowest_digit(c.candidates & !bits))
            } else {
                b
            }
        }
    }

    /// Giving the unassigned square `j` the digit `v` and propagating it. Where a
    /// peer holds `v` already, or the known answer differs, the grid becomes
    /// invalid instead.
    pub open spec fn place(self, j: int, v: u8) -> Board
        decreases self.weight(), 0int, 0int,
    {
        let c = self.cells[j];
        if !self.valid() || c.value != 0 {
            self
        } else if self.peer_holds(j, v) || !c.accepts(v) {
            self.invalidated()
        } else {
            let b = self.with_cell(j, c.assigned(v));
            if b.weight() < self.weight() {
                b.sweep(j, 0)
            } else {
                b
            }
        }
    }

    /// Propagating the value of square `idx` from slot `s` on: the value is struck
    /// from each peer in turn, until the slots are done or the grid is invalid.
    pub open spec fn sweep(self, idx: int, s: int) -> Board
        decreases self.weight(), 2int, 27 - s,
    {
        if s < 0 || s >= 27 || !self.valid() {
            self
        } else {
            let j = peer_slot(idx, s);
            let b = if j == idx {
                self
            } else {
                self.eliminate(j, digit_mask(self.cells[idx].value), false)
            };
            if b.weight() <= self.weight() {
                b.sweep(idx, s + 1)
            } else {
                b
            }
        }
    }

    /// Writing the digit `v` to square `idx`: nothing where the square holds `v`
    /// already; a contradiction where it holds another digit or does not permit
    /// `v`; else the digit is placed and propagated.
    pub open spec fn set_cell(self, idx: int, v: u8) -> Board {
        let c = self.cells[idx];
        if !self.valid() || c.value == v {
            self
        } else if !c.permits(v) {
            self.invalidated()
        } else {
            self.place(idx, v)
        }
    }

    /// Striking the digits of `bits`, with a dirty mark, from the squares of group `u`
    /// at the places from `k` on that `skip` does not hold, one after the other.
    pub open spec fn strike(self, u: int, skip: u16, bits: u16, k: int) -> Board
        decreases 9 - k,
    {
        if k < 0 || k >= 9 {
            self
        } else if has_bit(skip, k as u16) {
            self.strike(u, skip, bits, k + 1)
        } else {
            self.eliminate(unit_cell(u, k), bits, true).strike(u, skip, bits, k + 1)
        }
    }

    /// The places of group `u` below `k` whose squares permit the digit `d`, as a
    /// mask: bit `p` stands for place `p`.
    pub open spec fn places(self, u: int, d: u8, k: int) -> u16
        decreases k,
    {
        if k <= 0 {
            0
        } else {
            let rest = self.places(u, d, k - 1);
            if self.cells[unit_cell(u, k - 1)].permits(d) {
                rest | (1u16 << ((k - 1) as u16))
            } else {
                rest
            }
        }
    }

    /// What the mask of places means: bit `p` is set exactly where the square at
    /// place `p` permits the digit.
    pub proof fn lemma_places(self, u: int, d: u8, k: int)
        requires
            0 <= k <= 9,
        ensures
            self.places(u, d, k) <= 0x1FF,
            forall|p: u16|
                p < 16 ==> (#[trigger] has_bit(self.places(u, d, k), p) <==> p < k
                    && self.cells[unit_cell(u, p as int)].permits(d)),
        decreases k,
    {
        lemma_constant_masks();
        if k > 0 {
            self.lemma_places(u, d, k - 1);
            let rest = self.places(u, d, k - 1);
            let bit = 1u16 << ((k - 1) as u16);
            lemma_single_bit((k - 1) as u16);
            lemma_union(rest, bit);
            assert(bit <= 0x1FF);
            assert forall|p: u16| p < 16 implies (#[trigger] has_bit(self.places(u, d, k), p) <==> p
                < k && self.cells[unit_cell(u, p as int)].permits(d)) by {
                assert(has_bit(rest | bit, p) == (has_bit(rest, p) || has_bit(bit, p)));
                assert(has_bit(bit, p) == (p == (k - 1) as u16));
            }
        }
    }

    /// Whether `after` has the squares of this grid with their given marks, and the
    /// assigned ones with their values.
    pub open spec fn keeps(self, after: Board) -> bool {
        &&& after.cells.len() == self.cells.len()
        &&& after.auto_promote == self.auto_promote
        &&& (!self.valid() ==> !after.valid())
        &&& forall|i: int|
            0 <= i < self.cells.len() ==> {
                &&& (#[trigger] after.cells[i]).is_given == self.cells[i].is_given
                &&& (self.cells[i].value != 0 ==> after.cells[i].value == self.cells[i].value)
            }
    }

    /// Striking candidates keeps the given marks and the values.
    pub proof fn lemma_eliminate_keeps(self, j: int, bits: u16, mark: bool)
        requires
            self.cells.len() == 81,
            0 <= j < 81,
        ensures
            self.keeps(self.eliminate(j, bits, mark)),
        decreases self.weight(), 1int, 0int,
    {
        let c = self.cells[j];
        if self.valid() && c.value == 0 && c.survives(bits) {
            let b = self.with_cell(j, c.without(bits, mark));
            if self.auto_promote && count(c.candidates & !bits) == 1 && b.weight()
                <= self.weight() {
                b.lemma_place_keeps(j, lowest_digit(c.candidates & !bits));
            }
        }
    }

    /// Placing a digit keeps the given marks and the values, and the square has the
    /// digit unless the grid became invalid.
    pub proof fn lemma_place_keeps(self, j: int, v: u8)
        requires
            self.cells.len() == 81,
            0 <= j < 81,
        ensures
            self.keeps(self.place(j, v)),
            self.cells[j].value == 0 && self.place(j, v).valid() && v != 0 ==> self.place(
                j,
                v,
            ).cells[j].value == v,
        decreases self.weight(), 0int, 0int,
    {
        let c = self.cells[j];
        if self.valid() && c.value == 0 && !(self.peer_holds(j, v) || !c.accepts(v)) {
            let b = self.with_cell(j, c.assigned(v));
            lemma_mask_sum_update(self.cells, j, c.assigned(v));
            if b.weight() < self.weight() {
                b.lemma_sweep_keeps(j, 0);
                assert(b.cells[j].value == v);
            }
        }
    }

    /// Propagating a value keeps the given marks and the values.
    pub proof fn lemma_sweep_keeps(self, idx: int, s: int)
        requires
            self.cells.len() == 81,
            0 <= idx < 81,
            0 <= s,
        ensures
            self.keeps(self.sweep(idx, s)),
        decreases self.weight(), 2int, 27 - s,
    {
        if s < 27 && self.valid() {
            let j = peer_slot(idx, s);
            crate::position::lemma_slot_sees(idx, s);
            let b = if j == idx {
                self
            } else {
                self.eliminate(j, digit_mask(self.cells[idx].value), false)
            };
            if j != idx {
                self.lemma_eliminate_keeps(j, digit_mask(self.cells[idx].value), false);
            }
            if b.weight() <= self.weight() {
                b.lemma_sweep_keeps(idx, s + 1);
            }
        }
    }

    /// Writing a digit keeps the given marks and the values, and the square has the
    /// digit unless the grid is invalid.
    pub proof fn lemma_set_cell_keeps(self, idx: int, v: u8)
        requires
            self.cells.len() == 81,
            0 <= idx < 81,
            1 <= v <= 9,
        ensures
            self.keeps(self.set_cell(idx, v)),
            self.set_cell(idx, v).valid() ==> self.set_cell(idx, v).cells[idx].value == v,
    {
        let c = self.cells[idx];
        if self.valid() && c.value != v && c.permits(v) {
            self.lemma_place_keeps(idx, v);
        }
    }

    /// Replacing one square by a narrower, well-formed one that keeps its value is
    /// a step of deduction.
    pub proof fn lemma_narrow_cell(self, j: int, c: Cell)
        requires
            self.wf(),
            self.valid(),
            0 <= j < 81,
            c.wf(),
            c.narrows(self.cells[j]),
            c.value == self.cells[j].value,
            c.candidates == self.cells[j].candidates ==> c == self.cells[j],
        ensures
            self.advances(self.with_cell(j, c)),
            c == self.cells[j] ==> self.with_cell(j, c) == self,
            c.candidates < self.cells[j].candidates ==> self.with_cell(j, c).weight()
                < self.weight(),
    {
        let after = self.with_cell(j, c);
        lemma_mask_sum_update(self.cells, j, c);
        assert forall|i: int| 0 <= i < 81 implies (#[trigger] after.cells[i]).narrows(
            self.cells[i],
        ) by {}
        assert forall|i: int, k: int|
            0 <= i < 81 && 0 <= k < 81 && #[trigger] peers(i, k) && after.cells[i].value
                != 0 implies after.cells[i].value != after.cells[k].value by {
            assert(after.cells[i].value == self.cells[i].value);
            assert(after.cells[k].value == self.cells[k].value);
        }
        if c == self.cells[j] {
            assert(after =~= self);
        }
        assert forall|i: int, k: int| #[trigger] after.clash(i, k) implies self.clash(i, k) by {
            assert(after.cells[i].value == self.cells[i].value);
            assert(after.cells[k].narrows(self.cells[k]));
        }
    }

    /// Deduction keeps the known answers.
    pub proof fn lemma_answered_kept(self, after: Board)
        requires
            self.answered(),
            self.cells.len() == 81,
            after.refines(self),
        ensures
            after.answered(),
    {
        assert forall|i: int| 0 <= i < 81 implies (#[trigger] after.cells[i]).answer
            == self.cells[i].answer by {
            assert(after.cells[i].narrows(self.cells[i]));
        }
    }

    /// Leaving a well-formed grid as it is counts as a step.
    pub proof fn lemma_advances_self(self)
        requires
            self.wf(),
        ensures
            self.advances(self),
    {
    }

    /// Moves that narrow compose.
    pub proof fn lemma_narrows_trans(self, mid: Board, after: Board)
        requires
            self.narrows_to(mid),
            mid.narrows_to(after),
        ensures
            self.narrows_to(after),
    {
        assert forall|i: int| 0 <= i < after.cells.len() implies (#[trigger] after.cells[i]).narrows(
            self.cells[i],
        ) by {
            assert(after.cells[i].narrows(mid.cells[i]));
            assert(mid.cells[i].narrows(self.cells[i]));
        }
    }

    /// Deduction steps compose.
    pub proof fn lemma_advances_trans(self, mid: Board, after: Board)
        requires
            self.advances(mid),
            mid.advances(after),
        ensures
            self.advances(after),
    {
        assert forall|i: int| 0 <= i < after.cells.len() implies (#[trigger] after.cells[i]).narrows(
            self.cells[i],
        ) by {
            assert(after.cells[i].narrows(mid.cells[i]));
            assert(mid.cells[i].narrows(self.cells[i]));
        }
        if after.valid() {
            assert forall|i: int, k: int| #[trigger] after.clash(i, k) implies self.clash(i, k) by {
                assert(mid.clash(i, k));
            }
        }
    }
}

} // verus!
