//! Laws of the engine: what a well-formed grid is, that solving twice is solving
//! once, and that the text of the givens parses to the grid it came from.

use crate::board::{
    blank_table, digit_char, digit_of, given_count, is_blank, read_table, Board, BoardState,
};
use crate::cell::Cell;
use crate::mask::{allows, count};
use crate::position::peers;
use crate::render::{given_char, givens_text};
use crate::solvers::{first_change, settled, solved, Rule};
use vstd::prelude::*;

verus! {

/// The invariants of a grid, spelled out. In a well-formed grid every square
/// either holds a digit and has no candidate, or holds none and has a candidate;
/// the known answer of an unassigned square is one of its candidates, and that of
/// an assigned one is its value; no two squares of a row, a column or a region
/// hold the same digit. Where promotion is automatic and held so far, no
/// unassigned square of a valid grid has exactly one candidate.
pub proof fn lemma_grid_invariants(b: Board)
    requires
        b.wf(),
    ensures
        forall|i: int|
            0 <= i < 81 ==> ((#[trigger] b.cells[i]).value != 0 && b.cells[i].candidates == 0) || (
            b.cells[i].value == 0 && b.cells[i].candidates != 0),
        forall|i: int|
            0 <= i < 81 && (#[trigger] b.cells[i]).answer is Some ==> if b.cells[i].value == 0 {
                allows(b.cells[i].candidates, b.cells[i].answer->0)
            } else {
                b.cells[i].value == b.cells[i].answer->0
            },
        forall|i: int, j: int|
            0 <= i < 81 && 0 <= j < 81 && #[trigger] peers(i, j) && b.cells[i].value != 0
                && b.cells[j].value != 0 ==> b.cells[i].value != b.cells[j].value,
        b.promoted() && b.valid() && b.auto_promote ==> forall|i: int|
            0 <= i < 81 && (#[trigger] b.cells[i]).value == 0 ==> count(b.cells[i].candidates) != 1,
{
    assert forall|i: int| 0 <= i < 81 implies ((#[trigger] b.cells[i]).value != 0
        && b.cells[i].candidates == 0) || (b.cells[i].value == 0 && b.cells[i].candidates
        != 0) by {
        assert(b.cells[i].wf());
    }
    assert forall|i: int| 0 <= i < 81 && (#[trigger] b.cells[i]).answer is Some implies if b.cells[i].value
        == 0 {
        allows(b.cells[i].candidates, b.cells[i].answer->0)
    } else {
        b.cells[i].value == b.cells[i].answer->0
    } by {
        assert(b.cells[i].wf());
    }
}

/// The loop ends on a grid on which it has nothing left to do.
pub proof fn lemma_solved_is_settled(b: Board, rules: Seq<Rule>)
    ensures
        settled(solved(b, rules), rules),
    decreases b.weight(),
{
    let next = first_change(b, rules, 0);
    if next.weight() < b.weight() {
        lemma_solved_is_settled(next, rules);
    }
}

/// Solving is idempotent: solving a solved grid again leaves it as it is.
pub proof fn lemma_solve_idempotent(b: Board, rules: Seq<Rule>)
    ensures
        solved(solved(b, rules), rules) == solved(b, rules),
{
    lemma_solved_is_settled(b, rules);
}


/// Reading a text changes the characters of a table, not its length.
pub proof fn lemma_read_table_len(text: Seq<char>, i: int, row: int, col: int, t: Seq<char>)
    requires
        0 <= row,
        0 <= col,
        t.len() == 81,
    ensures
        read_table(text, i, row, col, t).len() == 81,
    decreases text.len() - i,
{
    if 0 <= i < text.len() {
        if text[i] == '\n' {
            lemma_read_table_len(text, i + 1, row + 1, 0, t);
        } else if text[i] == '|' {
            lemma_read_table_len(text, i + 1, row, col, t);
        } else if row < 9 && col < 9 {
            lemma_read_table_len(text, i + 1, row, col + 1, t.update(9 * row + col, text[i]));
        } else {
            lemma_read_table_len(text, i + 1, row, col + 1, t);
        }
    }
}

/// Whether the given marks of `b` are those of the first `n` characters of the
/// table `t`: a square is marked exactly where its character stands for a given,
/// and then holds the digit of that character.
pub open spec fn marks_follow(b: Board, t: Seq<char>, n: int) -> bool {
    &&& b.cells.len() == 81
    &&& forall|i: int|
        0 <= i < 81 ==> {
            &&& (#[trigger] b.cells[i]).is_given == (i < n && !is_blank(t[i]))
            &&& (b.cells[i].is_given ==> b.cells[i].value == digit_of(t[i]) && digit_of(t[i]) != 0)
        }
}

/// An invalid grid stays invalid when a character is read.
proof fn lemma_write_given_sticky(b: Board, i: int, ch: char)
    requires
        !b.valid(),
    ensures
        !b.write_given(i, ch).valid(),
{
}

/// While the grid stays valid, the squares marked as givens are those whose
/// characters stand for one.
proof fn lemma_written_marks(start: Board, t: Seq<char>, n: int)
    requires
        start.cells == Board::empty().cells,
        t.len() == 81,
        0 <= n <= 81,
        start.write_givens(t, n).valid(),
    ensures
        marks_follow(start.write_givens(t, n), t, n),
    decreases n,
{
    if n > 0 {
        let prev = start.write_givens(t, n - 1);
        let ch = t[n - 1];
        if !prev.valid() {
            lemma_write_given_sticky(prev, n - 1, ch);
        }
        lemma_written_marks(start, t, n - 1);
        let after = prev.write_given(n - 1, ch);
        if !is_blank(ch) && digit_of(ch) != 0 {
            let d = digit_of(ch);
            prev.lemma_set_cell_keeps(n - 1, d);
            let set = prev.set_cell(n - 1, d);
            assert(set.valid());
            assert forall|i: int| 0 <= i < 81 implies {
                &&& (#[trigger] after.cells[i]).is_given == (i < n && !is_blank(t[i]))
                &&& (after.cells[i].is_given ==> after.cells[i].value == digit_of(t[i])
                    && digit_of(t[i]) != 0)
            } by {
                assert(set.cells[i].is_given == prev.cells[i].is_given);
            }
        } else {
            assert(is_blank(ch));
        }
    }
}

/// The table in which the squares from `k` on have the characters of the givens.
pub open spec fn partly_read(cells: Seq<Cell>, t: Seq<char>, k: int) -> Seq<char> {
    Seq::new(
        81,
        |i: int|
            if i >= k {
                given_char(cells[i])
            } else {
                t[i]
            },
    )
}

/// The text of the givens has a character for each square and a line feed after
/// each row.
proof fn lemma_givens_shape(cells: Seq<Cell>, n: int)
    requires
        0 <= n <= 81,
    ensures
        givens_text(cells, n).len() == n + n / 9,
        forall|k: int| 0 <= k < n ==> #[trigger] givens_text(cells, n)[k + k / 9] == given_char(cells[k]),
        forall|k: int|
            0 <= k < n && k % 9 == 8 ==> #[trigger] givens_text(cells, n)[k + k / 9 + 1] == '\n',
    decreases n,
{
    if n > 0 {
        lemma_givens_shape(cells, n - 1);
        let before = givens_text(cells, n - 1);
        let now = givens_text(cells, n);
        let k0 = n - 1;
        assert(before.len() == k0 + k0 / 9);
        assert forall|k: int| 0 <= k < n implies #[trigger] now[k + k / 9] == given_char(cells[k]) by {
            if k < k0 {
                assert(before[k + k / 9] == given_char(cells[k]));
                assert(k + k / 9 < before.len());
            }
        }
        assert forall|k: int| 0 <= k < n && k % 9 == 8 implies #[trigger] now[k + k / 9 + 1]
            == '\n' by {
            if k < k0 {
                assert(before[k + k / 9 + 1] == '\n');
                assert(k + k / 9 + 1 < before.len());
            }
        }
    }
}

/// A given is shown by a digit, never by a line feed or a bar.
proof fn lemma_given_char(c: Cell)
    ensures
        given_char(c) != '\n',
        given_char(c) != '|',
{
}

/// Reading the text of the givens from the place of square `k` on fills the table
/// with the characters of the givens from that square on.
proof fn lemma_read_givens_from(cells: Seq<Cell>, t: Seq<char>, k: int)
    requires
        t.len() == 81,
        0 <= k <= 81,
    ensures
        read_table(givens_text(cells, 81), k + k / 9, k / 9, k % 9, t) == partly_read(cells, t, k),
    decreases 81 - k,
{
    let text = givens_text(cells, 81);
    lemma_givens_shape(cells, 81);
    let i = k + k / 9;
    if k == 81 {
        assert(partly_read(cells, t, k) =~= t);
    } else {
        let ch = given_char(cells[k]);
        lemma_given_char(cells[k]);
        assert(text[i] == ch);
        let row = k / 9;
        let col = k % 9;
        assert(9 * row + col == k);
        let next = t.update(k, ch);
        lemma_read_givens_from(cells, next, k + 1);
        assert(partly_read(cells, next, k + 1) =~= partly_read(cells, t, k));
        if col < 8 {
            assert((k + 1) / 9 == row && (k + 1) % 9 == col + 1);
        } else {
            assert((k + 1) / 9 == row + 1 && (k + 1) % 9 == 0);
            assert(text[i + 1] == '\n');
            assert(read_table(text, i + 1, row, col + 1, next) == read_table(
                text,
                i + 2,
                row + 1,
                0,
                next,
            ));
        }
    }
}

/// Two tables that agree on which squares are empty, and on the characters of
/// the others, write the same givens.
proof fn lemma_same_writes(start: Board, t: Seq<char>, u: Seq<char>, n: int)
    requires
        0 <= n <= 81,
        forall|i: int|
            0 <= i < n ==> is_blank(#[trigger] t[i]) == is_blank(u[i]) && (!is_blank(t[i]) ==> u[i]
                == t[i]),
    ensures
        start.write_givens(t, n) == start.write_givens(u, n),
        given_count(t, n) == given_count(u, n),
    decreases n,
{
    if n > 0 {
        lemma_same_writes(start, t, u, n - 1);
        assert(is_blank(t[n - 1]) == is_blank(u[n - 1]));
    }
}

/// The round trip of the givens: the text of the givens of a parsed grid parses to
/// that grid again, with the same known answers and the same setting.
pub proof fn lemma_givens_round_trip(text: Seq<char>, answers: Option<Seq<u8>>, auto_promote: bool)
    requires
        Board::parsed(text, answers, auto_promote) is Some,
    ensures
        Board::parsed(
            givens_text(Board::parsed(text, answers, auto_promote)->0.cells, 81),
            answers,
            auto_promote,
        ) == Board::parsed(text, answers, auto_promote),
{
    let t = read_table(text, 0, 0, 0, blank_table());
    lemma_read_table_len(text, 0, 0, 0, blank_table());
    let start = Board { auto_promote, ..Board::empty() };
    let written = start.write_givens(t, 81);
    lemma_written_marks(start, t, 81);
    let b = Board::parsed(text, answers, auto_promote)->0;
    let again = givens_text(b.cells, 81);
    let u = read_table(again, 0, 0, 0, blank_table());
    lemma_read_givens_from(b.cells, blank_table(), 0);
    assert(u == partly_read(b.cells, blank_table(), 0));
    assert forall|i: int| 0 <= i < 81 implies is_blank(#[trigger] t[i]) == is_blank(u[i]) && (
    !is_blank(t[i]) ==> u[i] == t[i]) by {
        assert(b.cells[i].is_given == written.cells[i].is_given);
        assert(b.cells[i].value == written.cells[i].value);
        assert(u[i] == given_char(b.cells[i]));
    }
    lemma_same_writes(start, t, u, 81);
}

} // verus!
