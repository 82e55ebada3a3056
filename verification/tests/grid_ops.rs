use sudoku::board::BoardState;
use sudoku::grid::{char_digit, share_group, Grid};
use sudoku::position::Position;

const EASY: &str = "530070000\n600195000\n098000060\n800060003\n400803001\n700020006\n060000280\n000419005\n000080079\n";

const EASY_SOLVED: [[u8; 9]; 9] = [
    [5, 3, 4, 6, 7, 8, 9, 1, 2],
    [6, 7, 2, 1, 9, 5, 3, 4, 8],
    [1, 9, 8, 3, 4, 2, 5, 6, 7],
    [8, 5, 9, 7, 6, 1, 4, 2, 3],
    [4, 2, 6, 8, 5, 3, 7, 9, 1],
    [7, 1, 3, 9, 2, 4, 8, 5, 6],
    [9, 6, 1, 5, 3, 7, 2, 8, 4],
    [2, 8, 7, 4, 1, 9, 6, 3, 5],
    [3, 4, 5, 2, 8, 6, 1, 7, 9],
];

fn bit(v: u8) -> u16 {
    1u16 << (v - 1)
}

fn check_invariants(grid: &Grid) {
    for i in 0..81 {
        let c = grid.get_cell_unchecked(Position::from_index(i));
        assert!(c.candidates <= 0x1FF);
        assert!(c.value <= 9);
        if c.value != 0 {
            assert_eq!(c.candidates, 0, "cell {i}");
        } else {
            assert_ne!(c.candidates, 0, "cell {i}");
        }
        if let Some(a) = c.answer {
            if c.value != 0 {
                assert_eq!(c.value, a);
            } else {
                assert_ne!(c.candidates & bit(a), 0);
            }
        }
        for j in 0..81 {
            if share_group(i, j) && c.value != 0 {
                assert_ne!(c.value, grid.get_cell_unchecked(Position::from_index(j)).value);
            }
        }
        if grid.auto_promote && grid.is_valid() && c.value == 0 {
            assert_ne!(c.candidates.count_ones(), 1, "cell {i} is a naked single");
        }
    }
}

#[test]
fn parse_marks_givens_and_counts_them() {
    let grid = Grid::from_string(EASY, None, false).expect("board parses");
    assert_eq!(grid.starting_cell_count, 30);
    assert_eq!(grid.current_state, BoardState::Solving);
    assert!(!grid.auto_promote);
    assert_eq!(grid.count_filled(), 30);
    let c = grid.get_cell_unchecked(Position::new(0, 0));
    assert_eq!(c.value, 5);
    assert!(c.is_given);
    let d = grid.get_cell_unchecked(Position::new(0, 2));
    assert_eq!(d.value, 0);
    assert!(!d.is_given);
    assert_eq!(d.candidates, bit(1) | bit(2) | bit(4));
    check_invariants(&grid);
}

#[test]
fn parse_with_auto_promote_cascades() {
    let grid = Grid::from_string(EASY, None, true).expect("board parses");
    assert!(grid.count_filled() > 30);
    assert_eq!(grid.starting_cell_count, 30);
    check_invariants(&grid);
    let mut givens = 0;
    for i in 0..81 {
        if grid.get_cell_unchecked(Position::from_index(i)).is_given {
            givens += 1;
        }
    }
    assert_eq!(givens, 30);
}

#[test]
fn parse_accepts_spaces_bars_and_short_lines() {
    let grid = Grid::from_string("5 3|   |\n\n|  9", None, false).expect("board parses");
    assert_eq!(grid.get_cell_unchecked(Position::new(0, 0)).value, 5);
    assert_eq!(grid.get_cell_unchecked(Position::new(0, 2)).value, 3);
    assert_eq!(grid.get_cell_unchecked(Position::new(2, 2)).value, 9);
    assert_eq!(grid.count_filled(), 3);
    assert_eq!(grid.starting_cell_count, 3);
}

#[test]
fn parse_of_nothing_is_an_empty_grid() {
    let grid = Grid::from_string("", None, true).expect("board parses");
    assert_eq!(grid.count_filled(), 0);
    assert_eq!(grid.starting_cell_count, 0);
    assert!(grid.auto_promote);
}

#[test]
fn parse_reads_nine_lines_of_nine() {
    let long = "1234567890\n000000000\n000000000\n000000000\n000000000\n000000000\n000000000\n000000000\n000000000\n999999999\nxyz\n";
    let grid = Grid::from_string(long, None, false).expect("board parses");
    assert_eq!(grid.count_filled(), 9);
    assert_eq!(grid.get_cell_unchecked(Position::new(0, 8)).value, 9);
    assert_eq!(grid.get_cell_unchecked(Position::new(8, 0)).value, 0);
}

#[test]
fn parse_rejects_other_characters() {
    assert!(Grid::from_string("53a070000\n", None, true).is_none());
    assert!(Grid::from_string("-", None, false).is_none());
    assert!(Grid::from_string("1\r\n2", None, false).is_none());
}

#[test]
fn parse_rejects_duplicates() {
    assert!(Grid::from_string("110000000\n", None, false).is_none());
    assert!(Grid::from_string("100000000\n100000000\n", None, false).is_none());
    assert!(Grid::from_string("100000000\n010000000\n", None, true).is_none());
    assert!(Grid::from_string("100000000\n020000000\n", None, true).is_some());
}

#[test]
fn parse_rejects_a_square_left_without_candidates() {
    let board = "12345678 \n\n\n\n\n\n\n\n        9\n";
    assert!(Grid::from_string(board, None, false).is_none());
    assert!(Grid::from_string(board, None, true).is_none());
}

#[test]
fn parse_attaches_answers() {
    let grid = Grid::from_string(EASY, Some(EASY_SOLVED), true).expect("board parses");
    for r in 0..9 {
        for c in 0..9 {
            assert_eq!(
                grid.get_cell_unchecked(Position::new(r, c)).answer,
                Some(EASY_SOLVED[r][c])
            );
        }
    }
    check_invariants(&grid);
}

#[test]
fn parse_rejects_answers_that_contradict() {
    let mut wrong = EASY_SOLVED;
    wrong[0][0] = 4;
    assert!(Grid::from_string(EASY, Some(wrong), false).is_none());
    let mut unreachable = EASY_SOLVED;
    unreachable[0][2] = 3;
    assert!(Grid::from_string(EASY, Some(unreachable), false).is_none());
    let mut zero = EASY_SOLVED;
    zero[4][4] = 0;
    assert!(Grid::from_string(EASY, Some(zero), false).is_none());
    let mut ten = EASY_SOLVED;
    ten[4][4] = 10;
    assert!(Grid::from_string(EASY, Some(ten), false).is_none());
}

#[test]
fn char_digit_reads_digits() {
    assert_eq!(char_digit('1'), 1);
    assert_eq!(char_digit('9'), 9);
    assert_eq!(char_digit('0'), 0);
    assert_eq!(char_digit('x'), 0);
}

#[test]
fn set_cell_assigns_and_propagates() {
    let mut grid = Grid::new();
    grid.set_auto_promote(false);
    grid.set_cell(Position::new(4, 4), 5);
    assert!(grid.is_valid());
    let c = grid.get_cell_unchecked(Position::new(4, 4));
    assert_eq!(c.value, 5);
    assert_eq!(c.candidates, 0);
    assert!(c.is_dirty);
    for i in 0..81 {
        let p = Position::from_index(i);
        let cell = grid.get_cell_unchecked(p);
        if share_group(40, i) {
            assert_eq!(cell.candidates, 0x1FF & !bit(5), "cell {i}");
            assert!(!cell.is_dirty);
        } else if i != 40 {
            assert_eq!(cell.candidates, 0x1FF);
        }
    }
    check_invariants(&grid);
}

#[test]
fn set_cell_with_the_same_value_is_a_no_op() {
    let mut grid = Grid::new();
    grid.set_cell(Position::new(0, 0), 3);
    grid.clear_dirty();
    grid.set_cell(Position::new(0, 0), 3);
    assert!(grid.is_valid());
    assert!(!grid.get_cell_unchecked(Position::new(0, 0)).is_dirty);
    assert_eq!(grid.count_filled(), 1);
}

#[test]
fn set_cell_conflicts_invalidate_while_constructing() {
    let mut grid = Grid::new();
    grid.set_cell(Position::new(0, 0), 3);
    grid.set_cell(Position::new(0, 0), 4);
    assert!(!grid.is_valid());
    assert_eq!(grid.current_state, BoardState::Invalid);
    assert_eq!(grid.get_cell_unchecked(Position::new(0, 0)).value, 3);

    let mut other = Grid::new();
    other.set_cell(Position::new(0, 0), 3);
    other.set_cell(Position::new(0, 5), 3);
    assert!(!other.is_valid());
    assert_eq!(other.get_cell_unchecked(Position::new(0, 5)).value, 0);
    other.set_cell(Position::new(8, 8), 1);
    assert_eq!(other.get_cell_unchecked(Position::new(8, 8)).value, 0);
}

#[test]
fn set_cell_with_auto_promote_fills_the_last_square_of_a_row() {
    let mut grid = Grid::new();
    for col in 0..8 {
        grid.set_cell(Position::new(0, col), (col + 1) as u8);
    }
    assert_eq!(grid.get_cell_unchecked(Position::new(0, 8)).value, 9);
    assert_eq!(grid.get_cell_unchecked(Position::new(5, 8)).candidates, 0x1FF & !bit(9));
    check_invariants(&grid);
}

#[test]
fn remove_seen_candidates_strikes_the_value_from_peers() {
    let mut grid = Grid::new();
    grid.set_auto_promote(false);
    {
        let c = grid.get_mut_cell_unchecked(Position::new(2, 3));
        c.value = 8;
        c.candidates = 0;
    }
    grid.remove_seen_candidates(Position::new(2, 3));
    assert_eq!(grid.get_cell_unchecked(Position::new(2, 0)).candidates, 0x1FF & !bit(8));
    assert_eq!(grid.get_cell_unchecked(Position::new(7, 3)).candidates, 0x1FF & !bit(8));
    assert_eq!(grid.get_cell_unchecked(Position::new(0, 5)).candidates, 0x1FF & !bit(8));
    assert_eq!(grid.get_cell_unchecked(Position::new(3, 4)).candidates, 0x1FF);
}

#[test]
fn eliminate_surfaces_an_empty_square() {
    let mut grid = Grid::new();
    grid.set_auto_promote(false);
    assert!(grid.eliminate(0, 0x1FE, true));
    assert_eq!(grid.get_cell_unchecked(Position::new(0, 0)).candidates, 1);
    assert!(grid.is_valid());
    assert!(grid.eliminate(0, 1, true));
    assert!(!grid.is_valid());
    assert_eq!(grid.get_cell_unchecked(Position::new(0, 0)).candidates, 1);
    assert!(!grid.eliminate(5, 1, true));
}

#[test]
fn eliminate_keeps_the_known_answer() {
    let mut grid = Grid::from_string(EASY, Some(EASY_SOLVED), false).expect("board parses");
    let idx = Position::new(0, 2).get_index();
    assert!(grid.eliminate(idx, bit(4), true));
    assert!(!grid.is_valid());
    assert_eq!(
        grid.get_cell_unchecked(Position::new(0, 2)).candidates,
        bit(1) | bit(2) | bit(4)
    );
}

#[test]
fn unset_reopens_the_square_and_its_peers() {
    let mut grid = Grid::from_string(EASY, None, false).expect("board parses");
    let before = grid.get_cell_unchecked(Position::new(0, 2)).candidates;
    grid.unset_cell(Position::new(0, 0));
    assert!(grid.is_valid());
    let c = grid.get_cell_unchecked(Position::new(0, 0));
    assert_eq!(c.value, 0);
    assert!(c.is_dirty);
    assert_eq!(c.candidates, bit(1) | bit(2) | bit(5));
    assert_eq!(grid.get_cell_unchecked(Position::new(0, 2)).candidates, before | bit(5));
    assert_eq!(grid.get_cell_unchecked(Position::new(0, 1)).value, 3);
    assert_eq!(grid.get_cell_unchecked(Position::new(0, 1)).candidates, 0);
    assert_eq!(grid.count_filled(), 29);
    check_invariants(&grid);
}

#[test]
fn unset_outside_the_grid_does_nothing() {
    let mut grid = Grid::from_string(EASY, None, false).expect("board parses");
    grid.unset_cell(Position::new(9, 0));
    grid.unset_cell(Position::new(0, 12));
    assert_eq!(grid.count_filled(), 30);
}

#[test]
fn copy_replays_the_values() {
    let grid = Grid::from_string(EASY, Some(EASY_SOLVED), false).expect("board parses");
    let copy = grid.copy_grid(false, false);
    assert_eq!(copy.current_state, BoardState::Constructing);
    assert_eq!(copy.starting_cell_count, 0);
    for i in 0..81 {
        let p = Position::from_index(i);
        let a = grid.get_cell_unchecked(p);
        let b = copy.get_cell_unchecked(p);
        assert_eq!(a.value, b.value);
        assert_eq!(a.candidates, b.candidates);
        assert_eq!(b.answer, None);
        assert!(!b.is_given);
    }
    let with_answers = grid.copy_grid(true, true);
    assert!(with_answers.auto_promote);
    assert!(with_answers.is_valid());
    assert!(with_answers.count_filled() >= 30);
    assert_eq!(
        with_answers.get_cell_unchecked(Position::new(8, 8)).answer,
        Some(9)
    );
    check_invariants(&with_answers);
}

#[test]
fn copy_without_leaves_one_value_out() {
    let grid = Grid::from_string(EASY, None, false).expect("board parses");
    let copy = grid.copy_without(0, false, false);
    assert_eq!(copy.get_cell_unchecked(Position::new(0, 0)).value, 0);
    assert_eq!(copy.count_filled(), 29);
    assert_eq!(
        copy.get_cell_unchecked(Position::new(0, 0)).candidates,
        bit(1) | bit(2) | bit(5)
    );
}

#[test]
fn getters() {
    let mut grid = Grid::from_string(EASY, None, false).expect("board parses");
    assert!(grid.get_cell(Position::new(9, 0)).is_none());
    assert!(grid.get_cell(Position::new(0, 9)).is_none());
    assert_eq!(grid.get_cell(Position::new(1, 0)).map(|c| c.value), Some(6));
    assert!(grid.get_mut_cell(Position::new(9, 9)).is_none());
    if let Some(c) = grid.get_mut_cell(Position::new(1, 0)) {
        c.is_dirty = true;
    }
    assert!(grid.get_cell_unchecked(Position::new(1, 0)).is_dirty);
    grid.clear_dirty();
    for i in 0..81 {
        assert!(!grid.get_cell_unchecked(Position::from_index(i)).is_dirty);
    }
    let groups = Grid::get_cell_groups(Position::new(4, 7));
    assert_eq!(groups.len(), 3);
    assert_eq!(groups[0], [7, 16, 25, 34, 43, 52, 61, 70, 79]);
    assert_eq!(groups[1], [36, 37, 38, 39, 40, 41, 42, 43, 44]);
    assert_eq!(groups[2], [33, 34, 35, 42, 43, 44, 51, 52, 53]);
    assert!(grid.peer_has(2, 5));
    assert!(!grid.peer_has(2, 1));
    assert_eq!(grid.seen_mask(2), 0x1FF & !(bit(1) | bit(2) | bit(4)));
    assert_eq!(grid.places(0, 4), 0b1_1110_0100);
}

#[test]
fn peers_share_a_group() {
    assert!(share_group(0, 8));
    assert!(share_group(0, 72));
    assert!(share_group(0, 20));
    assert!(!share_group(0, 0));
    assert!(!share_group(0, 40));
    let mut peers = 0;
    for j in 0..81 {
        if share_group(40, j) {
            peers += 1;
        }
    }
    assert_eq!(peers, 20);
}
