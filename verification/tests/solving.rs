use sudoku::grid::Grid;
use sudoku::position::Position;
use sudoku::solvers::{get_solvers, solve, solve_step, solve_subset, Rule};

const EASY: &str = "530070000\n600195000\n098000060\n800060003\n400803001\n700020006\n060000280\n000419005\n000080079\n";

const EASY_SOLVED: [[u8; 9]; 9] = [
    [5, 3, 4, 6, 7, 8, 9, 1, 2],
    [6, 7, 2, 1, 9, 5, 3, 4, 8],
    [1, 9, 8, 3, 4, 2, 5, 6, 7],
    [8, 5, 9, 7, 6, 1, 4, 2, 3],
    [4, 2, 6, 8, 5, 3, 7, 9, 1],
    [7, 1, 3, 9, 2, 4, 8, 5, 6],
    [9, 6, 1, 5, 3, 7, 2, 8, 4],
    [2, 8, 7, 4, 1, 9, 6, 3, 5],
    [3, 4, 5, 2, 8, 6, 1, 7, 9],
];

const HARD: &str = "000000010\n400000000\n020000000\n000050407\n008000300\n001090000\n300400200\n050100000\n000806000\n";

const MEDIUM: &str = "000260701\n680070090\n190004500\n820100040\n004602900\n050003028\n009300074\n040050036\n703018000\n";

const MEDIUM_SOLVED: [[u8; 9]; 9] = [
    [4, 3, 5, 2, 6, 9, 7, 8, 1],
    [6, 8, 2, 5, 7, 1, 4, 9, 3],
    [1, 9, 7, 8, 3, 4, 5, 6, 2],
    [8, 2, 6, 1, 9, 5, 3, 4, 7],
    [3, 7, 4, 6, 8, 2, 9, 1, 5],
    [9, 5, 1, 7, 4, 3, 6, 2, 8],
    [5, 1, 9, 3, 2, 6, 8, 7, 4],
    [2, 4, 8, 9, 5, 7, 1, 3, 6],
    [7, 6, 3, 4, 1, 8, 2, 5, 9],
];

fn snapshot(grid: &Grid) -> Vec<(u16, u8, Option<u8>, bool, bool)> {
    (0..81)
        .map(|i| {
            let c = grid.get_cell_unchecked(Position::from_index(i));
            (c.candidates, c.value, c.answer, c.is_given, c.is_dirty)
        })
        .collect()
}

fn check_invariants(grid: &Grid) {
    for i in 0..81 {
        let c = grid.get_cell_unchecked(Position::from_index(i));
        assert!(c.candidates <= 0x1FF);
        if c.value != 0 {
            assert!(c.value <= 9);
            assert_eq!(c.candidates, 0, "cell {i}");
        } else {
            assert_ne!(c.candidates, 0, "cell {i}");
        }
        if let Some(a) = c.answer {
            if c.value != 0 {
                assert_eq!(c.value, a);
            } else {
                assert_ne!(c.candidates & (1u16 << (a - 1)), 0);
            }
        }
        for j in 0..81 {
            let same_group = i != j
                && (i / 9 == j / 9
                    || i % 9 == j % 9
                    || (i / 27 == j / 27 && (i % 9) / 3 == (j % 9) / 3));
            if same_group && c.value != 0 {
                let d = grid.get_cell_unchecked(Position::from_index(j));
                assert_ne!(c.value, d.value, "cells {i} and {j}");
                if grid.is_valid() {
                    assert_eq!(d.candidates & (1u16 << (c.value - 1)), 0, "cells {i} and {j}");
                }
            }
        }
        if grid.auto_promote && grid.is_valid() && c.value == 0 {
            assert_ne!(c.candidates.count_ones(), 1, "cell {i} is a naked single");
        }
    }
}

fn values(grid: &Grid) -> [[u8; 9]; 9] {
    let mut v = [[0u8; 9]; 9];
    for r in 0..9 {
        for c in 0..9 {
            v[r][c] = grid.get_cell_unchecked(Position::new(r, c)).value;
        }
    }
    v
}

#[test]
fn easy_board_is_solved() {
    let mut grid = Grid::from_string(EASY, None, true).expect("board parses");
    solve(&mut grid, "");
    assert!(grid.is_done());
    assert!(grid.is_valid());
    assert_eq!(values(&grid), EASY_SOLVED);
}

#[test]
fn easy_board_is_solved_by_singles_alone() {
    let mut grid = Grid::from_string(EASY, None, false).expect("board parses");
    solve(&mut grid, "N1H1");
    assert_eq!(values(&grid), EASY_SOLVED);
}

#[test]
fn easy_board_with_answer_stays_valid() {
    let mut grid = Grid::from_string(EASY, Some(EASY_SOLVED), false).expect("board parses");
    let solvers = get_solvers("");
    assert_eq!(solvers.len(), 8);
    solve_subset(&mut grid, &solvers);
    assert!(grid.is_valid());
    assert!(grid.is_done());
}

#[test]
fn medium_board_is_solved_by_the_method_too() {
    let mut grid = Grid::from_string(MEDIUM, Some(MEDIUM_SOLVED), true).expect("board parses");
    grid.solve();
    assert!(grid.is_valid());
    assert_eq!(values(&grid), MEDIUM_SOLVED);
}

#[test]
fn solving_with_no_rule_changes_nothing() {
    let mut grid = Grid::from_string(EASY, None, false).expect("board parses");
    let before = snapshot(&grid);
    solve_subset(&mut grid, &Vec::new());
    assert_eq!(snapshot(&grid), before);
    solve(&mut grid, "??");
    assert_eq!(snapshot(&grid), before);
}

#[test]
fn solving_twice_changes_nothing() {
    for board in [EASY, MEDIUM, HARD] {
        for auto in [false, true] {
            let mut grid = Grid::from_string(board, None, auto).expect("board parses");
            solve(&mut grid, "");
            let once = snapshot(&grid);
            let valid = grid.is_valid();
            solve(&mut grid, "");
            assert_eq!(snapshot(&grid), once);
            assert_eq!(grid.is_valid(), valid);
        }
    }
}

#[test]
fn invariants_hold_after_every_rule() {
    for board in [EASY, MEDIUM, HARD] {
        for auto in [false, true] {
            let mut grid = Grid::from_string(board, None, auto).expect("board parses");
            check_invariants(&grid);
            let solvers = get_solvers("");
            let mut rounds = 0;
            loop {
                let mut changed = false;
                for solver in &solvers {
                    if solver.solve_all(&mut grid) {
                        changed = true;
                        check_invariants(&grid);
                        break;
                    }
                }
                rounds += 1;
                if !changed || rounds > 2000 {
                    break;
                }
            }
            assert!(grid.is_valid());
            check_invariants(&grid);
        }
    }
}

#[test]
fn the_known_answer_is_never_struck() {
    for (board, answer) in [(EASY, EASY_SOLVED), (MEDIUM, MEDIUM_SOLVED)] {
        for auto in [false, true] {
            for filter in ["", "H1", "N2H2N3N4LCXW", "LCXWN1"] {
                let mut grid = Grid::from_string(board, Some(answer), auto).expect("board parses");
                solve(&mut grid, filter);
                assert!(grid.is_valid(), "{filter}");
                check_invariants(&grid);
            }
        }
    }
}

#[test]
fn a_wrong_answer_is_surfaced() {
    let mut wrong = EASY_SOLVED;
    wrong[0][2] = 1;
    let mut grid = Grid::from_string(EASY, Some(wrong), false).expect("board parses");
    solve(&mut grid, "");
    assert!(!grid.is_valid());
    check_invariants(&grid);
}

#[test]
fn hard_board_reaches_a_fixed_point() {
    let mut grid = Grid::from_string(HARD, None, true).expect("board parses");
    solve(&mut grid, "");
    assert!(grid.is_valid());
    assert!(grid.count_filled() >= 17);
    for solver in get_solvers("") {
        assert!(!solver.solve_all(&mut grid), "{}", solver.name);
    }
}

#[test]
fn round_trip_of_the_givens() {
    for board in [EASY, MEDIUM, HARD, "", "5 3|   |\n\n|  9"] {
        for auto in [false, true] {
            let grid = Grid::from_string(board, None, auto).expect("board parses");
            let text = grid.givens_string();
            assert_eq!(text.len(), 90);
            let again = Grid::from_string(&text, None, auto).expect("givens parse");
            assert_eq!(snapshot(&again), snapshot(&grid));
            assert_eq!(again.starting_cell_count, grid.starting_cell_count);
            assert_eq!(again.current_state, grid.current_state);
        }
    }
    let grid = Grid::from_string(EASY, None, false).expect("board parses");
    assert_eq!(grid.givens_string(), EASY);
}

#[test]
fn round_trip_after_solving_still_gives_the_puzzle() {
    let start = Grid::from_string(EASY, None, false).expect("board parses");
    let mut grid = Grid::from_string(EASY, None, false).expect("board parses");
    solve(&mut grid, "");
    assert_eq!(grid.givens_string(), EASY);
    let again = Grid::from_string(&grid.givens_string(), None, false).expect("givens parse");
    assert_eq!(snapshot(&again), snapshot(&start));
}

#[test]
fn stepping_fires_one_rule_at_a_time() {
    let mut grid = Grid::from_string(EASY, None, true).expect("board parses");
    let solvers = get_solvers("");
    let mut steps = 0;
    let mut last = grid.count_filled();
    while let Some(i) = solve_step(&mut grid, &solvers) {
        assert!(i < solvers.len());
        assert!(!grid.auto_promote);
        let filled = grid.count_filled();
        if solvers[i].rule == Rule::NakedSingle || solvers[i].rule == Rule::HiddenSingle {
            assert_eq!(filled, last + 1);
        } else {
            assert_eq!(filled, last);
        }
        let dirty = (0..81)
            .filter(|&k| grid.get_cell_unchecked(Position::from_index(k)).is_dirty)
            .count();
        assert!(dirty >= 1);
        last = filled;
        steps += 1;
        assert!(steps < 1000);
    }
    assert!(grid.is_done());
    assert_eq!(values(&grid), EASY_SOLVED);
}

#[test]
fn grid_methods_apply_single_rules() {
    let mut grid = Grid::from_string(EASY, None, false).expect("board parses");
    assert!(grid.solve_naked_single());
    assert!(grid.count_filled() > 30);
    let mut other = Grid::from_string(HARD, None, false).expect("board parses");
    let before = snapshot(&other);
    let pair = other.solve_naked_pair();
    let hidden = other.solve_hidden_pair();
    let locked = other.solve_locked_candidates();
    assert_eq!(pair || hidden || locked, snapshot(&other) != before);
}
