use sudoku::grid::Grid;
use sudoku::position::Position;
use sudoku::solvers::hidden_pair::{solve_hidden_pair, step_hidden_pair};
use sudoku::solvers::hidden_single::{
    solve_hidden_single, solve_hidden_single_cell, step_hidden_single,
};
use sudoku::solvers::locked_candidates::{solve_locked_candidates, step_locked_candidates};
use sudoku::solvers::naked_pair::{
    solve_naked_pair, solve_naked_quad, solve_naked_triple, step_naked_pair, step_naked_quad,
    step_naked_triple,
};
use sudoku::solvers::naked_single::{
    solve_naked_single, solve_naked_single_cell, step_naked_single,
};
use sudoku::solvers::x_wing::{solve_x_wing, step_x_wing};
use sudoku::solvers::{get_solvers, solve_step, Rule, Solver};

fn bit(v: u8) -> u16 {
    1u16 << (v - 1)
}

fn open_grid() -> Grid {
    let mut grid = Grid::new();
    grid.set_auto_promote(false);
    grid
}

fn candidates(grid: &Grid, row: usize, col: usize) -> u16 {
    grid.get_cell_unchecked(Position::new(row, col)).candidates
}

fn value(grid: &Grid, row: usize, col: usize) -> u8 {
    grid.get_cell_unchecked(Position::new(row, col)).value
}

fn set_candidates(grid: &mut Grid, row: usize, col: usize, mask: u16) {
    grid.get_mut_cell_unchecked(Position::new(row, col)).candidates = mask;
}

fn snapshot(grid: &Grid) -> Vec<(u16, u8)> {
    (0..81)
        .map(|i| {
            let c = grid.get_cell_unchecked(Position::from_index(i));
            (c.candidates, c.value)
        })
        .collect()
}

#[test]
fn naked_single_fills_the_last_square_of_a_row() {
    let mut grid = Grid::from_string("12345678 \n", None, false).expect("board parses");
    assert_eq!(candidates(&grid, 0, 8), bit(9));
    assert_eq!(solve_naked_single_cell(&grid, Position::new(0, 8)), Some(9));
    let solvers = get_solvers("");
    let fired = solve_step(&mut grid, &solvers);
    assert_eq!(fired, Some(0));
    assert_eq!(solvers[0].rule, Rule::NakedSingle);
    assert_eq!(value(&grid, 0, 8), 9);
    assert!(grid.get_cell_unchecked(Position::new(0, 8)).is_dirty);
    assert_eq!(solve_step(&mut grid, &solvers), None);
    assert!(!grid.get_cell_unchecked(Position::new(0, 8)).is_dirty);
}

#[test]
fn naked_single_is_inert_with_auto_promote() {
    let mut grid = Grid::new();
    set_candidates(&mut grid, 3, 3, bit(4));
    assert!(grid.auto_promote);
    assert!(!solve_naked_single(&mut grid));
    assert!(!step_naked_single(&mut grid));
    assert_eq!(value(&grid, 3, 3), 0);
    grid.set_auto_promote(false);
    assert!(step_naked_single(&mut grid));
    assert_eq!(value(&grid, 3, 3), 4);
    assert_eq!(candidates(&grid, 3, 0) & bit(4), 0);
    assert_eq!(candidates(&grid, 0, 3) & bit(4), 0);
    assert_eq!(candidates(&grid, 4, 4) & bit(4), 0);
    assert_eq!(candidates(&grid, 0, 0), 0x1FF);
}

#[test]
fn naked_single_step_takes_the_first_cell_only() {
    let mut grid = open_grid();
    set_candidates(&mut grid, 2, 2, bit(5));
    set_candidates(&mut grid, 6, 6, bit(1));
    assert!(step_naked_single(&mut grid));
    assert_eq!(value(&grid, 2, 2), 5);
    assert_eq!(value(&grid, 6, 6), 0);
    assert!(solve_naked_single(&mut grid));
    assert_eq!(value(&grid, 6, 6), 1);
    assert!(!solve_naked_single(&mut grid));
}

#[test]
fn naked_single_cell_outside_the_grid() {
    let grid = Grid::new();
    assert_eq!(solve_naked_single_cell(&grid, Position::new(9, 0)), None);
    assert_eq!(solve_naked_single_cell(&grid, Position::new(0, 0)), None);
}

#[test]
fn hidden_single_finds_the_only_place_of_a_digit() {
    let board = "000000000\n000070000\n000000070\n000000000\n070000000\n000000000\n000000000\n007000000\n000000000\n";
    let mut grid = Grid::from_string(board, None, false).expect("board parses");
    for col in 1..9 {
        assert_eq!(candidates(&grid, 0, col) & bit(7), 0, "column {col}");
    }
    assert_ne!(candidates(&grid, 0, 0) & bit(7), 0);
    assert!(step_hidden_single(&mut grid));
    assert_eq!(value(&grid, 0, 0), 7);
    assert_eq!(grid.count_filled(), 5);
}

#[test]
fn hidden_single_of_one_square() {
    let board = "000000000\n000070000\n000000070\n000000000\n070000000\n000000000\n000000000\n007000000\n000000000\n";
    let grid = Grid::from_string(board, None, false).expect("board parses");
    assert_eq!(solve_hidden_single_cell(&grid, Position::new(0, 0)), Some(7));
    assert_eq!(solve_hidden_single_cell(&grid, Position::new(0, 1)), None);
    assert_eq!(solve_hidden_single_cell(&grid, Position::new(1, 4)), None);
    assert_eq!(solve_hidden_single_cell(&grid, Position::new(8, 8)), None);
    let mut open = open_grid();
    for row in 1..9 {
        set_candidates(&mut open, row, 3, 0x1FF & !bit(2));
    }
    assert_eq!(solve_hidden_single_cell(&open, Position::new(0, 3)), Some(2));
}

#[test]
fn hidden_single_solve_all_places_several() {
    let board = "000000000\n000070000\n000000070\n000000000\n070000000\n000000000\n000000000\n007000000\n000000000\n";
    let mut grid = Grid::from_string(board, None, false).expect("board parses");
    assert!(solve_hidden_single(&mut grid));
    assert_eq!(value(&grid, 0, 0), 7);
    assert!(grid.is_valid());
    let mut sevens = 0;
    for i in 0..81 {
        if grid.get_cell_unchecked(Position::from_index(i)).value == 7 {
            sevens += 1;
        }
    }
    assert!(sevens >= 5);
}

#[test]
fn naked_pair_clears_the_rest_of_the_column() {
    let mut grid = open_grid();
    let pair = bit(3) | bit(6);
    set_candidates(&mut grid, 0, 4, pair);
    set_candidates(&mut grid, 5, 4, pair);
    assert!(solve_naked_pair(&mut grid));
    for row in 0..9 {
        if row == 0 || row == 5 {
            assert_eq!(candidates(&grid, row, 4), pair);
        } else {
            assert_eq!(candidates(&grid, row, 4), 0x1FF & !pair, "row {row}");
            assert!(grid.get_cell_unchecked(Position::new(row, 4)).is_dirty);
        }
    }
    assert_eq!(candidates(&grid, 0, 0), 0x1FF);
    assert_eq!(candidates(&grid, 5, 8), 0x1FF);
    assert_eq!(candidates(&grid, 1, 3), 0x1FF);
    assert!(!solve_naked_pair(&mut grid));
}

#[test]
fn naked_pair_step_stops_after_the_first_group() {
    let mut grid = open_grid();
    let pair = bit(1) | bit(2);
    set_candidates(&mut grid, 0, 0, pair);
    set_candidates(&mut grid, 0, 1, pair);
    assert!(step_naked_pair(&mut grid));
    assert_eq!(candidates(&grid, 0, 5), 0x1FF & !pair);
    assert_eq!(candidates(&grid, 1, 0), 0x1FF);
    assert!(step_naked_pair(&mut grid));
    assert_eq!(candidates(&grid, 1, 0), 0x1FF & !pair);
    assert_eq!(candidates(&grid, 2, 2), 0x1FF & !pair);
    assert!(!step_naked_pair(&mut grid));
}

#[test]
fn hidden_pair_clears_the_other_candidates() {
    let mut grid = open_grid();
    let pair = bit(4) | bit(8);
    for &(row, col) in &[(0, 1), (0, 2), (1, 0), (1, 2), (2, 0), (2, 1), (2, 2)] {
        set_candidates(&mut grid, row, col, 0x1FF & !pair);
    }
    assert!(solve_hidden_pair(&mut grid));
    assert_eq!(candidates(&grid, 0, 0), pair);
    assert_eq!(candidates(&grid, 1, 1), pair);
    assert!(grid.get_cell_unchecked(Position::new(0, 0)).is_dirty);
    assert_eq!(candidates(&grid, 0, 1), 0x1FF & !pair);
    assert_eq!(candidates(&grid, 3, 3), 0x1FF);
    assert!(!step_hidden_pair(&mut grid));
}

#[test]
fn naked_triple_removes_from_the_rest_of_the_group() {
    let mut grid = open_grid();
    set_candidates(&mut grid, 0, 2, bit(1) | bit(2));
    set_candidates(&mut grid, 0, 5, bit(2) | bit(3));
    set_candidates(&mut grid, 0, 7, bit(1) | bit(3));
    let three = bit(1) | bit(2) | bit(3);
    assert!(step_naked_triple(&mut grid));
    for col in [0usize, 1, 3, 4, 6, 8] {
        assert_eq!(candidates(&grid, 0, col), 0x1FF & !three, "column {col}");
    }
    assert_eq!(candidates(&grid, 0, 2), bit(1) | bit(2));
    assert_eq!(candidates(&grid, 0, 5), bit(2) | bit(3));
    assert_eq!(candidates(&grid, 0, 7), bit(1) | bit(3));
    assert_eq!(candidates(&grid, 1, 2), 0x1FF);
    assert!(!solve_naked_triple(&mut grid));
}

#[test]
fn naked_triple_takes_the_first_combination() {
    let mut grid = open_grid();
    let low = bit(1) | bit(2) | bit(3);
    let high = bit(7) | bit(8) | bit(9);
    for col in [0usize, 1, 2] {
        set_candidates(&mut grid, 4, col, low);
    }
    for col in [6usize, 7, 8] {
        set_candidates(&mut grid, 4, col, high);
    }
    assert!(step_naked_triple(&mut grid));
    assert_eq!(candidates(&grid, 4, 4), 0x1FF & !low);
    assert_eq!(candidates(&grid, 4, 6), high);
    assert_eq!(candidates(&grid, 3, 0), 0x1FF);
}

#[test]
fn naked_quad_removes_from_the_rest_of_the_group() {
    let mut grid = open_grid();
    set_candidates(&mut grid, 1, 3, bit(1) | bit(2));
    set_candidates(&mut grid, 3, 3, bit(2) | bit(3));
    set_candidates(&mut grid, 6, 3, bit(3) | bit(4));
    set_candidates(&mut grid, 8, 3, bit(1) | bit(4));
    let four = bit(1) | bit(2) | bit(3) | bit(4);
    assert!(solve_naked_quad(&mut grid));
    for row in [0usize, 2, 4, 5, 7] {
        assert_eq!(candidates(&grid, row, 3), 0x1FF & !four, "row {row}");
    }
    assert_eq!(candidates(&grid, 1, 3), bit(1) | bit(2));
    assert_eq!(candidates(&grid, 8, 3), bit(1) | bit(4));
    assert_eq!(candidates(&grid, 0, 0), 0x1FF);
    assert!(!step_naked_quad(&mut grid));
}

#[test]
fn locked_candidates_from_row_to_region() {
    let mut grid = open_grid();
    for col in 3..9 {
        set_candidates(&mut grid, 4, col, 0x1FF & !bit(5));
    }
    assert!(solve_locked_candidates(&mut grid));
    for &(row, col) in &[(3, 0), (3, 1), (3, 2), (5, 0), (5, 1), (5, 2)] {
        assert_eq!(candidates(&grid, row, col), 0x1FF & !bit(5), "cell {row},{col}");
    }
    for col in 0..3 {
        assert_eq!(candidates(&grid, 4, col), 0x1FF);
    }
    assert_eq!(candidates(&grid, 3, 3), 0x1FF);
    assert_eq!(candidates(&grid, 0, 0), 0x1FF);
    assert!(!step_locked_candidates(&mut grid));
}

#[test]
fn locked_candidates_from_region_to_line() {
    let mut grid = open_grid();
    for &(row, col) in &[(1, 0), (1, 1), (1, 2), (2, 0), (2, 1), (2, 2)] {
        set_candidates(&mut grid, row, col, 0x1FF & !bit(9));
    }
    assert!(step_locked_candidates(&mut grid));
    for col in 3..9 {
        assert_eq!(candidates(&grid, 0, col), 0x1FF & !bit(9), "column {col}");
    }
    for col in 0..3 {
        assert_eq!(candidates(&grid, 0, col), 0x1FF);
    }
}

#[test]
fn x_wing_over_rows() {
    let mut grid = open_grid();
    for row in [1usize, 5] {
        for col in 0..9 {
            if col != 2 && col != 7 {
                set_candidates(&mut grid, row, col, 0x1FF & !bit(2));
            }
        }
    }
    assert!(solve_x_wing(&mut grid));
    for row in 0..9 {
        for col in [2usize, 7] {
            if row == 1 || row == 5 {
                assert_eq!(candidates(&grid, row, col), 0x1FF);
            } else {
                assert_eq!(candidates(&grid, row, col), 0x1FF & !bit(2), "cell {row},{col}");
            }
        }
    }
    assert_eq!(candidates(&grid, 0, 0), 0x1FF);
    assert_eq!(candidates(&grid, 3, 4), 0x1FF);
    assert!(!step_x_wing(&mut grid));
}

#[test]
fn x_wing_over_columns() {
    let mut grid = open_grid();
    for col in [0usize, 8] {
        for row in 0..9 {
            if row != 3 && row != 4 {
                set_candidates(&mut grid, row, col, 0x1FF & !bit(6));
            }
        }
    }
    assert!(step_x_wing(&mut grid));
    for col in 1..8 {
        assert_eq!(candidates(&grid, 3, col), 0x1FF & !bit(6));
        assert_eq!(candidates(&grid, 4, col), 0x1FF & !bit(6));
    }
    assert_eq!(candidates(&grid, 3, 0), 0x1FF);
    assert_eq!(candidates(&grid, 5, 5), 0x1FF);
}

#[test]
fn rules_leave_an_open_grid_alone() {
    let mut grid = open_grid();
    let before = snapshot(&grid);
    for solver in get_solvers("") {
        assert!(!solver.solve_all(&mut grid), "{}", solver.name);
        assert!(!solver.step(&mut grid), "{}", solver.name);
    }
    assert_eq!(snapshot(&grid), before);
}

#[test]
fn rules_never_grow_a_mask() {
    let board = "000000010\n400000000\n020000000\n000050407\n008000300\n001090000\n300400200\n050100000\n000806000\n";
    let mut grid = Grid::from_string(board, None, false).expect("board parses");
    let solvers = get_solvers("");
    let mut rounds = 0;
    loop {
        let before = snapshot(&grid);
        let mut changed = false;
        for solver in &solvers {
            if solver.solve_all(&mut grid) {
                changed = true;
                break;
            }
        }
        let after = snapshot(&grid);
        for i in 0..81 {
            assert_eq!(after[i].0 & !before[i].0, 0, "cell {i} gained a candidate");
            if before[i].1 != 0 {
                assert_eq!(after[i], before[i]);
            }
        }
        assert_eq!(changed, after != before);
        rounds += 1;
        if !changed || rounds > 1000 {
            break;
        }
    }
    assert!(rounds <= 1000);
}

#[test]
fn a_contradiction_makes_the_grid_invalid() {
    let mut grid = open_grid();
    set_candidates(&mut grid, 0, 0, bit(1));
    set_candidates(&mut grid, 0, 1, bit(1));
    assert!(step_naked_single(&mut grid));
    assert!(!grid.is_valid());
    let stuck = snapshot(&grid);
    for solver in get_solvers("") {
        assert!(!solver.solve_all(&mut grid));
    }
    assert_eq!(snapshot(&grid), stuck);
}

#[test]
fn solver_metadata() {
    let names: Vec<(&str, &str)> =
        get_solvers("").iter().map(|s| (s.abbreviation, s.name)).collect();
    assert_eq!(
        names,
        vec![
            ("N1", "Naked Single"),
            ("H1", "Hidden Single"),
            ("N2", "Naked Pair"),
            ("H2", "Hidden Pair"),
            ("N3", "Naked Triple"),
            ("N4", "Naked Quad"),
            ("LC", "Locked Candidates"),
            ("XW", "X Wing"),
        ]
    );
    let solver = Solver::new(Rule::LockedCandidates);
    assert_eq!(solver.abbreviation, "LC");
    assert_eq!(solver.rule.rank(), 6);
    assert_eq!(Rule::at(7), Rule::XWing);
    assert_eq!(Rule::HiddenPair.letters(), ('H', '2'));
    assert_eq!(Rule::HiddenSingle.site_count(), 2187);
}

#[test]
fn rule_filter() {
    let pick = |filter: &str| -> Vec<&'static str> {
        get_solvers(filter).iter().map(|s| s.abbreviation).collect()
    };
    assert_eq!(pick("").len(), 8);
    assert_eq!(pick("N1H1LC"), vec!["N1", "H1", "LC"]);
    assert_eq!(pick("LCH1N1"), vec!["N1", "H1", "LC"]);
    assert_eq!(pick("XW"), vec!["XW"]);
    assert_eq!(pick("ZZ"), Vec::<&str>::new());
    assert_eq!(pick("N"), Vec::<&str>::new());
    assert_eq!(pick("ZZN4QQ"), vec!["N4"]);
    assert_eq!(pick("H2N2"), vec!["N2", "H2"]);
}
