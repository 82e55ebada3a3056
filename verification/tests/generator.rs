use sudoku::generator::{
    create_board, create_puzzle, fill_board, fill_with, finish_puzzle, hardest, prune_board,
    prune_hard, prune_in_order, rank_removals, ranked_solve_removal, still_in_play, try_solve,
    SolveDifficulty,
};
use sudoku::grid::{share_group, Grid};
use sudoku::position::Position;
use sudoku::solvers::{get_solvers, solve};

fn value(grid: &Grid, row: usize, col: usize) -> u8 {
    grid.get_cell_unchecked(Position::new(row, col)).value
}

fn check_solved(grid: &Grid) {
    assert!(grid.is_valid());
    assert!(grid.is_done());
    for i in 0..81 {
        let c = grid.get_cell_unchecked(Position::from_index(i));
        assert!(1 <= c.value && c.value <= 9);
        assert_eq!(c.candidates, 0);
        assert_eq!(c.answer, Some(c.value));
        for j in 0..81 {
            if share_group(i, j) {
                assert_ne!(c.value, grid.get_cell_unchecked(Position::from_index(j)).value);
            }
        }
    }
}

#[test]
fn difficulty_weighs_each_rule_five_times_the_one_before() {
    assert_eq!(SolveDifficulty::new(vec![1, 2, 3]).difficulty, 1 + 2 * 5 + 3 * 25);
    assert_eq!(SolveDifficulty::new(vec![]).difficulty, 0);
    assert_eq!(SolveDifficulty::new(vec![7]).difficulty, 7);
    assert_eq!(SolveDifficulty::new(vec![0, 0, 0, 0, 0, 0, 0, 1]).difficulty, 78125);
    assert_eq!(SolveDifficulty::new(vec![4, 0, 1]).solver_counts, vec![4, 0, 1]);
    assert!(
        SolveDifficulty::new(vec![0, 1]).difficulty > SolveDifficulty::new(vec![4, 0]).difficulty
    );
}

#[test]
fn difficulty_with_many_idle_rules() {
    let mut counts = vec![0usize; 60];
    counts[1] = 2;
    assert_eq!(SolveDifficulty::new(counts).difficulty, 10);
}

#[test]
fn fill_with_follows_the_pattern() {
    let perm: Vec<u8> = vec![1, 2, 3, 4, 5, 6, 7, 8, 9];
    let grid = fill_with(&perm, &[0, 0, 0], &[0, 0, 0]);
    check_solved(&grid);
    assert!(!grid.auto_promote);
    for r in 0..9 {
        for c in 0..9 {
            assert_eq!(value(&grid, r, c), perm[(c + 3 * (r % 3) + r / 3) % 9]);
        }
    }
    assert_eq!(value(&grid, 1, 0), 4);
    assert_eq!(value(&grid, 3, 0), 2);
    assert_eq!(value(&grid, 8, 8), 8);
}

#[test]
fn fill_with_relabels_and_swaps() {
    let perm: Vec<u8> = vec![9, 8, 7, 6, 5, 4, 3, 2, 1];
    let base = fill_with(&perm, &[0, 0, 0], &[0, 0, 0]);
    assert_eq!(value(&base, 0, 0), 9);
    assert_eq!(value(&base, 1, 0), 6);
    let rows = [1usize, 4, 5];
    let cols = [2usize, 3, 0];
    let grid = fill_with(&perm, &rows, &cols);
    check_solved(&grid);
    let row_source = |r: usize| -> usize {
        let order: [usize; 3] = match rows[r / 3] {
            1 => [1, 0, 2],
            4 => [1, 2, 0],
            5 => [2, 0, 1],
            _ => [0, 1, 2],
        };
        3 * (r / 3) + order[r % 3]
    };
    let col_source = |c: usize| -> usize {
        let order: [usize; 3] = match cols[c / 3] {
            2 => [2, 1, 0],
            3 => [0, 2, 1],
            _ => [0, 1, 2],
        };
        3 * (c / 3) + order[c % 3]
    };
    for r in 0..9 {
        for c in 0..9 {
            assert_eq!(value(&grid, r, c), value(&base, row_source(r), col_source(c)));
        }
    }
    assert_eq!(value(&grid, 0, 0), value(&base, 1, 2));
}

#[test]
fn fill_board_gives_a_solved_grid() {
    let mut grid = Grid::new();
    fill_board(&mut grid);
    check_solved(&grid);
    assert!(!grid.auto_promote);
}

#[test]
fn fill_board_shuffles_the_digits() {
    let ordered = |grid: &Grid| -> bool {
        (0..3).any(|r| {
            (0..3).all(|s| {
                let mut stack: Vec<u8> = (0..3).map(|k| value(grid, r, 3 * s + k)).collect();
                stack.sort();
                stack == vec![3 * s as u8 + 1, 3 * s as u8 + 2, 3 * s as u8 + 3]
            })
        })
    };
    let mut any_shuffled = false;
    let mut first_rows: Vec<Vec<u8>> = Vec::new();
    for _ in 0..12 {
        let mut grid = Grid::new();
        fill_board(&mut grid);
        if !ordered(&grid) {
            any_shuffled = true;
        }
        first_rows.push((0..9).map(|c| value(&grid, 0, c)).collect());
    }
    assert!(any_shuffled);
    assert!(first_rows.iter().any(|row| row != &first_rows[0]));
}

#[test]
fn hardest_keeps_the_top_scores() {
    let pool: Vec<usize> = vec![10, 20, 30, 40, 50];
    let scores: Vec<Option<usize>> = vec![Some(3), None, Some(7), Some(7), Some(1)];
    assert_eq!(hardest(&pool, &scores), vec![30, 40]);
    assert_eq!(hardest(&pool, &vec![None, None, None, None, None]), Vec::<usize>::new());
    assert_eq!(
        hardest(&pool, &vec![Some(0), None, Some(0), None, None]),
        vec![10, 30]
    );
    assert_eq!(hardest(&Vec::new(), &Vec::new()), Vec::<usize>::new());
    assert_eq!(still_in_play(&pool, &scores, 30), vec![10, 40, 50]);
    assert_eq!(still_in_play(&pool, &scores, 99), vec![10, 30, 40, 50]);
}

#[test]
fn removal_of_a_square_is_ranked() {
    let perm: Vec<u8> = vec![1, 2, 3, 4, 5, 6, 7, 8, 9];
    let grid = fill_with(&perm, &[0, 0, 0], &[0, 0, 0]);
    let solvers = get_solvers("");
    let ranked = ranked_solve_removal(&grid, &solvers, Position::new(4, 4)).expect("recoverable");
    assert_eq!(ranked.solver_counts, vec![1, 0, 0, 0, 0, 0, 0, 0]);
    assert_eq!(ranked.difficulty, 1);
    assert_eq!(value(&grid, 4, 4), 9);
    let hidden_only = get_solvers("H1");
    let ranked = ranked_solve_removal(&grid, &hidden_only, Position::new(4, 4)).expect("recoverable");
    assert_eq!(ranked.solver_counts, vec![1]);
    let none = get_solvers("XW");
    assert!(ranked_solve_removal(&grid, &none, Position::new(4, 4)).is_none());
    let scores = rank_removals(&grid, &solvers, &vec![0, 40, 80]);
    assert_eq!(scores, vec![Some(1), Some(1), Some(1)]);
}

#[test]
fn pruning_with_naked_singles_only() {
    let perm: Vec<u8> = vec![3, 1, 4, 5, 9, 2, 6, 8, 7];
    let mut grid = fill_with(&perm, &[1, 2, 3], &[4, 5, 0]);
    let full = grid.copy_grid(true, false);
    let solvers = get_solvers("N1");
    let removed = prune_hard(&mut grid, &solvers);
    assert!(grid.is_valid());
    assert!(!removed.is_empty());
    assert_eq!(grid.count_filled() + removed.len(), 81);
    for &i in &removed {
        assert_eq!(grid.get_cell_unchecked(Position::from_index(i)).value, 0);
    }
    for i in 0..81 {
        let p = Position::from_index(i);
        let c = grid.get_cell_unchecked(p);
        assert_eq!(c.answer, full.get_cell_unchecked(p).answer);
        assert!(c.value == 0 || Some(c.value) == c.answer);
    }
    let mut puzzle = grid.copy_grid(false, false);
    solve(&mut puzzle, "N1");
    let last = *removed.last().unwrap();
    assert_eq!(
        Some(puzzle.get_cell_unchecked(Position::from_index(last)).value),
        grid.get_cell_unchecked(Position::from_index(last)).answer
    );
    assert!(puzzle.is_done());
}

#[test]
fn try_solve_recovers_the_answer() {
    let perm: Vec<u8> = vec![1, 2, 3, 4, 5, 6, 7, 8, 9];
    let grid = fill_with(&perm, &[0, 0, 0], &[0, 0, 0]);
    assert_eq!(try_solve(&grid, &get_solvers(""), Position::new(4, 4)), Some(9));
    assert_eq!(try_solve(&grid, &get_solvers("H1"), Position::new(0, 0)), Some(1));
    assert_eq!(try_solve(&grid, &get_solvers("XW"), Position::new(4, 4)), None);
    assert_eq!(try_solve(&grid, &Vec::new(), Position::new(4, 4)), None);
    let bare = grid.copy_grid(false, false);
    assert_eq!(try_solve(&bare, &get_solvers(""), Position::new(4, 4)), None);
    assert_eq!(value(&grid, 4, 4), 9);
}

#[test]
fn pruning_in_a_random_order() {
    let perm: Vec<u8> = vec![2, 7, 1, 8, 3, 9, 4, 5, 6];
    let mut grid = fill_with(&perm, &[5, 0, 2], &[1, 1, 4]);
    let solvers = get_solvers("N1H1");
    let removed = prune_board(&mut grid, &solvers);
    assert!(grid.is_valid());
    assert!(!grid.auto_promote);
    assert!(removed.len() >= 30, "{} removed", removed.len());
    assert_eq!(grid.count_filled() + removed.len(), 81);
    let mut seen = removed.clone();
    seen.sort();
    seen.dedup();
    assert_eq!(seen.len(), removed.len());
    for &i in &removed {
        assert_eq!(grid.get_cell_unchecked(Position::from_index(i)).value, 0);
    }
    for i in 0..81 {
        let c = grid.get_cell_unchecked(Position::from_index(i));
        assert!(c.value == 0 || Some(c.value) == c.answer);
    }
}

#[test]
fn pruning_in_a_given_order() {
    let perm: Vec<u8> = vec![1, 2, 3, 4, 5, 6, 7, 8, 9];
    let mut grid = fill_with(&perm, &[0, 0, 0], &[0, 0, 0]);
    let order: Vec<u8> = vec![200, 80, 0, 0, 40];
    let removed = prune_in_order(&mut grid, &get_solvers("N1"), &order);
    assert_eq!(removed, vec![40, 0, 80]);
    assert_eq!(grid.count_filled(), 78);
    assert_eq!(value(&grid, 4, 4), 0);
    assert_eq!(value(&grid, 0, 0), 0);
    assert_eq!(value(&grid, 8, 8), 0);
    assert_eq!(
        grid.get_cell_unchecked(Position::new(4, 4)).candidates,
        1u16 << 8
    );
    let mut other = fill_with(&perm, &[0, 0, 0], &[0, 0, 0]);
    let none = prune_in_order(&mut other, &get_solvers("XW"), &order);
    assert_eq!(none, Vec::<usize>::new());
    assert_eq!(other.count_filled(), 81);
}

#[test]
fn finishing_marks_the_givens() {
    let perm: Vec<u8> = vec![1, 2, 3, 4, 5, 6, 7, 8, 9];
    let mut grid = fill_with(&perm, &[0, 0, 0], &[0, 0, 0]);
    grid.unset_cell(Position::new(2, 2));
    let puzzle = finish_puzzle(&grid);
    assert!(puzzle.is_valid());
    assert!(!puzzle.auto_promote);
    for i in 0..81 {
        let c = puzzle.get_cell_unchecked(Position::from_index(i));
        assert_eq!(c.is_given, i != 20);
        assert_eq!(c.value != 0, i != 20);
        assert!(c.answer.is_some());
    }
}

#[test]
fn generator_with_few_rules() {
    let solvers = get_solvers("N1");
    let grid = create_puzzle(&solvers);
    assert!(grid.is_valid());
    let givens = grid.count_filled();
    assert!(givens >= 17 && givens < 81, "{givens} givens");
    let mut puzzle = grid.copy_grid(true, false);
    solve(&mut puzzle, "N1");
    assert!(puzzle.is_valid());
}

#[test]
fn generated_puzzle_is_solvable() {
    let mut solved = 0;
    for _ in 0..3 {
        let grid = create_board();
        assert!(grid.is_valid());
        assert!(!grid.auto_promote);
        let givens = grid.count_filled();
        assert!(givens >= 17 && givens <= 40, "{givens} givens");
        for i in 0..81 {
            let c = grid.get_cell_unchecked(Position::from_index(i));
            assert_eq!(c.is_given, c.value != 0);
            assert!(c.answer.is_some());
            if c.value != 0 {
                assert_eq!(Some(c.value), c.answer);
            }
            for j in 0..81 {
                if share_group(i, j) {
                    assert_ne!(c.answer, grid.get_cell_unchecked(Position::from_index(j)).answer);
                }
            }
        }
        let mut puzzle = grid.copy_grid(true, false);
        solve(&mut puzzle, "");
        assert!(puzzle.is_valid());
        if puzzle.is_done() {
            solved += 1;
        }
    }
    assert!(solved >= 1);
}
