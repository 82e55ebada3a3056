use sudoku::grid::Grid;
use sudoku::position::{group_cell, Position};

#[test]
fn empty_grid_holds_its_invariants() {
    let grid = Grid::new();
    assert!(grid.is_valid());
    assert!(grid.auto_promote);
    assert_eq!(grid.starting_cell_count, 0);
    for i in 0..81 {
        let c = grid.get_cell_unchecked(Position::from_index(i));
        assert_eq!(c.value, 0);
        assert_eq!(c.candidates, 0x1FF);
    }
    assert!(!grid.is_done());
    assert_eq!(grid.count_filled(), 0);
    for u in 0..27 {
        for k in 0..9 {
            assert!(group_cell(u, k) < 81);
        }
    }
}
