use sudoku::cell::Cell;
use sudoku::mask::{count_candidates, first_candidate, mask_allows, mask_of, ALL_CANDIDATES};
use sudoku::position::{group_cell, group_cells, group_fill, slot_cell, Position};

#[test]
fn full_mask_is_nine_bits() {
    assert_eq!(ALL_CANDIDATES, 0b1_1111_1111);
    assert_eq!(count_candidates(ALL_CANDIDATES), 9);
    assert_eq!(count_candidates(0), 0);
    assert_eq!(count_candidates(0b1_0000_0101), 3);
}

#[test]
fn mask_of_each_digit() {
    for v in 1..=9u8 {
        assert_eq!(mask_of(v), 1u16 << (v - 1));
        assert!(mask_allows(ALL_CANDIDATES, v));
        assert!(!mask_allows(0, v));
        assert_eq!(first_candidate(mask_of(v)), v);
    }
    assert_eq!(first_candidate(0), 0);
    assert_eq!(first_candidate(0b1_0000_0100), 3);
}

#[test]
fn new_cell_is_blank() {
    let c = Cell::new();
    assert_eq!(c.candidates, 0x1FF);
    assert_eq!(c.value, 0);
    assert_eq!(c.answer, None);
    assert!(!c.is_given);
    assert!(!c.is_dirty);
}

#[test]
fn contains_value_reads_the_bit() {
    let mut c = Cell::new();
    c.candidates = 0b0_0001_0010;
    assert!(c.contains_value(2));
    assert!(c.contains_value(5));
    assert!(!c.contains_value(1));
    assert!(!c.contains_value(9));
}

#[test]
fn contains_value_is_false_once_assigned() {
    let mut c = Cell::new();
    assert!(c.set_value(4));
    for v in 1..=9u8 {
        assert!(!c.contains_value(v));
    }
}

#[test]
fn remove_possibility_clears_one_bit() {
    let mut c = Cell::new();
    c.remove_possibility(3);
    assert_eq!(c.candidates, 0x1FF & !0b100);
    assert!(!c.is_dirty);
    c.remove_possibility(3);
    assert_eq!(c.candidates, 0x1FF & !0b100);
}

#[test]
fn remove_possibilities_reports_and_marks() {
    let mut c = Cell::new();
    assert!(c.remove_possibilities(0b0_0000_0110));
    assert_eq!(c.candidates, 0x1FF & !0b110);
    assert!(c.is_dirty);
    let mut d = Cell::new();
    d.candidates = 0b1_0000_0000;
    assert!(!d.remove_possibilities(0b0_0000_0110));
    assert_eq!(d.candidates, 0b1_0000_0000);
    assert!(!d.is_dirty);
}

#[test]
fn promote_single_candidate_assigns_the_only_one() {
    let mut c = Cell::new();
    c.candidates = 0b0_0100_0000;
    assert!(c.promote_single_candidate());
    assert_eq!(c.value, 7);
    assert_eq!(c.candidates, 0);
    assert!(c.is_dirty);
}

#[test]
fn promote_single_candidate_leaves_two_candidates() {
    let mut c = Cell::new();
    c.candidates = 0b0_0100_0001;
    assert!(!c.promote_single_candidate());
    assert_eq!(c.value, 0);
    assert_eq!(c.candidates, 0b0_0100_0001);
    assert!(!c.is_dirty);
}

#[test]
fn get_possibilities_lists_rising() {
    let mut c = Cell::new();
    c.candidates = 0b1_0001_0010;
    assert_eq!(c.get_possibilities(), vec![2u16, 5, 9]);
    assert_eq!(Cell::new().get_possibilities(), vec![1u16, 2, 3, 4, 5, 6, 7, 8, 9]);
    let mut d = Cell::new();
    d.set_value(3);
    assert_eq!(d.get_possibilities(), Vec::<u16>::new());
}

#[test]
fn set_value_refuses_a_wrong_answer() {
    let mut c = Cell::new();
    c.answer = Some(5);
    assert!(!c.set_value(4));
    assert_eq!(c.value, 0);
    assert_eq!(c.candidates, 0x1FF);
    assert!(c.set_value(5));
    assert_eq!(c.value, 5);
    assert_eq!(c.candidates, 0);
    assert!(c.is_dirty);
}

#[test]
fn answer_possible_follows_the_candidates() {
    let mut c = Cell::new();
    assert!(c.is_answer_possible());
    c.answer = Some(6);
    assert!(c.is_answer_possible());
    c.candidates = 0b0_0000_0011;
    assert!(!c.is_answer_possible());
    c.candidates = 0;
    c.value = 2;
    assert!(c.is_answer_possible());
}

#[test]
fn position_index_and_back() {
    for i in 0..81usize {
        let p = Position::from_index(i);
        assert_eq!(p.row, i / 9);
        assert_eq!(p.col, i % 9);
        assert_eq!(p.get_index(), i);
    }
    let p = Position::new(4, 7);
    assert_eq!(p.get_index(), 43);
}

#[test]
fn position_region() {
    assert_eq!(Position::new(0, 0).region(), (0, 0));
    assert_eq!(Position::new(4, 7).region(), (5, 4));
    assert_eq!(Position::new(8, 8).region(), (8, 8));
    assert_eq!(Position::new(5, 3).region(), (4, 6));
}

#[test]
fn group_tables_follow_their_formulas() {
    let t = group_fill();
    for g in 0..9usize {
        for k in 0..9usize {
            assert_eq!(t[0][g][k], 9 * g + k);
            assert_eq!(t[1][g][k], 9 * k + g);
            assert_eq!(t[2][g][k], 9 * (3 * (g / 3) + k / 3) + (3 * (g % 3) + k % 3));
            assert_eq!(group_cell(g, k), t[0][g][k]);
            assert_eq!(group_cell(9 + g, k), t[1][g][k]);
            assert_eq!(group_cell(18 + g, k), t[2][g][k]);
        }
    }
    assert_eq!(t[2][4], [30, 31, 32, 39, 40, 41, 48, 49, 50]);
    assert_eq!(group_cells(13), [4, 13, 22, 31, 40, 49, 58, 67, 76]);
}

#[test]
fn every_cell_is_in_three_groups() {
    let t = group_fill();
    for i in 0..81usize {
        let mut count = 0;
        for kind in 0..3 {
            for g in 0..9 {
                if t[kind][g].contains(&i) {
                    count += 1;
                }
            }
        }
        assert_eq!(count, 3);
    }
}

#[test]
fn slots_are_column_row_region() {
    let idx = 40;
    let mut seen: Vec<usize> = Vec::new();
    for s in 0..27 {
        seen.push(slot_cell(idx, s));
    }
    assert_eq!(&seen[0..9], &[4, 13, 22, 31, 40, 49, 58, 67, 76]);
    assert_eq!(&seen[9..18], &[36, 37, 38, 39, 40, 41, 42, 43, 44]);
    assert_eq!(&seen[18..27], &[30, 31, 32, 39, 40, 41, 48, 49, 50]);
}
