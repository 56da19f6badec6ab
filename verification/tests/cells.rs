use sudoku::board::{Board, Cell};
use sudoku::mask::{mask_clear, mask_count, mask_empty, mask_full, mask_set, mask_test};

#[test]
fn full_mask_holds_all_nine_digits() {
    let m = mask_full();
    for d in 1..=9u8 {
        assert!(mask_test(m, d));
    }
    assert_eq!(mask_count(m), 9);
}

#[test]
fn empty_mask_holds_nothing() {
    let m = mask_empty();
    for d in 1..=9u8 {
        assert!(!mask_test(m, d));
    }
    assert_eq!(mask_count(m), 0);
}

#[test]
fn clearing_removes_exactly_one_digit() {
    let m = mask_clear(mask_full(), 5);
    assert!(!mask_test(m, 5));
    for d in 1..=9u8 {
        if d != 5 {
            assert!(mask_test(m, d));
        }
    }
    assert_eq!(mask_count(m), 8);
}

#[test]
fn setting_adds_exactly_one_digit() {
    let m = mask_set(mask_empty(), 3);
    assert!(mask_test(m, 3));
    assert_eq!(mask_count(m), 1);
}

#[test]
fn check_promotes_a_singleton_cell() {
    let mut c = Cell::Possible(mask_set(mask_empty(), 7));
    c.check();
    assert!(c.is_known());
    assert_eq!(c.value(), Some(7));
}

#[test]
fn check_leaves_wider_cells_alone() {
    let mut c = Cell::Possible(mask_full());
    c.check();
    assert!(!c.is_known());
    assert_eq!(c.value(), None);
}

#[test]
fn check_leaves_known_cells_alone() {
    let mut c = Cell::Known(4);
    c.check();
    assert_eq!(c.value(), Some(4));
}

#[test]
fn default_board_is_fully_open() {
    let b = Board::default();
    assert_eq!(b.num_unsolved(), 81);
    assert_eq!(b.num_possible_values(), 729);
    assert!(b.is_correct());
}

#[test]
fn get_and_set_cell_round_trip() {
    let mut b = Board::default();
    b.set_cell(4, 7, Cell::Known(9));
    assert_eq!(b.get(4, 7), Cell::Known(9));
    assert_eq!(b.num_unsolved(), 80);
}

#[test]
fn accessors_cover_their_scopes() {
    let mut b = Board::default();
    b.set_cell(2, 5, Cell::Known(8));
    let row = b.row(2);
    assert_eq!(row.len(), 9);
    assert_eq!(row[5], Cell::Known(8));
    let col = b.col(5);
    assert_eq!(col[2], Cell::Known(8));
    // Cell (2, 5) sits in box (0, 1), at row-major position 2 * 3 + 2 = 8.
    let group = b.group(0, 1);
    assert_eq!(group[8], Cell::Known(8));
}

#[test]
fn enumerated_accessors_carry_positions() {
    let mut b = Board::default();
    b.set_cell(6, 1, Cell::Known(2));
    let row = b.enum_row(6);
    assert_eq!(row[1].0, (6, 1));
    assert_eq!(row[1].1, Cell::Known(2));
    let col = b.enum_col(1);
    assert_eq!(col[6].0, (6, 1));
    assert_eq!(col[6].1, Cell::Known(2));
    // Cell (6, 1) sits in box (2, 0), at row-major position 0 * 3 + 1 = 1.
    let group = b.enum_group(2, 0);
    assert_eq!(group[1].0, (6, 1));
    assert_eq!(group[1].1, Cell::Known(2));
}

#[test]
fn parse_line_seeds_clues_and_rejects_bad_lines() {
    let mut b = Board::default();
    let good: Vec<u8> = b"102000000".to_vec();
    assert!(b.parse_line(&good, 0));
    assert_eq!(b.get(0, 0), Cell::Known(1));
    assert_eq!(b.get(0, 2), Cell::Known(2));
    assert!(!b.get(0, 1).is_known());

    let bad: Vec<u8> = b"12x456789".to_vec();
    assert!(!b.parse_line(&bad, 1));
    let short: Vec<u8> = b"123".to_vec();
    assert!(!b.parse_line(&short, 1));
    assert_eq!(b.num_unsolved(), 79);
}

#[test]
fn counts_track_seeded_clues() {
    let mut b = Board::default();
    b.set_cell(0, 0, Cell::Known(1));
    b.set_cell(8, 8, Cell::Known(2));
    assert_eq!(b.num_unsolved(), 79);
    assert_eq!(b.num_possible_values(), 79 * 9);
}

#[test]
fn is_correct_spots_a_repeated_digit_in_a_row() {
    let mut b = Board::default();
    b.set_cell(3, 0, Cell::Known(5));
    b.set_cell(3, 8, Cell::Known(5));
    assert!(!b.is_correct());
}

#[test]
fn is_correct_spots_a_repeated_digit_in_a_box() {
    let mut b = Board::default();
    b.set_cell(0, 0, Cell::Known(5));
    b.set_cell(1, 1, Cell::Known(5));
    assert!(!b.is_correct());
}

#[test]
fn is_correct_accepts_distinct_digits() {
    let mut b = Board::default();
    b.set_cell(0, 0, Cell::Known(1));
    b.set_cell(0, 1, Cell::Known(2));
    b.set_cell(1, 0, Cell::Known(3));
    assert!(b.is_correct());
}
