use sudoku::board::{Board, Cell};
use sudoku::mask::{mask_clear, mask_empty, mask_full, mask_set};
use sudoku::rules::{
    handle_blocking_col, handle_blocking_row, handle_collection, handle_hidden_tripples,
    handle_pairs, handle_pointing, make_pairs_from_valid_options, make_tripples_from_valid_options,
    missing_digits,
};

#[test]
fn missing_digits_lists_the_complement() {
    let mut present = mask_empty();
    present = mask_set(present, 2);
    present = mask_set(present, 7);
    let missing = missing_digits(present);
    assert_eq!(missing, vec![1, 3, 4, 5, 6, 8, 9]);
}

#[test]
fn pairs_of_three_options() {
    let pairs = make_pairs_from_valid_options(&vec![1, 2, 3]);
    assert_eq!(pairs.len(), 3);
    assert!(pairs.contains(&(1, 2)));
    assert!(pairs.contains(&(1, 3)));
    assert!(pairs.contains(&(2, 3)));
}

#[test]
fn triples_of_four_options() {
    let triples = make_tripples_from_valid_options(&vec![1, 2, 3, 4]);
    assert_eq!(triples.len(), 4);
    assert!(triples.contains(&(1, 2, 3)));
    assert!(triples.contains(&(1, 2, 4)));
    assert!(triples.contains(&(1, 3, 4)));
    assert!(triples.contains(&(2, 3, 4)));
}

#[test]
fn basic_elimination_strikes_known_digits() {
    let mut b = Board::default();
    b.set_cell(0, 0, Cell::Known(1));
    assert!(handle_collection(&mut b, 0));
    // Every other cell of row 0 lost candidate 1.
    let expected = Cell::Possible(mask_clear(mask_full(), 1));
    for c in 1..9usize {
        assert_eq!(b.get(0, c), expected);
    }
}

#[test]
fn naked_single_is_promoted() {
    let mut b = Board::default();
    // Row 0 determines 1..=8, so (0, 8) must become 9.
    for c in 0..8usize {
        b.set_cell(0, c, Cell::Known((c + 1) as u8));
    }
    assert!(handle_collection(&mut b, 0));
    assert_eq!(b.get(0, 8), Cell::Known(9));
}

#[test]
fn hidden_single_is_promoted() {
    let mut b = Board::default();
    // In row 0 only cell (0, 4) still lists digit 9.
    let without9 = mask_clear(mask_full(), 9);
    for c in 0..9usize {
        if c != 4 {
            b.set_cell(0, c, Cell::Possible(without9));
        }
    }
    assert!(handle_collection(&mut b, 0));
    assert_eq!(b.get(0, 4), Cell::Known(9));
}

#[test]
fn collection_reports_no_change_at_fixpoint() {
    let mut b = Board::default();
    assert!(!handle_collection(&mut b, 0));
    assert_eq!(b.num_possible_values(), 729);
}

#[test]
fn hidden_pair_shrinks_its_two_cells() {
    let mut b = Board::default();
    // In row 0, digits 1 and 2 appear only in cells (0, 0) and (0, 1).
    let without12 = mask_clear(mask_clear(mask_full(), 1), 2);
    for c in 2..9usize {
        b.set_cell(0, c, Cell::Possible(without12));
    }
    assert!(handle_pairs(&mut b, 0));
    let pair = mask_set(mask_set(mask_empty(), 1), 2);
    assert_eq!(b.get(0, 0), Cell::Possible(pair));
    assert_eq!(b.get(0, 1), Cell::Possible(pair));
}

#[test]
fn hidden_pair_needs_a_third_candidate_to_fire() {
    let mut b = Board::default();
    let pair = mask_set(mask_set(mask_empty(), 1), 2);
    let without12 = mask_clear(mask_clear(mask_full(), 1), 2);
    b.set_cell(0, 0, Cell::Possible(pair));
    b.set_cell(0, 1, Cell::Possible(pair));
    for c in 2..9usize {
        b.set_cell(0, c, Cell::Possible(without12));
    }
    // The two cells already hold exactly the pair: nothing to strike.
    assert!(!handle_pairs(&mut b, 0));
}

#[test]
fn hidden_triple_shrinks_its_three_cells() {
    let mut b = Board::default();
    // In row 0, digits 1, 2 and 3 appear only in cells (0, 0), (0, 1), (0, 2).
    let without123 = mask_clear(mask_clear(mask_clear(mask_full(), 1), 2), 3);
    for c in 3..9usize {
        b.set_cell(0, c, Cell::Possible(without123));
    }
    assert!(handle_hidden_tripples(&mut b, 0));
    let triple = mask_set(mask_set(mask_set(mask_empty(), 1), 2), 3);
    assert_eq!(b.get(0, 0), Cell::Possible(triple));
    assert_eq!(b.get(0, 1), Cell::Possible(triple));
    assert_eq!(b.get(0, 2), Cell::Possible(triple));
}

#[test]
fn pointing_pair_strikes_the_rest_of_the_row() {
    let mut b = Board::default();
    // Inside box (0, 0), digit 1 survives only in row 0.
    let without1 = mask_clear(mask_full(), 1);
    for r in 1..3usize {
        for c in 0..3usize {
            b.set_cell(r, c, Cell::Possible(without1));
        }
    }
    assert!(handle_pointing(&mut b));
    // Digit 1 is gone from the rest of row 0, outside the box.
    for c in 3..9usize {
        assert_eq!(b.get(0, c), Cell::Possible(without1));
    }
    // Inside the box, row 0 keeps its candidates.
    assert_eq!(b.get(0, 0), Cell::Possible(mask_full()));
}

#[test]
fn box_line_reduction_strikes_the_rest_of_the_box() {
    let mut b = Board::default();
    // In row 0, digit 1 survives only inside box (0, 0).
    let without1 = mask_clear(mask_full(), 1);
    for c in 3..9usize {
        b.set_cell(0, c, Cell::Possible(without1));
    }
    assert!(handle_blocking_row(&mut b));
    // Digit 1 is gone from the rest of box (0, 0), off row 0.
    for r in 1..3usize {
        for c in 0..3usize {
            assert_eq!(b.get(r, c), Cell::Possible(without1));
        }
    }
    assert_eq!(b.get(0, 0), Cell::Possible(mask_full()));
}

#[test]
fn box_line_reduction_for_columns() {
    let mut b = Board::default();
    // In column 0, digit 1 survives only inside box (0, 0).
    let without1 = mask_clear(mask_full(), 1);
    for r in 3..9usize {
        b.set_cell(r, 0, Cell::Possible(without1));
    }
    assert!(handle_blocking_col(&mut b));
    for r in 0..3usize {
        for c in 1..3usize {
            assert_eq!(b.get(r, c), Cell::Possible(without1));
        }
    }
    assert_eq!(b.get(0, 0), Cell::Possible(mask_full()));
}

#[test]
fn monotonic_narrowing_across_rules() {
    let mut b = Board::default();
    b.set_cell(0, 0, Cell::Known(1));
    b.set_cell(4, 4, Cell::Known(2));
    let before = b.num_possible_values();
    handle_collection(&mut b, 0);
    let mid = b.num_possible_values();
    assert!(mid <= before);
    handle_pointing(&mut b);
    let after = b.num_possible_values();
    assert!(after <= mid);
    // The determined cells never change again.
    assert_eq!(b.get(0, 0), Cell::Known(1));
    assert_eq!(b.get(4, 4), Cell::Known(2));
}

#[test]
fn hidden_triple_covers_cells_holding_part_of_the_triple() {
    let mut b = Board::default();
    // In row 0 the digits 1, 2 and 3 are confined to three cells, none of
    // which holds all three: {1,2,8,9}, {2,3} and {1,3}. The triple still
    // applies, and the wide cell is cut down to its share of it.
    let m0 = mask_set(mask_set(mask_set(mask_set(mask_empty(), 1), 2), 8), 9);
    let m1 = mask_set(mask_set(mask_empty(), 2), 3);
    let m2 = mask_set(mask_set(mask_empty(), 1), 3);
    let rest = mask_set(mask_set(mask_empty(), 4), 5);
    b.set_cell(0, 0, Cell::Possible(m0));
    b.set_cell(0, 1, Cell::Possible(m1));
    b.set_cell(0, 2, Cell::Possible(m2));
    for c in 3..9usize {
        b.set_cell(0, c, Cell::Possible(rest));
    }
    assert!(handle_hidden_tripples(&mut b, 0));
    assert_eq!(b.get(0, 0), Cell::Possible(mask_set(mask_set(mask_empty(), 1), 2)));
    assert_eq!(b.get(0, 1), Cell::Possible(m1));
    assert_eq!(b.get(0, 2), Cell::Possible(m2));
}

#[test]
fn promotion_cascades_within_the_pass() {
    let mut b = Board::default();
    // Cell (0, 0) is a naked single for 5: it is promoted at its turn, and
    // the new digit is struck from every later cell of the row in the same
    // call.
    b.set_cell(0, 0, Cell::Possible(mask_set(mask_empty(), 5)));
    assert!(handle_collection(&mut b, 0));
    assert_eq!(b.get(0, 0), Cell::Known(5));
    let expected = Cell::Possible(mask_clear(mask_full(), 5));
    for c in 1..9usize {
        assert_eq!(b.get(0, c), expected);
    }
}
