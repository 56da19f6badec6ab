use sudoku::board::Board;
use sudoku::solver::{full_pass, solve, SolveOutcome};

fn board_from(lines: [&str; 9]) -> Board {
    let mut b = Board::default();
    for (i, line) in lines.iter().enumerate() {
        let bytes: Vec<u8> = line.bytes().collect();
        assert!(b.parse_line(&bytes, i), "line {} failed to parse", i);
    }
    b
}

/// A complete valid grid: row r, column c holds ((r * 3 + r / 3 + c) % 9) + 1.
fn solved_lines() -> [String; 9] {
    let mut lines: Vec<String> = Vec::new();
    for r in 0..9usize {
        let mut line = String::new();
        for c in 0..9usize {
            let v = ((r * 3 + r / 3 + c) % 9) + 1;
            line.push((b'0' + v as u8) as char);
        }
        lines.push(line);
    }
    lines.try_into().unwrap()
}

#[test]
fn empty_grid_stalls_with_everything_open() {
    let mut b = Board::default();
    let outcome = solve(&mut b);
    assert_eq!(outcome, SolveOutcome::Stalled);
    assert_eq!(b.num_unsolved(), 81);
    assert_eq!(b.num_possible_values(), 729);
    assert!(b.is_correct());
}

#[test]
fn one_more_pass_after_stall_changes_nothing() {
    let mut b = Board::default();
    assert_eq!(solve(&mut b), SolveOutcome::Stalled);
    assert!(!full_pass(&mut b));
}

#[test]
fn single_missing_cell_solves_in_one_pass() {
    let lines = solved_lines();
    let mut blanked: Vec<String> = lines.iter().cloned().collect();
    // Blank out (4, 4) and let the naked single bring it back.
    let expected = blanked[4].as_bytes()[4] - b'0';
    let mut row: Vec<u8> = blanked[4].bytes().collect();
    row[4] = b'0';
    blanked[4] = String::from_utf8(row).unwrap();
    let refs: [&str; 9] = [
        &blanked[0], &blanked[1], &blanked[2], &blanked[3], &blanked[4], &blanked[5], &blanked[6],
        &blanked[7], &blanked[8],
    ];
    let mut b = board_from(refs);
    assert_eq!(b.num_unsolved(), 1);
    let outcome = solve(&mut b);
    assert_eq!(outcome, SolveOutcome::Solved);
    assert_eq!(b.num_unsolved(), 0);
    assert!(b.is_correct());
    assert_eq!(b.get(4, 4).value(), Some(expected));
}

#[test]
fn one_more_pass_after_solve_changes_nothing() {
    let lines = solved_lines();
    let refs: [&str; 9] = [
        &lines[0], &lines[1], &lines[2], &lines[3], &lines[4], &lines[5], &lines[6], &lines[7],
        &lines[8],
    ];
    let mut b = board_from(refs);
    assert_eq!(solve(&mut b), SolveOutcome::Solved);
    assert!(!full_pass(&mut b));
}

#[test]
fn fixed_puzzle_regression() {
    let mut b = board_from([
        "000000300",
        "001007006",
        "540000008",
        "000708020",
        "060009050",
        "008000040",
        "000000080",
        "150300000",
        "200010007",
    ]);
    let outcome = solve(&mut b);
    // Deterministic baseline: this rule set stalls here, with these counts.
    assert_eq!(outcome, SolveOutcome::Stalled);
    assert!(b.is_correct());
    assert_eq!(b.num_unsolved(), 30);
    assert_eq!(b.num_possible_values(), 71);
    // One more pass at the fixpoint changes nothing.
    assert!(!full_pass(&mut b));
}

#[test]
fn contradictory_grid_is_reported() {
    let mut b = board_from([
        "550000000",
        "000000000",
        "000000000",
        "000000000",
        "000000000",
        "000000000",
        "000000000",
        "000000000",
        "000000000",
    ]);
    assert!(!b.is_correct());
    let outcome = solve(&mut b);
    assert_eq!(outcome, SolveOutcome::Contradiction);
    assert!(!b.is_correct());
}
