use sudoku::SudokuBoard;
use sudoku::SudokuError;

fn scenario_a() -> String {
    let mut s = String::new();
    s.push_str("4----8---");
    s.push_str("----91-8-");
    s.push_str("-865-2-3-");
    s.push_str("-2-4--9--");
    s.push_str("-1-2----6");
    s.push_str("367-59---");
    s.push_str("-----5---");
    s.push_str("7--8---24");
    s.push_str("2--93--7-");
    s
}

fn scenario_b() -> String {
    let mut s = String::new();
    s.push_str("500300600");
    s.push_str("004001750");
    s.push_str("000059100");
    s.push_str("403200070");
    s.push_str("006000000");
    s.push_str("000000904");
    s.push_str("700090315");
    s.push_str("035000806");
    s.push_str("619080000");
    s
}

fn scenario_b_solution() -> String {
    let mut s = String::new();
    s.push_str("581327649");
    s.push_str("924861753");
    s.push_str("367459182");
    s.push_str("493216578");
    s.push_str("876945231");
    s.push_str("152738964");
    s.push_str("748692315");
    s.push_str("235174896");
    s.push_str("619583427");
    s
}

#[test]
fn test_solve() {
    let s = scenario_b();
    let solution = scenario_b_solution();
    let mut sboard = SudokuBoard::fill_board(&s).unwrap();
    let _ = sboard.solve();
    let result = sboard.print_board();
    assert_eq!(result, solution);
}

#[test]
fn solve_scenario_forced_moves_only() {
    let s = scenario_a();
    let mut sboard = SudokuBoard::fill_board(&s).unwrap();
    sboard.solve().unwrap();
    let result = sboard.print_board();
    let mut expected = String::new();
    expected.push_str("492378165");
    expected.push_str("573691482");
    expected.push_str("186542739");
    expected.push_str("825463917");
    expected.push_str("914287356");
    expected.push_str("367159248");
    expected.push_str("641725893");
    expected.push_str("739816524");
    expected.push_str("258934671");
    assert_eq!(result, expected);
    assert_eq!(sboard.unknown_count(), 0);
    assert!(result.chars().all(|c| c.is_ascii_digit()));
    // The clues are preserved.
    for (i, c) in s.chars().enumerate() {
        if c != '-' {
            assert_eq!(result.as_bytes()[i], c as u8);
        }
    }
}

#[test]
fn solve_twice_is_deterministic() {
    let s = scenario_a();
    let mut first = SudokuBoard::fill_board(&s).unwrap();
    let mut second = SudokuBoard::fill_board(&s).unwrap();
    first.solve().unwrap();
    second.solve().unwrap();
    assert_eq!(first.print_board(), second.print_board());

    let t = scenario_b();
    let mut third = SudokuBoard::fill_board(&t).unwrap();
    let mut fourth = SudokuBoard::fill_board(&t).unwrap();
    third.solve().unwrap();
    fourth.solve().unwrap();
    assert_eq!(third.print_board(), fourth.print_board());
}

#[test]
fn prefilled_board_solves_unchanged() {
    let s = scenario_b_solution();
    let mut sboard = SudokuBoard::fill_board(&s).unwrap();
    assert_eq!(sboard.unknown_count(), 0);
    sboard.solve().unwrap();
    assert_eq!(sboard.unknown_count(), 0);
    assert_eq!(sboard.print_board(), s);
}

#[test]
fn duplicate_in_row_of_filled_board_unsolvable() {
    // A full grid (a digit permutation of a valid solution) with the cell
    // in row 9, column 8 changed to a second 5 in that row: the commit of
    // that 5 empties the candidate set of its right neighbour, whose only
    // remaining candidate was 5, so filling fails rather than crashing.
    let mut s = String::new();
    s.push_str("781325649");
    s.push_str("924861573");
    s.push_str("365479182");
    s.push_str("493216758");
    s.push_str("856947231");
    s.push_str("172538964");
    s.push_str("548692317");
    s.push_str("237154896");
    s.push_str("619783455");
    assert!(matches!(
        SudokuBoard::fill_board(&s),
        Err(SudokuError::NotSolvable)
    ));
}
