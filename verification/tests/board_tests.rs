use sudoku::BoxValue;
use sudoku::Node;
use sudoku::SudokuBoard;
use sudoku::SudokuError;

#[test]
fn test_square() {
    let mut n = Node {
        row: 1,
        col: 1,
        value: BoxValue::Known(1),
    };
    assert_eq!(n.get_square(), 1);
    n.row = 2;
    assert_eq!(n.get_square(), 1);
    n.row = 3;
    assert_eq!(n.get_square(), 1);

    n.col = 6;
    assert_eq!(n.get_square(), 2);

    n.col = 7;
    assert_eq!(n.get_square(), 3);

    n.row = 6;
    assert_eq!(n.get_square(), 6);

    n.row = 7;
    assert_eq!(n.get_square(), 9);
}

#[test]
fn test_reverse_square() {
    assert_eq!(Node::reverse_square(1, 0), (1, 1));
    assert_eq!(Node::reverse_square(1, 1), (1, 2));
    assert_eq!(Node::reverse_square(1, 2), (1, 3));
    assert_eq!(Node::reverse_square(1, 3), (2, 1));
    assert_eq!(Node::reverse_square(1, 4), (2, 2));
    assert_eq!(Node::reverse_square(1, 5), (2, 3));
    assert_eq!(Node::reverse_square(1, 6), (3, 1));
    assert_eq!(Node::reverse_square(1, 7), (3, 2));
    assert_eq!(Node::reverse_square(1, 8), (3, 3));

    assert_eq!(Node::reverse_square(2, 0), (1, 4));
    assert_eq!(Node::reverse_square(2, 1), (1, 5));
    assert_eq!(Node::reverse_square(2, 2), (1, 6));
    assert_eq!(Node::reverse_square(2, 3), (2, 4));
    assert_eq!(Node::reverse_square(2, 4), (2, 5));
    assert_eq!(Node::reverse_square(2, 5), (2, 6));
    assert_eq!(Node::reverse_square(2, 6), (3, 4));
    assert_eq!(Node::reverse_square(2, 7), (3, 5));
    assert_eq!(Node::reverse_square(2, 8), (3, 6));

    assert_eq!(Node::reverse_square(3, 0), (1, 7));
    assert_eq!(Node::reverse_square(3, 1), (1, 8));
    assert_eq!(Node::reverse_square(3, 2), (1, 9));
    assert_eq!(Node::reverse_square(3, 3), (2, 7));
    assert_eq!(Node::reverse_square(3, 4), (2, 8));
    assert_eq!(Node::reverse_square(3, 5), (2, 9));
    assert_eq!(Node::reverse_square(3, 6), (3, 7));
    assert_eq!(Node::reverse_square(3, 7), (3, 8));
    assert_eq!(Node::reverse_square(3, 8), (3, 9));

    assert_eq!(Node::reverse_square(4, 0), (4, 1));
    assert_eq!(Node::reverse_square(4, 1), (4, 2));
    assert_eq!(Node::reverse_square(4, 2), (4, 3));
    assert_eq!(Node::reverse_square(4, 3), (5, 1));
    assert_eq!(Node::reverse_square(4, 4), (5, 2));
    assert_eq!(Node::reverse_square(4, 5), (5, 3));
    assert_eq!(Node::reverse_square(4, 6), (6, 1));
    assert_eq!(Node::reverse_square(4, 7), (6, 2));
    assert_eq!(Node::reverse_square(4, 8), (6, 3));

    assert_eq!(Node::reverse_square(5, 0), (4, 4));
    assert_eq!(Node::reverse_square(5, 1), (4, 5));
    assert_eq!(Node::reverse_square(5, 2), (4, 6));
    assert_eq!(Node::reverse_square(5, 3), (5, 4));
    assert_eq!(Node::reverse_square(5, 4), (5, 5));
    assert_eq!(Node::reverse_square(5, 5), (5, 6));
    assert_eq!(Node::reverse_square(5, 6), (6, 4));
    assert_eq!(Node::reverse_square(5, 7), (6, 5));
    assert_eq!(Node::reverse_square(5, 8), (6, 6));

    assert_eq!(Node::reverse_square(6, 0), (4, 7));
    assert_eq!(Node::reverse_square(6, 1), (4, 8));
    assert_eq!(Node::reverse_square(6, 2), (4, 9));
    assert_eq!(Node::reverse_square(6, 3), (5, 7));
    assert_eq!(Node::reverse_square(6, 4), (5, 8));
    assert_eq!(Node::reverse_square(6, 5), (5, 9));
    assert_eq!(Node::reverse_square(6, 6), (6, 7));
    assert_eq!(Node::reverse_square(6, 7), (6, 8));
    assert_eq!(Node::reverse_square(6, 8), (6, 9));

    assert_eq!(Node::reverse_square(7, 0), (7, 1));
    assert_eq!(Node::reverse_square(7, 1), (7, 2));
    assert_eq!(Node::reverse_square(7, 2), (7, 3));
    assert_eq!(Node::reverse_square(7, 3), (8, 1));
    assert_eq!(Node::reverse_square(7, 4), (8, 2));
    assert_eq!(Node::reverse_square(7, 5), (8, 3));
    assert_eq!(Node::reverse_square(7, 6), (9, 1));
    assert_eq!(Node::reverse_square(7, 7), (9, 2));
    assert_eq!(Node::reverse_square(7, 8), (9, 3));

    assert_eq!(Node::reverse_square(8, 0), (7, 4));
    assert_eq!(Node::reverse_square(8, 1), (7, 5));
    assert_eq!(Node::reverse_square(8, 2), (7, 6));
    assert_eq!(Node::reverse_square(8, 3), (8, 4));
    assert_eq!(Node::reverse_square(8, 4), (8, 5));
    assert_eq!(Node::reverse_square(8, 5), (8, 6));
    assert_eq!(Node::reverse_square(8, 6), (9, 4));
    assert_eq!(Node::reverse_square(8, 7), (9, 5));
    assert_eq!(Node::reverse_square(8, 8), (9, 6));

    assert_eq!(Node::reverse_square(9, 0), (7, 7));
    assert_eq!(Node::reverse_square(9, 1), (7, 8));
    assert_eq!(Node::reverse_square(9, 2), (7, 9));
    assert_eq!(Node::reverse_square(9, 3), (8, 7));
    assert_eq!(Node::reverse_square(9, 4), (8, 8));
    assert_eq!(Node::reverse_square(9, 5), (8, 9));
    assert_eq!(Node::reverse_square(9, 6), (9, 7));
    assert_eq!(Node::reverse_square(9, 7), (9, 8));
    assert_eq!(Node::reverse_square(9, 8), (9, 9));
}

#[test]
fn test_board() {
    let mut sboard = SudokuBoard::new();

    let _ = sboard.mark_as_known(1, 1, 1);
    let _ = sboard.mark_as_known(9, 9, 9);
}

fn scenario_a_input() -> String {
    let mut s = String::new();
    s.push_str("4----8---");
    s.push_str("----91-8-");
    s.push_str("-865-2-3-");
    s.push_str("-2-4--9--");
    s.push_str("-1-2----6");
    s.push_str("367-59---");
    s.push_str("-----5---");
    s.push_str("7--8---24");
    s.push_str("2--93--7-");
    s
}

#[test]
fn test_fill_board() {
    let s = scenario_a_input();
    let sboard = SudokuBoard::fill_board(&s).unwrap();
    let result = sboard.print_board();
    assert_eq!(s, result);
}

#[test]
fn fill_of_empty_text_is_fresh_board() {
    let s = String::new();
    let sboard = SudokuBoard::fill_board(&s).unwrap();
    assert_eq!(sboard.unknown_count(), 81);
    assert!(sboard.print_board().chars().all(|c| c == '-'));
}

#[test]
fn round_trip_zero_placeholder() {
    // '0' consumes a grid position like '-', but renders back as '-'.
    let mut s = String::new();
    for _ in 0..81 {
        s.push_str("0");
    }
    let sboard = SudokuBoard::fill_board(&s).unwrap();
    let rendered = sboard.print_board();
    assert_eq!(rendered.len(), 81);
    assert!(rendered.chars().all(|c| c == '-'));
    assert_eq!(sboard.unknown_count(), 81);
}

#[test]
fn round_trip_ignores_other_characters() {
    // Characters outside the digit/placeholder alphabet consume no position.
    let sparse = format!("1x2y3\n456 789{}", "-".repeat(72));
    let plain = format!("123456789{}", "-".repeat(72));
    let from_sparse = SudokuBoard::fill_board(&sparse).unwrap().print_board();
    let from_plain = SudokuBoard::fill_board(&plain).unwrap().print_board();
    assert_eq!(from_sparse, plain);
    assert_eq!(from_plain, plain);
}

#[test]
fn unknown_count_decreases_per_commit() {
    let mut sboard = SudokuBoard::new();
    assert_eq!(sboard.unknown_count(), 81);
    sboard.mark_as_known(1, 1, 5).unwrap();
    assert_eq!(sboard.unknown_count(), 80);
    sboard.mark_as_known(9, 9, 5).unwrap();
    assert_eq!(sboard.unknown_count(), 79);
}

#[test]
fn commit_removes_value_from_peers() {
    let mut sboard = SudokuBoard::new();
    assert!(sboard.print_possibility().chars().all(|c| c == '9'));
    sboard.mark_as_known(1, 1, 1).unwrap();
    let view = sboard.print_possibility();
    let chars: Vec<char> = view.chars().collect();
    for (i, c) in chars.iter().enumerate() {
        let row = i / 9;
        let col = i % 9;
        let peer = (row == 0 || col == 0 || (row < 3 && col < 3)) && i != 0;
        if i == 0 {
            assert_eq!(*c, 'K');
        } else if peer {
            assert_eq!(*c, '8');
        } else {
            assert_eq!(*c, '9');
        }
    }
}

#[test]
fn out_of_range_coordinates_rejected() {
    let mut sboard = SudokuBoard::new();
    assert!(matches!(
        sboard.mark_as_known(10, 1, 5),
        Err(SudokuError::InvalidRange)
    ));
    assert!(matches!(
        sboard.mark_as_known(1, 0, 5),
        Err(SudokuError::InvalidRange)
    ));
    assert!(matches!(
        sboard.mark_single_option(0, 3),
        Err(SudokuError::InvalidRange)
    ));
    assert_eq!(sboard.unknown_count(), 81);
}

#[test]
fn forced_commit_misuse_errors() {
    let mut sboard = SudokuBoard::new();
    // A fresh cell still has nine candidates.
    assert!(matches!(
        sboard.mark_single_option(1, 1),
        Err(SudokuError::TooManyOptions)
    ));
    sboard.mark_as_known(1, 1, 5).unwrap();
    assert!(matches!(
        sboard.mark_single_option(1, 1),
        Err(SudokuError::AlreadyKnown)
    ));
}

#[test]
fn forced_commit_of_single_candidate() {
    let mut sboard = SudokuBoard::new();
    // Leave (1,9) with the single candidate 9 by filling the rest of row 1.
    for col in 1..9 {
        sboard.mark_as_known(1, col, col as i32).unwrap();
    }
    sboard.mark_single_option(1, 9).unwrap();
    let rendered = sboard.print_board();
    assert!(rendered.starts_with("123456789"));
}

#[test]
fn too_many_digits_rejected() {
    // An 82nd digit would address a tenth row.
    let s = "1".repeat(82);
    assert!(matches!(
        SudokuBoard::fill_board(&s),
        Err(SudokuError::InvalidRange)
    ));
}

#[test]
fn duplicate_digit_in_row_fails_during_fill() {
    // Row 2 holds two 9s; committing the second empties the candidate set
    // of the cell (1,9), whose only remaining candidate was 9.
    let mut s = String::new();
    s.push_str("12345678-");
    s.push_str("9-------9");
    for _ in 0..63 {
        s.push_str("-");
    }
    assert!(matches!(
        SudokuBoard::fill_board(&s),
        Err(SudokuError::NotSolvable)
    ));
}
