use std::str::FromStr;
use sudoku::{Sudoku, SudokuParseError};

#[test]
fn test_valid_input_9x9() {
    let input = "
            -------------------
            |1 2 3|4 5 6|7 8 9|
            |4 5 6|7 8 9|1 2 3|
            |7 8 9|1 2 3|4 5 6|
            -------------------
            |2 3 4|5 6 7|8 9 1|
            |5 6 7|8 9 1|2 3 4|
            |8 9 1|2 3 4|5 6 7|
            -------------------
            |3 4 5|6 7 8|9 1 2|
            |6 7 8|9 1 2|3 4 5|
            |9 1 2|3 4 5|6 7 8|
            -------------------
        ";
    let sudoku = Sudoku::from_str(input).unwrap();
    let actual_board: Vec<Vec<u8>> = vec![
        vec![1, 2, 3, 4, 5, 6, 7, 8, 9],
        vec![4, 5, 6, 7, 8, 9, 1, 2, 3],
        vec![7, 8, 9, 1, 2, 3, 4, 5, 6],
        vec![2, 3, 4, 5, 6, 7, 8, 9, 1],
        vec![5, 6, 7, 8, 9, 1, 2, 3, 4],
        vec![8, 9, 1, 2, 3, 4, 5, 6, 7],
        vec![3, 4, 5, 6, 7, 8, 9, 1, 2],
        vec![6, 7, 8, 9, 1, 2, 3, 4, 5],
        vec![9, 1, 2, 3, 4, 5, 6, 7, 8],
    ];

    for row in 0..9 {
        for col in 0..9 {
            assert_eq!(sudoku.get_value(row, col), actual_board[row][col]);
        }
    }
}

#[test]
fn test_invalid_input_missing_values() {
    let input = "
            -------------------
            |1 2 3|4 5 6|7 8 9|
            |4 5 6|7 8 9|1 2 3|
            |7 8 9|1 2 3|4 5 6|
            -------------------
            |2 3 4|5 6 7|8 9 1|
            |5 6 7|8 9 1|2 3 4|
            |8 9 1|2  4|5 6 7|
            -------------------
            |3 4 5|6 7 8|9 1 2|
            |6 7 8|9 1 2|3 4 5|
            |9 1 2|3 4 5|6 7 8|
            -------------------
        ";
    let result = Sudoku::from_str(input);
    assert!(result.is_err());
    assert_eq!(result.err(), Some(SudokuParseError::InvalidFormat));
}

#[test]
fn test_invalid_input_non_numeric() {
    let input = "
            -------------------
            |b 2 3|4 5 6|7 8 9|
            |4 5 6|7 8 9|1 2 3|
            |7 8 9|1 2 3|4 5 6|
            -------------------
            |2 3 4|5 6 7|8 9 1|
            |5 6 7|8 9 1|2 3 4|
            |8 9 1|2 3 4|5 6 7|
            -------------------
            |3 4 5|6 7 8|9 1 2|
            |6 7 8|9 1 2|3 4 a|
            |9 1 2|3 4 5|6 7 5|
            -------------------
        ";
    let result = Sudoku::from_str(input);
    assert!(result.is_err());
    assert_eq!(result.err(), Some(SudokuParseError::InvalidCharacter));
}

#[test]
fn test_invalid_input_missing_row() {
    let input = "
            -------------------
            |1 2 3|4 5 6|7 8 9|
            |4 5 6|7 8 9|1 2 3|
            -------------------
            |2 3 4|5 6 7|8 9 1|
            |5 6 7|8 9 1|2 3 4|
            |8 9 1|2 3 4|5 6 7|
            -------------------
            |3 4 5|6 7 8|9 1 2|
            |6 7 8|9 1 2|3 4 5|
            |9 1 2|3 4 5|6 7 8|
            -------------------
        ";
    let result = Sudoku::from_str(input);
    assert!(result.is_err());
    assert_eq!(result.err(), Some(SudokuParseError::InvalidFormat));
}
