use sudoku_solver::sudoku::{Sudoku, SudokuError};

fn sample_board() -> Vec<Vec<u8>> {
    vec![
        vec![5, 3, 0, 0, 7, 0, 0, 0, 0],
        vec![6, 0, 0, 1, 9, 5, 0, 0, 0],
        vec![0, 9, 8, 0, 0, 0, 0, 6, 0],
        vec![8, 0, 0, 0, 6, 0, 0, 0, 3],
        vec![4, 0, 0, 8, 0, 3, 0, 0, 1],
        vec![7, 0, 0, 0, 2, 0, 0, 0, 6],
        vec![0, 6, 0, 0, 0, 0, 2, 8, 0],
        vec![0, 0, 0, 4, 1, 9, 0, 0, 5],
        vec![0, 0, 0, 0, 8, 0, 0, 7, 9],
    ]
}

#[test]
fn test_valid_board() {
    let valid_board = vec![
        vec![5, 3, 0, 0, 7, 0, 0, 0, 0],
        vec![6, 0, 0, 1, 9, 5, 0, 0, 0],
        vec![0, 9, 8, 0, 0, 0, 0, 6, 0],
        vec![8, 0, 0, 0, 6, 0, 0, 0, 3],
        vec![4, 0, 0, 8, 0, 3, 0, 0, 1],
        vec![7, 0, 0, 0, 2, 0, 0, 0, 6],
        vec![0, 6, 0, 0, 0, 0, 2, 8, 0],
        vec![0, 0, 0, 4, 1, 9, 0, 0, 5],
        vec![0, 0, 0, 0, 8, 0, 0, 7, 9],
    ];

    let result = Sudoku::new(valid_board.clone());
    assert!(result.is_ok(), "Expected valid board");
    assert_eq!(*result.unwrap().board(), valid_board);
}

#[test]
fn test_invalid_board() {
    let invalid_board_with_duplicates = vec![
        vec![5, 3, 5, 6, 7, 0, 0, 0, 0],
        vec![6, 0, 0, 1, 9, 5, 0, 0, 0],
        vec![0, 9, 8, 0, 0, 0, 0, 6, 0],
        vec![8, 0, 0, 0, 6, 0, 0, 0, 3],
        vec![4, 0, 0, 8, 0, 3, 0, 0, 1],
        vec![7, 0, 0, 0, 2, 0, 0, 0, 6],
        vec![0, 6, 0, 0, 0, 0, 2, 8, 0],
        vec![0, 0, 0, 4, 1, 9, 0, 0, 5],
        vec![0, 0, 0, 0, 8, 0, 0, 7, 9],
    ];

    let result = Sudoku::new(invalid_board_with_duplicates);
    assert!(result.is_err(), "Expected error for invalid board");
}

#[test]
fn test_from_string_valid() {
    let input =
        "530070000600195000098000060800060003400803001700020006060000280000419005000080079";
    let sudoku = Sudoku::from_string(input);
    assert!(sudoku.is_ok());
    assert_eq!(sudoku.unwrap().to_string(), input);
}

#[test]
fn test_from_string_invalid_length() {
    let input = "123"; // too short
    let result = Sudoku::from_string(input);
    assert!(result.is_err(), "Expected error for short input");
}

#[test]
fn test_from_string_non_digit() {
    let input =
        "53007000060019500009800006080006000X400803001700020006060000280000419005000080079";
    let result = Sudoku::from_string(input);
    assert!(result.is_err(), "Expected error for non-digit characters");
}

#[test]
fn test_to_string() {
    let board = vec![
        vec![5, 3, 0, 0, 7, 0, 0, 0, 0],
        vec![6, 0, 0, 1, 9, 5, 0, 0, 0],
        vec![0, 9, 8, 0, 0, 0, 0, 6, 0],
        vec![8, 0, 0, 0, 6, 0, 0, 0, 3],
        vec![4, 0, 0, 8, 0, 3, 0, 0, 1],
        vec![7, 0, 0, 0, 2, 0, 0, 0, 6],
        vec![0, 6, 0, 0, 0, 0, 2, 8, 0],
        vec![0, 0, 0, 4, 1, 9, 0, 0, 5],
        vec![0, 0, 0, 0, 8, 0, 0, 7, 9],
    ];
    let sudoku = Sudoku::new(board.clone()).unwrap();
    let expected = board
        .into_iter()
        .flatten()
        .map(|n| n.to_string())
        .collect::<String>();
    assert_eq!(sudoku.to_string(), expected);
}

#[test]
fn test_partial_eq() {
    let valid_board = vec![
        vec![5, 3, 0, 0, 7, 0, 0, 0, 0],
        vec![6, 0, 0, 1, 9, 5, 0, 0, 0],
        vec![0, 9, 8, 0, 0, 0, 0, 6, 0],
        vec![8, 0, 0, 0, 6, 0, 0, 0, 3],
        vec![4, 0, 0, 8, 0, 3, 0, 0, 1],
        vec![7, 0, 0, 0, 2, 0, 0, 0, 6],
        vec![0, 6, 0, 0, 0, 0, 2, 8, 0],
        vec![0, 0, 0, 4, 1, 9, 0, 0, 5],
        vec![0, 0, 0, 0, 8, 0, 0, 7, 9],
    ];

    let sudoku1 = Sudoku::new(valid_board.clone()).unwrap();
    let sudoku2 = Sudoku::new(valid_board).unwrap();
    assert_eq!(sudoku1, sudoku2);
}

#[test]
fn test_display_formatting() {
    let board = vec![
        vec![5, 3, 0, 0, 7, 0, 0, 0, 0],
        vec![6, 0, 0, 1, 9, 5, 0, 0, 0],
        vec![0, 9, 8, 0, 0, 0, 0, 6, 0],
        vec![8, 0, 0, 0, 6, 0, 0, 0, 3],
        vec![4, 0, 0, 8, 0, 3, 0, 0, 1],
        vec![7, 0, 0, 0, 2, 0, 0, 0, 6],
        vec![0, 6, 0, 0, 0, 0, 2, 8, 0],
        vec![0, 0, 0, 4, 1, 9, 0, 0, 5],
        vec![0, 0, 0, 0, 8, 0, 0, 7, 9],
    ];
    let sudoku = Sudoku::new(board).unwrap();
    let display = sudoku.render();
    assert!(display.contains("+-----------------------+"));
    assert!(display.contains("| 5 3 . | . 7 . | . . . |"));
}

#[test]
fn render_draws_the_whole_picture() {
    let sudoku = Sudoku::new(sample_board()).unwrap();
    let expected = "\
+-----------------------+
| 5 3 . | . 7 . | . . . |
| 6 . . | 1 9 5 | . . . |
| . 9 8 | . . . | . 6 . |
|-------+-------+-------|
| 8 . . | . 6 . | . . 3 |
| 4 . . | 8 . 3 | . . 1 |
| 7 . . | . 2 . | . . 6 |
|-------+-------+-------|
| . 6 . | . . . | 2 8 . |
| . . . | 4 1 9 | . . 5 |
| . . . | . 8 . | . 7 9 |
+-----------------------+
";
    assert_eq!(sudoku.render(), expected);
}

#[test]
fn new_rejects_a_repeated_digit_with_invalid_board() {
    let mut board = sample_board();
    board[0] = vec![5, 3, 5, 6, 7, 0, 0, 0, 0];
    assert_eq!(Sudoku::new(board).unwrap_err(), SudokuError::InvalidBoard);
}

#[test]
fn new_rejects_a_repeated_digit_in_a_column_and_in_a_box() {
    let mut in_column = sample_board();
    in_column[8][0] = 5;
    assert_eq!(Sudoku::new(in_column).unwrap_err(), SudokuError::InvalidBoard);
    let mut in_box = sample_board();
    in_box[1][1] = 8;
    assert_eq!(Sudoku::new(in_box).unwrap_err(), SudokuError::InvalidBoard);
}

#[test]
fn new_rejects_a_wrong_shape() {
    let mut short = sample_board();
    short.pop();
    assert_eq!(Sudoku::new(short).unwrap_err(), SudokuError::InvalidBoard);
    let mut long = sample_board();
    long.push(vec![0; 9]);
    assert_eq!(Sudoku::new(long).unwrap_err(), SudokuError::InvalidBoard);
    let mut narrow = sample_board();
    narrow[4].pop();
    assert_eq!(Sudoku::new(narrow).unwrap_err(), SudokuError::InvalidBoard);
    let mut wide = sample_board();
    wide[4].push(0);
    assert_eq!(Sudoku::new(wide).unwrap_err(), SudokuError::InvalidBoard);
    assert_eq!(Sudoku::new(Vec::new()).unwrap_err(), SudokuError::InvalidBoard);
}

#[test]
fn new_rejects_a_cell_above_nine() {
    let mut board = sample_board();
    board[0][2] = 10;
    assert_eq!(Sudoku::new(board).unwrap_err(), SudokuError::InvalidBoard);
}

#[test]
fn new_accepts_the_empty_board() {
    let sudoku = Sudoku::new(vec![vec![0; 9]; 9]).unwrap();
    assert_eq!(sudoku.to_string(), "0".repeat(81));
}

#[test]
fn from_string_tells_the_two_errors_apart() {
    assert_eq!(
        Sudoku::from_string("").unwrap_err(),
        SudokuError::InvalidInputString
    );
    let long = "0".repeat(82);
    assert_eq!(
        Sudoku::from_string(&long).unwrap_err(),
        SudokuError::InvalidInputString
    );
    let slash = format!("{}{}", "0".repeat(80), "/");
    assert_eq!(
        Sudoku::from_string(&slash).unwrap_err(),
        SudokuError::InvalidInputString
    );
    let colon = format!("{}{}", ":", "0".repeat(80));
    assert_eq!(
        Sudoku::from_string(&colon).unwrap_err(),
        SudokuError::InvalidInputString
    );
    let wide_digit = format!("{}{}", "0".repeat(80), "\u{0663}");
    assert_eq!(
        Sudoku::from_string(&wide_digit).unwrap_err(),
        SudokuError::InvalidInputString
    );
    let twice = format!("{}{}", "55", "0".repeat(79));
    assert_eq!(
        Sudoku::from_string(&twice).unwrap_err(),
        SudokuError::InvalidBoard
    );
}

#[test]
fn from_string_reads_row_by_row() {
    let input =
        "530070000600195000098000060800060003400803001700020006060000280000419005000080079";
    let sudoku = Sudoku::from_string(input).unwrap();
    assert_eq!(*sudoku.board(), sample_board());
    assert_eq!(sudoku.get(0, 1), 3);
    assert_eq!(sudoku.get(1, 0), 6);
    assert_eq!(sudoku.get(8, 8), 9);
}

#[test]
fn string_round_trip() {
    let inputs = [
        "000000000000000000000000000000000000000000000000000000000000000000000000000000000",
        "050000024904005000876240000010002080300000750409017200000900000247000000000600032",
        "153786924924135678876249315715362489362498751489517263638921547247853196591674832",
    ];
    for input in inputs {
        assert_eq!(Sudoku::from_string(input).unwrap().to_string(), input);
    }
}

#[test]
fn contains_non_digit_finds_any_other_character() {
    assert!(!Sudoku::contains_non_digit(""));
    assert!(!Sudoku::contains_non_digit("0123456789"));
    assert!(Sudoku::contains_non_digit("12a"));
    assert!(Sudoku::contains_non_digit(" 1"));
    assert!(Sudoku::contains_non_digit("1\u{0663}"));
}

#[test]
fn fill_and_clear_change_one_cell() {
    let mut sudoku = Sudoku::new(sample_board()).unwrap();
    sudoku.fill(0, 2, 4);
    assert_eq!(sudoku.get(0, 2), 4);
    let mut expected = sample_board();
    expected[0][2] = 4;
    assert_eq!(*sudoku.board(), expected);
    sudoku.clear(0, 2);
    assert_eq!(*sudoku.board(), sample_board());
}

#[test]
fn boards_with_different_cells_are_not_equal() {
    let first = Sudoku::new(sample_board()).unwrap();
    let mut other = sample_board();
    other[0][2] = 4;
    let second = Sudoku::new(other).unwrap();
    assert_ne!(first, second);
    assert_eq!(first.clone(), first);
}

#[test]
fn error_messages() {
    assert_eq!(SudokuError::InvalidBoard.message(), "Invalid board");
    assert_eq!(
        SudokuError::InvalidInputString.message(),
        "Invalid input string"
    );
    assert_eq!(SudokuError::Unsolvable.message(), "Unsolvable board");
}

#[test]
fn a_board_can_be_read_as_its_matrix() {
    let sudoku = Sudoku::new(sample_board()).unwrap();
    assert_eq!(sudoku.len(), 9);
    assert_eq!(sudoku[0][1], 3);
    assert_eq!(sudoku[8], vec![0, 0, 0, 0, 8, 0, 0, 7, 9]);
    assert_eq!(*sudoku, sample_board());
}
