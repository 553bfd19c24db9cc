use sudoku_solver::input::boardsource::{detect_format_from_path, ends_with, FileFormat};
use sudoku_solver::input::csv_handler::CsvHandler;
use sudoku_solver::input::error::LoadError;
use sudoku_solver::input::json_handler::JsonHandler;
use sudoku_solver::sudoku::SudokuError;

const CSV: &str = "\
5,3,0,0,7,0,0,0,0
6,0,0,1,9,5,0,0,0
0,9,8,0,0,0,0,6,0
8,0,0,0,6,0,0,0,3
4,0,0,8,0,3,0,0,1
7,0,0,0,2,0,0,0,6
0,6,0,0,0,0,2,8,0
0,0,0,4,1,9,0,0,5
0,0,0,0,8,0,0,7,9
";

fn sample_board() -> Vec<Vec<u8>> {
    vec![
        vec![5, 3, 0, 0, 7, 0, 0, 0, 0],
        vec![6, 0, 0, 1, 9, 5, 0, 0, 0],
        vec![0, 9, 8, 0, 0, 0, 0, 6, 0],
        vec![8, 0, 0, 0, 6, 0, 0, 0, 3],
        vec![4, 0, 0, 8, 0, 3, 0, 0, 1],
        vec![7, 0, 0, 0, 2, 0, 0, 0, 6],
        vec![0, 6, 0, 0, 0, 0, 2, 8, 0],
        vec![0, 0, 0, 4, 1, 9, 0, 0, 5],
        vec![0, 0, 0, 0, 8, 0, 0, 7, 9],
    ]
}

fn chars(s: &str) -> Vec<char> {
    s.chars().collect()
}

fn with_line(number: usize, line: &str) -> String {
    let mut lines: Vec<&str> = CSV.lines().collect();
    lines[number - 1] = line;
    lines.join("\n")
}

#[test]
fn detect_format_goes_by_the_end_of_the_path() {
    assert_eq!(detect_format_from_path("boards.json"), Some(FileFormat::Json));
    assert_eq!(detect_format_from_path("dir/boards.csv"), Some(FileFormat::Csv));
    assert_eq!(detect_format_from_path(".json"), Some(FileFormat::Json));
    assert_eq!(detect_format_from_path(".csv"), Some(FileFormat::Csv));
    assert_eq!(detect_format_from_path("boards.csv.json"), Some(FileFormat::Json));
    assert_eq!(detect_format_from_path("boards.json.csv"), Some(FileFormat::Csv));
    assert_eq!(detect_format_from_path("boards.xml"), None);
    assert_eq!(detect_format_from_path("boards.JSON"), None);
    assert_eq!(detect_format_from_path("boards.json "), None);
    assert_eq!(detect_format_from_path("json"), None);
    assert_eq!(detect_format_from_path("csv"), None);
    assert_eq!(detect_format_from_path(""), None);
}

#[test]
fn ends_with_compares_the_tail() {
    assert!(ends_with(&chars("abc"), &chars("bc")));
    assert!(ends_with(&chars("abc"), &chars("abc")));
    assert!(ends_with(&chars("abc"), &chars("")));
    assert!(!ends_with(&chars("abc"), &chars("ab")));
    assert!(!ends_with(&chars("bc"), &chars("abc")));
}

#[test]
fn csv_gives_one_board() {
    let boards = CsvHandler::load_from_text(CSV).unwrap();
    assert_eq!(boards.len(), 1);
    assert_eq!(*boards[0].board(), sample_board());
}

#[test]
fn csv_needs_no_final_line_end_and_bears_blanks_and_signs() {
    let plain = CSV.trim_end();
    assert_eq!(
        *CsvHandler::load_from_text(plain).unwrap()[0].board(),
        sample_board()
    );
    let windows = CSV.replace("\n", "\r\n");
    assert_eq!(
        *CsvHandler::load_from_text(&windows).unwrap()[0].board(),
        sample_board()
    );
    let spaced = with_line(1, " 5 ,\t3,+0, 0,007,0 ,0,0,\u{3000}0\u{a0}");
    assert_eq!(
        *CsvHandler::load_from_text(&spaced).unwrap()[0].board(),
        sample_board()
    );
}

#[test]
fn csv_reports_the_line_of_a_value_that_is_no_number() {
    for bad in ["x", "", " ", "-1", "256", "1.0", "+", "++1", "1 2", "0x1", "\u{0663}"] {
        let line = format!("5,3,0,0,7,0,0,0,{}", bad);
        assert_eq!(
            CsvHandler::load_from_text(&with_line(4, &line)).unwrap_err(),
            LoadError::InvalidNumber { line: 4 },
            "value {:?}",
            bad
        );
    }
    // An empty line is a line with one value that is no number.
    assert_eq!(
        CsvHandler::load_from_text(&with_line(5, "")).unwrap_err(),
        LoadError::InvalidNumber { line: 5 }
    );
    // An empty last line is no line.
    assert_eq!(
        CsvHandler::load_from_text(&with_line(9, "")).unwrap_err(),
        LoadError::WrongRowCount
    );
}

#[test]
fn csv_reports_the_line_with_too_few_or_too_many_values() {
    assert_eq!(
        CsvHandler::load_from_text(&with_line(2, "6,0,0,1,9,5,0,0")).unwrap_err(),
        LoadError::WrongValueCount { line: 2 }
    );
    assert_eq!(
        CsvHandler::load_from_text(&with_line(7, "0,6,0,0,0,0,2,8,0,0")).unwrap_err(),
        LoadError::WrongValueCount { line: 7 }
    );
    assert_eq!(
        CsvHandler::load_from_text(&with_line(7, "0,6,0,0,0,0,2,8,0,")).unwrap_err(),
        LoadError::InvalidNumber { line: 7 }
    );
}

#[test]
fn csv_reports_the_first_line_that_is_wrong() {
    let text = with_line(3, "1,2");
    let mut lines: Vec<&str> = text.lines().collect();
    lines[5] = "a,b";
    assert_eq!(
        CsvHandler::load_from_text(&lines.join("\n")).unwrap_err(),
        LoadError::WrongValueCount { line: 3 }
    );
    // A value that is no number counts before the number of values.
    assert_eq!(
        CsvHandler::load_from_text(&with_line(3, "1,x")).unwrap_err(),
        LoadError::InvalidNumber { line: 3 }
    );
    // A line that is wrong counts before the number of lines.
    assert_eq!(
        CsvHandler::load_from_text("1,2,3\n").unwrap_err(),
        LoadError::WrongValueCount { line: 1 }
    );
}

#[test]
fn csv_needs_nine_lines() {
    assert_eq!(
        CsvHandler::load_from_text("").unwrap_err(),
        LoadError::WrongRowCount
    );
    let eight: Vec<&str> = CSV.lines().take(8).collect();
    assert_eq!(
        CsvHandler::load_from_text(&eight.join("\n")).unwrap_err(),
        LoadError::WrongRowCount
    );
    let ten = format!("{}0,0,0,0,0,0,0,0,0\n", CSV);
    assert_eq!(
        CsvHandler::load_from_text(&ten).unwrap_err(),
        LoadError::WrongRowCount
    );
    let blank_tenth = format!("{}\n", CSV);
    assert_eq!(
        CsvHandler::load_from_text(&blank_tenth).unwrap_err(),
        LoadError::InvalidNumber { line: 10 }
    );
}

#[test]
fn csv_must_be_a_legal_board() {
    assert_eq!(
        CsvHandler::load_from_text(&with_line(1, "5,3,5,6,7,0,0,0,0")).unwrap_err(),
        LoadError::Board(SudokuError::InvalidBoard)
    );
    assert_eq!(
        CsvHandler::load_from_text(&with_line(1, "5,3,0,0,7,0,0,0,10")).unwrap_err(),
        LoadError::Board(SudokuError::InvalidBoard)
    );
    assert_eq!(
        CsvHandler::load_from_text(&with_line(1, "5,3,0,0,7,0,0,0,255")).unwrap_err(),
        LoadError::Board(SudokuError::InvalidBoard)
    );
}

#[test]
fn parse_values_reads_the_fields_of_a_line() {
    assert_eq!(
        CsvHandler::parse_values(&chars("1, 2 ,255,+4")),
        Some(vec![1, 2, 255, 4])
    );
    assert_eq!(CsvHandler::parse_values(&chars("7")), Some(vec![7]));
    assert_eq!(CsvHandler::parse_values(&chars("")), None);
    assert_eq!(CsvHandler::parse_values(&chars("1,,2")), None);
    assert_eq!(CsvHandler::parse_values(&chars("1,2,")), None);
    assert_eq!(CsvHandler::parse_values(&chars("1;2")), None);
}

#[test]
fn parse_row_wants_nine_values() {
    assert_eq!(
        CsvHandler::parse_row(&chars("1,2,3,4,5,6,7,8,9"), 1),
        Ok(vec![1, 2, 3, 4, 5, 6, 7, 8, 9])
    );
    assert_eq!(
        CsvHandler::parse_row(&chars("1,2,3"), 12),
        Err(LoadError::WrongValueCount { line: 12 })
    );
    assert_eq!(
        CsvHandler::parse_row(&chars("1,2,z"), 12),
        Err(LoadError::InvalidNumber { line: 12 })
    );
}

#[test]
fn boards_from_records_wants_one_record_at_least() {
    assert_eq!(
        JsonHandler::boards_from_records(Vec::new()),
        Err(LoadError::NoBoardsFound)
    );
    let records = vec![sample_board(), vec![vec![1, 2, 3]]];
    assert_eq!(
        JsonHandler::boards_from_records(records.clone()),
        Ok(records)
    );
}

#[test]
fn load_error_messages() {
    assert_eq!(
        LoadError::NoBoardsFound.message(),
        "No Sudoku boards found in the file"
    );
    assert_eq!(
        LoadError::InvalidNumber { line: 3 }.message(),
        "Invalid number in line 3"
    );
    assert_eq!(
        LoadError::InvalidNumber { line: 1204 }.message(),
        "Invalid number in line 1204"
    );
    assert_eq!(
        LoadError::WrongValueCount { line: 10 }.message(),
        "Line 10 does not contain 9 values"
    );
    assert_eq!(
        LoadError::WrongRowCount.message(),
        "CSV does not contain 9 rows"
    );
    assert_eq!(
        LoadError::Board(SudokuError::InvalidBoard).message(),
        "Invalid board"
    );
    assert_eq!(
        LoadError::NoValidBoards.message(),
        "No valid Sudoku boards found"
    );
}
