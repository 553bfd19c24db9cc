use sudoku_solver::batch::{
    collect_solved, solve_board, solve_boards, solve_sudoku_boards, BoardOutcome,
};
use sudoku_solver::input::error::LoadError;
use sudoku_solver::sudoku::Sudoku;

fn matrix_of(digits: &str) -> Vec<Vec<u8>> {
    digits
        .as_bytes()
        .chunks(9)
        .map(|row| row.iter().map(|d| d - b'0').collect())
        .collect()
}

fn easy() -> Vec<Vec<u8>> {
    matrix_of("050000024904005000876240000010002080300000750409017200000900000247000000000600032")
}

fn easy_solved() -> Vec<Vec<u8>> {
    matrix_of("153786924924135678876249315715362489362498751489517263638921547247853196591674832")
}

fn medium() -> Vec<Vec<u8>> {
    matrix_of("000000000603140500902500807520090614300000000001005209730800000009000006060010070")
}

fn medium_solved() -> Vec<Vec<u8>> {
    matrix_of("475289163683147592912563847527398614396421758841675239734856921159732486268914375")
}

fn invalid() -> Vec<Vec<u8>> {
    let mut rows = easy();
    rows[0] = vec![5, 3, 5, 6, 7, 0, 0, 0, 0];
    rows
}

fn unsolvable() -> Vec<Vec<u8>> {
    let mut rows = vec![vec![0u8; 9]; 9];
    rows[0] = vec![1, 2, 3, 4, 5, 6, 7, 8, 0];
    rows[5][8] = 9;
    rows
}

#[test]
fn solve_board_judges_one_matrix() {
    match solve_board(easy()) {
        BoardOutcome::Solved(sudoku) => assert_eq!(*sudoku.board(), easy_solved()),
        other => panic!("solved expected, got {:?}", other),
    }
    assert!(matches!(solve_board(invalid()), BoardOutcome::Invalid));
    assert!(matches!(solve_board(unsolvable()), BoardOutcome::Unsolvable));
    assert!(matches!(solve_board(vec![vec![1, 2, 3]]), BoardOutcome::Invalid));
}

#[test]
fn solve_boards_keeps_the_order_of_the_batch() {
    let outcomes = solve_boards(vec![invalid(), easy(), unsolvable(), medium()]);
    assert_eq!(outcomes.len(), 4);
    assert!(matches!(outcomes[0], BoardOutcome::Invalid));
    assert!(matches!(outcomes[2], BoardOutcome::Unsolvable));
    match (&outcomes[1], &outcomes[3]) {
        (BoardOutcome::Solved(first), BoardOutcome::Solved(second)) => {
            assert_eq!(*first.board(), easy_solved());
            assert_eq!(*second.board(), medium_solved());
        }
        other => panic!("two solved boards expected, got {:?}", other),
    }
    let solved = collect_solved(&outcomes).unwrap();
    assert_eq!(solved.len(), 2);
    assert_eq!(*solved[0].board(), easy_solved());
    assert_eq!(*solved[1].board(), medium_solved());
}

#[test]
fn collect_solved_fails_when_nothing_was_solved() {
    assert_eq!(collect_solved(&Vec::new()), Err(LoadError::NoValidBoards));
    assert_eq!(
        collect_solved(&vec![BoardOutcome::Invalid, BoardOutcome::Unsolvable]),
        Err(LoadError::NoValidBoards)
    );
    let one = vec![
        BoardOutcome::Invalid,
        BoardOutcome::Solved(Sudoku::new(easy_solved()).unwrap()),
    ];
    assert_eq!(
        collect_solved(&one),
        Ok(vec![Sudoku::new(easy_solved()).unwrap()])
    );
}

#[test]
fn a_batch_gives_its_solved_boards() {
    let solved = solve_sudoku_boards(vec![easy()]).unwrap();
    assert_eq!(solved.len(), 1);
    assert_eq!(*solved[0].board(), easy_solved());

    let several = solve_sudoku_boards(vec![medium(), invalid(), easy(), easy_solved()]).unwrap();
    assert_eq!(several.len(), 3);
    assert_eq!(*several[0].board(), medium_solved());
    assert_eq!(*several[1].board(), easy_solved());
    assert_eq!(*several[2].board(), easy_solved());
}

#[test]
fn a_batch_without_a_solvable_board_fails() {
    assert_eq!(
        solve_sudoku_boards(Vec::new()),
        Err(LoadError::NoValidBoards)
    );
    assert_eq!(
        solve_sudoku_boards(vec![invalid()]),
        Err(LoadError::NoValidBoards)
    );
    assert_eq!(
        solve_sudoku_boards(vec![unsolvable(), invalid()]),
        Err(LoadError::NoValidBoards)
    );
}
