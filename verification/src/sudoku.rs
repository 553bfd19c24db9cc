//! The board: a matrix of digits that is known to be a legal Sudoku state.

use vstd::prelude::*;
use crate::grid::{Grid, can_place, cell, digits_in_range, grid_of, in_range, lemma_grid_ext, lemma_place, lemma_place_keeps_valid, place, valid_grid, well_shaped};
use crate::text::{chars_of, digit_char, digit_of, digit_text, digit_value, is_digit, is_digit_char, lemma_digit_char_value, lemma_digit_value_char};
use crate::validator::Validator;
use vstd::std_specs::iter::IteratorSpec;
use vstd::string::StringExecFns;
use vstd::string::StrSliceExecFns;

verus! {

/// Why a board could not be built or solved.
#[derive(Debug, Clone, Copy, PartialEq, Eq, Structural)]
pub enum SudokuError {
    /// A row, a column or a box holds a digit twice, or the matrix is not
    /// nine by nine digits.
    InvalidBoard,
    /// The text is not made of exactly 81 decimal digits.
    InvalidInputString,
    /// The search tried every candidate and found no solution.
    Unsolvable,
}

impl SudokuError {
    /// What the error says in words.
    pub open spec fn text(self) -> Seq<char> {
        match self {
            SudokuError::InvalidBoard => "Invalid board"@,
            SudokuError::InvalidInputString => "Invalid input string"@,
            SudokuError::Unsolvable => "Unsolvable board"@,
        }
    }

    /// What the error says in words.
    pub fn message(&self) -> (s: &'static str)
        ensures
            s@ == self.text(),
    {
        match self {
            SudokuError::InvalidBoard => "Invalid board",
            SudokuError::InvalidInputString => "Invalid input string",
            SudokuError::Unsolvable => "Unsolvable board",
        }
    }
}

/// The text is made of exactly 81 decimal digits.
pub open spec fn is_digit_string(s: Seq<char>) -> bool {
    &&& s.len() == 81
    &&& forall|i: int| 0 <= i < 81 ==> is_digit_char(#[trigger] s[i])
}

/// The grid that 81 digits stand for, row by row.
pub open spec fn grid_of_digits(s: Seq<char>) -> Grid {
    Seq::new(9, |r: int| Seq::new(9, |c: int| digit_value(s[9 * r + c])))
}

/// The 81 digits of a grid, row by row.
pub open spec fn digits_of_grid(g: Grid) -> Seq<char> {
    Seq::new(81, |k: int| digit_char(cell(g, k / 9, k % 9)))
}

/// The line that opens and closes the picture of a board.
pub open spec fn border_text() -> Seq<char> {
    "+-----------------------+\n"@
}

/// The line between two bands of boxes.
pub open spec fn band_text() -> Seq<char> {
    "|-------+-------+-------|\n"@
}

/// How a cell is drawn: its digit, or a dot when it is empty, then a blank.
pub open spec fn cell_text(d: u8) -> Seq<char> {
    if d == 0 {
        ". "@
    } else {
        seq![digit_char(d)] + " "@
    }
}

/// What stands before the cell in column `c` of a drawn row: a bar where a
/// new box begins.
pub open spec fn stack_text(c: int) -> Seq<char> {
    if c % 3 == 0 && c != 0 {
        "| "@
    } else {
        Seq::empty()
    }
}

/// What stands before the row `r` of a drawn board: a line where a new band
/// begins.
pub open spec fn gap_text(r: int) -> Seq<char> {
    if r % 3 == 0 && r != 0 {
        band_text()
    } else {
        Seq::empty()
    }
}

/// The drawn row `r` up to, and without, the cell in column `n`.
pub open spec fn row_text_upto(g: Grid, r: int, n: int) -> Seq<char>
    decreases n,
{
    if n <= 0 {
        "| "@
    } else {
        row_text_upto(g, r, n - 1) + stack_text(n - 1) + cell_text(cell(g, r, n - 1))
    }
}

/// The drawn row `r`, with its line end.
pub open spec fn row_text(g: Grid, r: int) -> Seq<char> {
    row_text_upto(g, r, 9) + "|\n"@
}

/// The drawn board up to, and without, row `n`.
pub open spec fn rows_text_upto(g: Grid, n: int) -> Seq<char>
    decreases n,
{
    if n <= 0 {
        border_text()
    } else {
        rows_text_upto(g, n - 1) + gap_text(n - 1) + row_text(g, n - 1)
    }
}

/// The board as a picture: thirteen lines, a frame around the boxes, a dot
/// for an empty cell.
pub open spec fn rendered(g: Grid) -> Seq<char> {
    rows_text_upto(g, 9) + border_text()
}

/// The digits of the grid that 81 digits stand for are those digits.
pub proof fn lemma_digits_round_trip(s: Seq<char>)
    requires
        is_digit_string(s),
    ensures
        well_shaped(grid_of_digits(s)),
        digits_in_range(grid_of_digits(s)),
        digits_of_grid(grid_of_digits(s)) == s,
{
    let g = grid_of_digits(s);
    assert forall|r: int, c: int| in_range(r) && in_range(c) implies #[trigger] cell(g, r, c)
        <= 9 by {
        lemma_digit_value_char(s[9 * r + c]);
    }
    assert forall|k: int| 0 <= k < 81 implies digits_of_grid(g)[k] == s[k] by {
        let r = k / 9;
        let c = k % 9;
        assert(9 * r + c == k);
        assert(cell(g, r, c) == digit_value(s[k]));
        lemma_digit_value_char(s[k]);
    }
    assert(digits_of_grid(g) =~= s);
}

/// The grid that the digits of a legal grid stand for is that grid.
pub proof fn lemma_grid_round_trip(g: Grid)
    requires
        well_shaped(g),
        digits_in_range(g),
    ensures
        is_digit_string(digits_of_grid(g)),
        grid_of_digits(digits_of_grid(g)) == g,
{
    let s = digits_of_grid(g);
    assert forall|i: int| 0 <= i < 81 implies is_digit_char(#[trigger] s[i]) by {
        assert(cell(g, i / 9, i % 9) <= 9);
        lemma_digit_char_value(cell(g, i / 9, i % 9));
    }
    let h = grid_of_digits(s);
    assert forall|r: int, c: int| in_range(r) && in_range(c) implies cell(h, r, c) == cell(
        g,
        r,
        c,
    ) by {
        let k = 9 * r + c;
        assert(k / 9 == r && k % 9 == c);
        assert(cell(g, r, c) <= 9);
        lemma_digit_char_value(cell(g, r, c));
    }
    lemma_grid_ext(h, g);
}

/// A 9×9 board. `0` marks an empty cell.
#[derive(Debug)]
pub struct Sudoku {
    board: Vec<Vec<u8>>,
}

impl View for Sudoku {
    type V = Grid;

    closed spec fn view(&self) -> Grid {
        grid_of(self.board@)
    }
}

impl Sudoku {
    /// The board is a legal state: nine by nine digits, no region with a
    /// repeated digit.
    pub open spec fn wf(&self) -> bool {
        valid_grid(self@)
    }

    /// Builds a board from a matrix, which must be a legal state.
    pub fn new(board: Vec<Vec<u8>>) -> (res: Result<Sudoku, SudokuError>)
        ensures
            res is Ok <==> valid_grid(grid_of(board@)),
            match res {
                Ok(s) => s@ == grid_of(board@) && s.wf(),
                Err(e) => e == SudokuError::InvalidBoard,
            },
    {
        if !Validator::is_valid_board(&board) {
            return Err(SudokuError::InvalidBoard);
        }
        Ok(Sudoku { board })
    }

    /// Whether some character of the text is no decimal digit.
    pub fn contains_non_digit(input: &str) -> (found: bool)
        ensures
            found == exists|i: int| 0 <= i < input@.len() && !is_digit_char(#[trigger] input@[i]),
    {
        for c in it: input.chars()
            invariant
                it.seq() == input@,
                forall|i: int| 0 <= i < it.index() ==> is_digit_char(#[trigger] input@[i]),
        {
            if !is_digit(c) {
                assert(!is_digit_char(input@[it.index() as int]));
                return true;
            }
        }
        false
    }

    /// Builds a board from 81 decimal digits, row by row, `0` for an empty
    /// cell.
    pub fn from_string(input: &str) -> (res: Result<Sudoku, SudokuError>)
        ensures
            res is Ok <==> is_digit_string(input@) && valid_grid(grid_of_digits(input@)),
            match res {
                Ok(s) => s@ == grid_of_digits(input@) && s.wf(),
                Err(e) => if is_digit_string(input@) {
                    e == SudokuError::InvalidBoard
                } else {
                    e == SudokuError::InvalidInputString
                },
            },
    {
        if input.unicode_len() != 81 || Self::contains_non_digit(input) {
            return Err(SudokuError::InvalidInputString);
        }
        let chars = chars_of(input);
        let ghost target = grid_of_digits(input@);
        let mut board: Vec<Vec<u8>> = Vec::new();
        for r in 0..9usize
            invariant
                chars@ == input@,
                is_digit_string(input@),
                target == grid_of_digits(input@),
                board@.len() == r,
                forall|k: int| 0 <= k < r ==> (#[trigger] board@[k])@ == target[k],
        {
            let mut row: Vec<u8> = Vec::new();
            for c in 0..9usize
                invariant
                    chars@ == input@,
                    is_digit_string(input@),
                    target == grid_of_digits(input@),
                    r < 9,
                    row@.len() == c,
                    forall|k: int| 0 <= k < c ==> #[trigger] row@[k] == target[r as int][k],
            {
                let ch = chars[9 * r + c];
                assert(is_digit_char(input@[9 * r + c]));
                row.push(digit_of(ch));
            }
            assert(row@ =~= target[r as int]);
            board.push(row);
        }
        assert(grid_of(board@) =~= target);
        Sudoku::new(board)
    }

    /// The 81 digits of the board, row by row.
    pub fn to_string(&self) -> (s: String)
        requires
            self.wf(),
        ensures
            s@ == digits_of_grid(self@),
    {
        let ghost digits = digits_of_grid(self@);
        let mut s = String::new();
        for r in 0..9usize
            invariant
                self.wf(),
                digits == digits_of_grid(self@),
                s@ == digits.take(9 * r),
        {
            for c in 0..9usize
                invariant
                    self.wf(),
                    digits == digits_of_grid(self@),
                    r < 9,
                    s@ == digits.take(9 * r + c),
            {
                let ghost k = 9 * r + c;
                let d = self.get(r, c);
                assert(cell(self@, r as int, c as int) <= 9);
                s.append(digit_text(d));
                assert(k / 9 == r && k % 9 == c);
                assert(s@ =~= digits.take(k + 1));
            }
        }
        assert(digits.take(81) =~= digits);
        s
    }

    /// The board as a picture of thirteen lines: a frame around the boxes,
    /// and a dot for each empty cell.
    pub fn render(&self) -> (s: String)
        requires
            self.wf(),
        ensures
            s@ == rendered(self@),
    {
        let ghost g = self@;
        let mut s = String::from_str("+-----------------------+\n");
        for r in 0..9usize
            invariant
                self.wf(),
                g == self@,
                s@ == rows_text_upto(g, r as int),
        {
            let ghost above = s@;
            if r % 3 == 0 && r != 0 {
                s.append("|-------+-------+-------|\n");
            }
            assert(s@ =~= above + gap_text(r as int));
            let mut line = String::from_str("| ");
            for c in 0..9usize
                invariant
                    self.wf(),
                    g == self@,
                    r < 9,
                    line@ == row_text_upto(g, r as int, c as int),
            {
                let ghost left = line@;
                if c % 3 == 0 && c != 0 {
                    line.append("| ");
                }
                assert(line@ =~= left + stack_text(c as int));
                let d = self.get(r, c);
                assert(cell(g, r as int, c as int) <= 9);
                let ghost before = line@;
                if d == 0 {
                    line.append(". ");
                } else {
                    line.append(digit_text(d));
                    line.append(" ");
                }
                assert(line@ =~= before + cell_text(d));
            }
            line.append("|\n");
            s.append(line.as_str());
        }
        s.append("+-----------------------+\n");
        s
    }

    /// The rows of the board.
    pub fn board(&self) -> (rows: &Vec<Vec<u8>>)
        ensures
            grid_of(rows@) == self@,
    {
        &self.board
    }

    /// The digit in the cell `(row, col)`.
    pub fn get(&self, row: usize, col: usize) -> (digit: u8)
        requires
            self.wf(),
            row < 9,
            col < 9,
        ensures
            digit == cell(self@, row as int, col as int),
    {
        assert(self@[row as int].len() == 9);
        self.board[row][col]
    }

    /// Puts `value` into the empty cell `(row, col)`.
    pub fn fill(&mut self, row: usize, col: usize, value: u8)
        requires
            old(self).wf(),
            row < 9,
            col < 9,
            1 <= value <= 9,
            cell(old(self)@, row as int, col as int) == 0,
            can_place(old(self)@, row as int, col as int, value),
        ensures
            final(self).wf(),
            final(self)@ == place(old(self)@, row as int, col as int, value),
    {
        proof {
            lemma_place_keeps_valid(self@, row as int, col as int, value);
        }
        self.set(row, col, value);
    }

    /// Empties the cell `(row, col)`.
    pub fn clear(&mut self, row: usize, col: usize)
        requires
            old(self).wf(),
            row < 9,
            col < 9,
        ensures
            final(self).wf(),
            final(self)@ == place(old(self)@, row as int, col as int, 0),
    {
        proof {
            lemma_place_keeps_valid(self@, row as int, col as int, 0);
        }
        self.set(row, col, 0);
    }

    fn set(&mut self, row: usize, col: usize, value: u8)
        requires
            well_shaped(old(self)@),
            row < 9,
            col < 9,
        ensures
            final(self)@ == place(old(self)@, row as int, col as int, value),
    {
        let ghost before = self@;
        assert(before[row as int].len() == 9);
        self.board[row][col] = value;
        proof {
            lemma_place(before, row as int, col as int, value);
            assert(self@ =~= place(before, row as int, col as int, value));
        }
    }
}

/// Whether two matrices stand for the same grid.
fn same_rows(a: &Vec<Vec<u8>>, b: &Vec<Vec<u8>>) -> (same: bool)
    ensures
        same == (grid_of(a@) == grid_of(b@)),
{
    if a.len() != b.len() {
        assert(grid_of(a@).len() != grid_of(b@).len());
        return false;
    }
    for r in 0..a.len()
        invariant
            a@.len() == b@.len(),
            forall|k: int| 0 <= k < r ==> (#[trigger] a@[k])@ == b@[k]@,
    {
        if a[r].len() != b[r].len() {
            assert(grid_of(a@)[r as int].len() != grid_of(b@)[r as int].len());
            return false;
        }
        let width = a[r].len();
        for c in 0..width
            invariant
                r < a@.len(),
                width == a@[r as int]@.len(),
                a@.len() == b@.len(),
                a@[r as int]@.len() == b@[r as int]@.len(),
                forall|k: int| 0 <= k < c ==> #[trigger] a@[r as int]@[k] == b@[r as int]@[k],
        {
            if a[r][c] != b[r][c] {
                assert(grid_of(a@)[r as int][c as int] != grid_of(b@)[r as int][c as int]);
                return false;
            }
        }
        assert(a@[r as int]@ =~= b@[r as int]@);
    }
    assert(grid_of(a@) =~= grid_of(b@));
    true
}

impl std::ops::Deref for Sudoku {
    type Target = Vec<Vec<u8>>;

    /// The rows of the board.
    fn deref(&self) -> (rows: &Vec<Vec<u8>>)
        ensures
            grid_of(rows@) == self@,
    {
        &self.board
    }
}

impl PartialEq for Sudoku {
    fn eq(&self, other: &Self) -> (same: bool) {
        same_rows(&self.board, &other.board)
    }
}

impl vstd::std_specs::cmp::PartialEqSpecImpl for Sudoku {
    open spec fn obeys_eq_spec() -> bool {
        true
    }

    open spec fn eq_spec(&self, other: &Self) -> bool {
        self@ == other@
    }
}

impl Clone for Sudoku {
    fn clone(&self) -> (copy: Sudoku)
        ensures
            copy@ == self@,
    {
        let mut rows: Vec<Vec<u8>> = Vec::new();
        for r in 0..self.board.len()
            invariant
                rows@.len() == r,
                forall|k: int| 0 <= k < r ==> (#[trigger] rows@[k])@ == self.board@[k]@,
        {
            let mut row: Vec<u8> = Vec::new();
            let width = self.board[r].len();
            for c in 0..width
                invariant
                    r < self.board@.len(),
                    width == self.board@[r as int]@.len(),
                    row@.len() == c,
                    forall|k: int| 0 <= k < c ==> #[trigger] row@[k] == self.board@[r as int]@[k],
            {
                row.push(self.board[r][c]);
            }
            assert(row@ =~= self.board@[r as int]@);
            rows.push(row);
        }
        assert(grid_of(rows@) =~= grid_of(self.board@));
        Sudoku { board: rows }
    }
}

} // verus!
