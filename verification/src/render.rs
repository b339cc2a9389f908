//! The board as text, in columns of fixed width.

use vstd::prelude::*;
use crate::board::{Board, BoardModel, WhichRule};
use crate::cell::{holds, Cell, CellModel};

verus! {

/// The character of a decimal digit.
pub open spec fn digit_char(d: int) -> char {
    if d == 0 {
        '0'
    } else if d == 1 {
        '1'
    } else if d == 2 {
        '2'
    } else if d == 3 {
        '3'
    } else if d == 4 {
        '4'
    } else if d == 5 {
        '5'
    } else if d == 6 {
        '6'
    } else if d == 7 {
        '7'
    } else if d == 8 {
        '8'
    } else {
        '9'
    }
}

/// A number in decimal digits.
pub open spec fn decimal(n: int) -> Seq<char>
    decreases n,
{
    if n < 10 {
        seq![digit_char(n)]
    } else {
        decimal(n / 10).push(digit_char(n % 10))
    }
}

/// `k` blanks; none where `k` is below 1.
pub open spec fn blanks(k: int) -> Seq<char> {
    Seq::new(
        if k > 0 {
            k as nat
        } else {
            0
        },
        |i: int| ' ',
    )
}

/// The candidates among the heights `1..=upto`, each in its own column: the
/// height where it is a candidate, a blank where it is not.
pub open spec fn columns(c: CellModel, upto: int) -> Seq<char>
    decreases upto,
{
    if upto <= 0 {
        Seq::empty()
    } else {
        columns(c, upto - 1) + if c.contains(upto) {
            decimal(upto)
        } else {
            seq![' ']
        }
    }
}

impl CellModel {
    /// The cell as text. A cell of a puzzle of side 3 or more that has one
    /// candidate shows it in brackets, in the middle of its columns. Any other
    /// cell shows its candidates, each in its own column.
    pub open spec fn text(self) -> Seq<char> {
        if self.numbers.len() == 1 && self.n >= 3 {
            let half = self.n / 2;
            blanks(half - 1) + seq!['('] + decimal(self.numbers[0]) + seq![')'] + blanks(
                if self.n % 2 == 0 {
                    half - 2
                } else {
                    half - 1
                },
            )
        } else {
            columns(self, self.n as int)
        }
    }
}

/// A clue as text: a blank where there is none.
pub open spec fn clue_text(clue: int) -> Seq<char> {
    if clue > 0 {
        decimal(clue)
    } else {
        seq![' ']
    }
}

/// The first `upto` clues of a side above or below the grid, each between
/// `left` and `right` and followed by a blank.
pub open spec fn clues_across(clues: Seq<int>, left: Seq<char>, right: Seq<char>, upto: int) -> Seq<
    char,
>
    decreases upto,
{
    if upto <= 0 {
        Seq::empty()
    } else {
        clues_across(clues, left, right, upto - 1) + left + clue_text(clues[upto - 1]) + right
            + seq![' ']
    }
}

/// The first `upto` cells of a row, each after a bar.
pub open spec fn cells_across(row: Seq<CellModel>, upto: int) -> Seq<char>
    decreases upto,
{
    if upto <= 0 {
        Seq::empty()
    } else {
        cells_across(row, upto - 1) + seq!['|'] + row[upto - 1].text()
    }
}

impl BoardModel {
    /// The blanks before a clue above or below the grid.
    pub open spec fn margin_left(self) -> Seq<char> {
        blanks(self.size as int / 2)
    }

    /// The blanks after a clue above or below the grid.
    pub open spec fn margin_right(self) -> Seq<char> {
        if self.size % 2 == 0 {
            blanks(self.size as int / 2 - 1)
        } else {
            blanks(self.size as int / 2)
        }
    }

    /// The line of the clues of a side above or below the grid.
    pub open spec fn clues_line(self, clues: Seq<int>) -> Seq<char> {
        blanks(5) + clues_across(clues, self.margin_left(), self.margin_right(), self.size as int)
            + seq!['\n']
    }

    /// The line of row `r`: its left clue, its cells between bars, its right
    /// clue.
    pub open spec fn row_line(self, r: int) -> Seq<char> {
        blanks(2) + clue_text(self.left[r]) + seq![' '] + cells_across(
            self.cells[r],
            self.size as int,
        ) + seq!['|'] + seq![' '] + clue_text(self.right[r]) + seq!['\n']
    }

    /// The lines of the first `upto` rows.
    pub open spec fn row_lines(self, upto: int) -> Seq<char>
        decreases upto,
    {
        if upto <= 0 {
            Seq::empty()
        } else {
            self.row_lines(upto - 1) + self.row_line(upto - 1)
        }
    }

    /// The board as text: the upper clues, the rows, the lower clues.
    pub open spec fn text(self) -> Seq<char> {
        self.clues_line(self.up) + self.row_lines(self.size as int) + self.clues_line(self.down)
    }
}

/// The text of a decimal digit.
fn digit_text(d: usize) -> (t: &'static str)
    requires
        d < 10,
    ensures
        t@ == seq![digit_char(d as int)],
{
    proof {
        reveal_strlit("0");
        reveal_strlit("1");
        reveal_strlit("2");
        reveal_strlit("3");
        reveal_strlit("4");
        reveal_strlit("5");
        reveal_strlit("6");
        reveal_strlit("7");
        reveal_strlit("8");
        reveal_strlit("9");
    }
    let t = if d == 0 {
        "0"
    } else if d == 1 {
        "1"
    } else if d == 2 {
        "2"
    } else if d == 3 {
        "3"
    } else if d == 4 {
        "4"
    } else if d == 5 {
        "5"
    } else if d == 6 {
        "6"
    } else if d == 7 {
        "7"
    } else if d == 8 {
        "8"
    } else {
        "9"
    };
    assert(t@ =~= seq![digit_char(d as int)]);
    t
}

/// Writes a number in decimal digits at the end of `text`.
fn append_decimal(text: &mut String, n: usize)
    ensures
        final(text)@ == old(text)@ + decimal(n as int),
    decreases n,
{
    if n < 10 {
        text.append(digit_text(n));
    } else {
        append_decimal(text, n / 10);
        text.append(digit_text(n % 10));
        assert(text@ =~= old(text)@ + decimal(n as int));
    }
}

/// Writes `k` blanks at the end of `text`.
fn append_blanks(text: &mut String, k: usize)
    ensures
        final(text)@ == old(text)@ + blanks(k as int),
{
    proof {
        reveal_strlit(" ");
    }
    let mut i: usize = 0;
    assert(text@ =~= old(text)@ + blanks(0));
    while i < k
        invariant
            i <= k,
            " "@ == seq![' '],
            text@ == old(text)@ + blanks(i as int),
        decreases k - i,
    {
        text.append(" ");
        i += 1;
        assert(text@ =~= old(text)@ + blanks(i as int));
    }
}

/// Writes a clue at the end of `text`: a blank where there is none.
fn append_clue(text: &mut String, clue: usize)
    ensures
        final(text)@ == old(text)@ + clue_text(clue as int),
{
    if clue > 0 {
        append_decimal(text, clue);
    } else {
        proof {
            reveal_strlit(" ");
        }
        text.append(" ");
        assert(text@ =~= old(text)@ + clue_text(clue as int));
    }
}

/// Writes a cell at the end of `text`.
fn append_cell(text: &mut String, cell: &Cell)
    ensures
        final(text)@ == old(text)@ + cell@.text(),
{
    proof {
        reveal_strlit("(");
        reveal_strlit(")");
        reveal_strlit(" ");
    }
    let ghost start = text@;
    if cell.numbers.len() == 1 && cell.n >= 3 {
        let adj_spaces = cell.n / 2;
        append_blanks(text, adj_spaces - 1);
        text.append("(");
        append_decimal(text, cell.numbers[0]);
        text.append(")");
        if cell.n % 2 == 0 {
            append_blanks(text, adj_spaces - 2);
        } else {
            append_blanks(text, adj_spaces - 1);
        }
        assert(text@ =~= start + cell@.text());
    } else {
        let mut i: usize = 0;
        assert(text@ =~= start + columns(cell@, 0));
        while i < cell.n
            invariant
                i <= cell.n,
                " "@ == seq![' '],
                text@ == start + columns(cell@, i as int),
            decreases cell.n - i,
        {
            let ghost so_far = columns(cell@, i as int);
            if holds(&cell.numbers, i + 1) {
                append_decimal(text, i + 1);
                assert(text@ =~= start + (so_far + decimal(i + 1)));
            } else {
                text.append(" ");
                assert(text@ =~= start + (so_far + seq![' ']));
            }
            i += 1;
        }
    }
}

/// The cell as text. A cell of a puzzle of side 3 or more that has one
/// candidate shows it in brackets, in the middle of its columns. Any other
/// cell shows its candidates, each in its own column.
pub fn cell_text(cell: &Cell) -> (text: String)
    ensures
        text@ == cell@.text(),
{
    let mut text = String::new();
    append_cell(&mut text, cell);
    assert(text@ =~= cell@.text());
    text
}

/// Writes the line of the clues of a side above or below the grid at the end
/// of `text`.
fn append_clues_line(text: &mut String, board: &Board, which: WhichRule)
    requires
        board@.valid(),
        which == WhichRule::Up || which == WhichRule::Down,
    ensures
        final(text)@ == old(text)@ + board@.clues_line(board@.clues(which)),
{
    proof {
        reveal_strlit(" ");
        reveal_strlit("\n");
    }
    let ghost start = text@;
    let ghost clues = board@.clues(which);
    let ghost left = board@.margin_left();
    let ghost right = board@.margin_right();
    let number = board.size();
    let adj_spaces = number / 2;
    let after = if number % 2 == 0 {
        if adj_spaces > 0 {
            adj_spaces - 1
        } else {
            0
        }
    } else {
        adj_spaces
    };
    assert(blanks(after as int) =~= right);
    append_blanks(text, 5);
    let ghost lead = text@;
    let mut i: usize = 0;
    assert(text@ =~= lead + clues_across(clues, left, right, 0));
    while i < number
        invariant
            i <= number,
            number == board@.size,
            board@.valid(),
            clues == board@.clues(which),
            left == blanks(adj_spaces as int),
            right == blanks(after as int),
            " "@ == seq![' '],
            text@ == lead + clues_across(clues, left, right, i as int),
        decreases number - i,
    {
        let ghost so_far = clues_across(clues, left, right, i as int);
        let rule = board.rule(which, i);
        append_blanks(text, adj_spaces);
        append_clue(text, rule);
        append_blanks(text, after);
        text.append(" ");
        i += 1;
        assert(text@ =~= lead + (so_far + left + clue_text(clues[i - 1]) + right + seq![' ']));
    }
    text.append("\n");
    assert(text@ =~= start + board@.clues_line(clues));
}

/// Writes the line of row `row` at the end of `text`.
fn append_row_line(text: &mut String, board: &Board, row: usize)
    requires
        board@.valid(),
        row < board@.size,
    ensures
        final(text)@ == old(text)@ + board@.row_line(row as int),
{
    proof {
        reveal_strlit(" ");
        reveal_strlit("|");
        reveal_strlit("\n");
    }
    let ghost start = text@;
    let ghost cells = board@.cells[row as int];
    let number = board.size();
    append_blanks(text, 2);
    append_clue(text, board.rule(WhichRule::Left, row));
    text.append(" ");
    let ghost lead = text@;
    let mut col: usize = 0;
    assert(text@ =~= lead + cells_across(cells, 0));
    while col < number
        invariant
            col <= number,
            number == board@.size,
            row < number,
            board@.valid(),
            cells == board@.cells[row as int],
            "|"@ == seq!['|'],
            text@ == lead + cells_across(cells, col as int),
        decreases number - col,
    {
        let ghost so_far = cells_across(cells, col as int);
        text.append("|");
        append_cell(text, board.cell(row, col));
        col += 1;
        assert(text@ =~= lead + (so_far + seq!['|'] + cells[col - 1].text()));
    }
    text.append("|");
    text.append(" ");
    append_clue(text, board.rule(WhichRule::Right, row));
    text.append("\n");
    assert(text@ =~= start + board@.row_line(row as int));
}

/// The board as text: a line with the upper clues, a line for each row with
/// its left clue, its cells between bars and its right clue, and a line with
/// the lower clues. Each line ends with a line feed.
pub fn board_text(board: &Board) -> (text: String)
    requires
        board@.valid(),
    ensures
        text@ == board@.text(),
{
    let number = board.size();
    let mut text = String::new();
    append_clues_line(&mut text, board, WhichRule::Up);
    let ghost lead = text@;
    let mut row: usize = 0;
    assert(text@ =~= lead + board@.row_lines(0));
    while row < number
        invariant
            row <= number,
            number == board@.size,
            board@.valid(),
            text@ == lead + board@.row_lines(row as int),
        decreases number - row,
    {
        let ghost so_far = board@.row_lines(row as int);
        append_row_line(&mut text, board, row);
        row += 1;
        assert(text@ =~= lead + (so_far + board@.row_line(row - 1)));
    }
    append_clues_line(&mut text, board, WhichRule::Down);
    assert(text@ =~= board@.text());
    text
}

} // verus!
