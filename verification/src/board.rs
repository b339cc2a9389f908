//! The grid with its clues, and one pass of deductions over it.

use vstd::prelude::*;
use crate::cell::{as_ints, lemma_full_valid, Cell, CellModel};
use crate::line::{line_valid, Line};

verus! {

/// The side from which a clue looks into the grid. `Up` and `Down` clues
/// belong to columns, `Left` and `Right` clues to rows.
#[derive(Clone, Copy, Debug, PartialEq, Eq)]
pub enum WhichRule {
    Up,
    Down,
    Left,
    Right,
}

/// What a board stands for: the side length, the cells by row and column, and
/// the clues of the four sides, where 0 means that there is no clue.
pub struct BoardModel {
    pub size: nat,
    pub up: Seq<int>,
    pub down: Seq<int>,
    pub left: Seq<int>,
    pub right: Seq<int>,
    pub cells: Seq<Seq<CellModel>>,
}

/// The row of the cell at position `p` of line `index`, seen from `which`.
pub open spec fn row_at(which: WhichRule, size: int, index: int, p: int) -> int {
    match which {
        WhichRule::Up => p,
        WhichRule::Down => size - 1 - p,
        WhichRule::Left => index,
        WhichRule::Right => index,
    }
}

/// The column of the cell at position `p` of line `index`, seen from `which`.
pub open spec fn col_at(which: WhichRule, size: int, index: int, p: int) -> int {
    match which {
        WhichRule::Up => index,
        WhichRule::Down => index,
        WhichRule::Left => p,
        WhichRule::Right => size - 1 - p,
    }
}

/// Whether the cell in `row` and `col` lies on line `index`, seen from `which`.
pub open spec fn on_line(which: WhichRule, index: int, row: int, col: int) -> bool {
    match which {
        WhichRule::Up => col == index,
        WhichRule::Down => col == index,
        WhichRule::Left => row == index,
        WhichRule::Right => row == index,
    }
}

/// The position on its line of the cell in `row` and `col`, seen from `which`.
pub open spec fn position_on_line(which: WhichRule, size: int, row: int, col: int) -> int {
    match which {
        WhichRule::Up => row,
        WhichRule::Down => size - 1 - row,
        WhichRule::Left => col,
        WhichRule::Right => size - 1 - col,
    }
}

/// The number that a decimal digit stands for; nothing for any other character.
pub open spec fn digit_value(c: char) -> Option<int> {
    if '0' <= c && c <= '9' {
        Some(c as int - '0' as int)
    } else {
        None
    }
}

/// The number that the character at place `p` of `text` stands for, if there
/// is such a character and it is a decimal digit.
pub open spec fn digit_at(text: Seq<char>, p: int) -> Option<int> {
    if 0 <= p < text.len() {
        digit_value(text[p])
    } else {
        None
    }
}

/// The clues of one side of a puzzle of side `n` after `text` was read into
/// them. The character at place `p` speaks of the clue at place `p`: a digit
/// that is no more than `n` becomes the clue; any other character, and the
/// lack of one, leaves the clue as it was. Characters beyond the last clue are
/// passed over.
pub open spec fn clues_after(clues: Seq<int>, text: Seq<char>, n: nat) -> Seq<int> {
    Seq::new(
        clues.len(),
        |p: int|
            match digit_at(text, p) {
                Some(d) => if d <= n {
                    d
                } else {
                    clues[p]
                },
                None => clues[p],
            },
    )
}

/// The cell that `text` names in a puzzle of side `n`: its first two
/// characters are the row and the column, counted from 1. Nothing where one
/// of them is missing, is no digit, or is not in `1..=n`. The result counts
/// from 0.
pub open spec fn cell_address(text: Seq<char>, n: nat) -> Option<(int, int)> {
    match (digit_at(text, 0), digit_at(text, 1)) {
        (Some(row), Some(col)) => if 1 <= row <= n && 1 <= col <= n {
            Some((row - 1, col - 1))
        } else {
            None
        },
        _ => None,
    }
}

/// The cell and the height that `text` names in a puzzle of side `n`: row,
/// column and height are its first three characters. Nothing where one of
/// them is missing or is no digit, or where the row or the column is not in
/// `1..=n`. The height is not looked at.
pub open spec fn cell_and_height(text: Seq<char>, n: nat) -> Option<(int, int, int)> {
    match (cell_address(text, n), digit_at(text, 2)) {
        (Some((row, col)), Some(height)) => Some((row, col, height)),
        _ => None,
    }
}

impl BoardModel {
    /// The board of side `n` with every cell full and no clue.
    pub open spec fn fresh(n: nat) -> BoardModel {
        BoardModel {
            size: n,
            up: Seq::new(n, |i: int| 0int),
            down: Seq::new(n, |i: int| 0int),
            left: Seq::new(n, |i: int| 0int),
            right: Seq::new(n, |i: int| 0int),
            cells: Seq::new(n, |r: int| Seq::new(n, |c: int| CellModel::full(n))),
        }
    }

    /// The clues of one side are as many as the side is long, each of them 0
    /// or a height of the puzzle.
    pub open spec fn clues_valid(self, clues: Seq<int>) -> bool {
        &&& clues.len() == self.size
        &&& forall|i: int| 0 <= i < clues.len() ==> 0 <= #[trigger] clues[i] <= self.size
    }

    /// The grid has as many rows as the side is long, and each row as many
    /// cells.
    pub open spec fn square(self) -> bool {
        &&& self.cells.len() == self.size
        &&& forall|r: int| 0 <= r < self.size ==> (#[trigger] self.cells[r]).len() == self.size
    }

    /// A square grid of valid cells of one puzzle, with valid clues.
    pub open spec fn valid(self) -> bool {
        &&& self.square()
        &&& forall|r: int, c: int|
            0 <= r < self.size && 0 <= c < self.size ==> (#[trigger] self.cells[r][c]).valid()
                && self.cells[r][c].n == self.size
        &&& self.clues_valid(self.up)
        &&& self.clues_valid(self.down)
        &&& self.clues_valid(self.left)
        &&& self.clues_valid(self.right)
    }

    /// The clues of one side.
    pub open spec fn clues(self, which: WhichRule) -> Seq<int> {
        match which {
            WhichRule::Up => self.up,
            WhichRule::Down => self.down,
            WhichRule::Left => self.left,
            WhichRule::Right => self.right,
        }
    }

    /// The board with other clues on one side.
    pub open spec fn with_clues(self, which: WhichRule, clues: Seq<int>) -> BoardModel {
        match which {
            WhichRule::Up => BoardModel { up: clues, ..self },
            WhichRule::Down => BoardModel { down: clues, ..self },
            WhichRule::Left => BoardModel { left: clues, ..self },
            WhichRule::Right => BoardModel { right: clues, ..self },
        }
    }

    /// The board with another cell in `row` and `col`.
    pub open spec fn with_cell(self, row: int, col: int, cell: CellModel) -> BoardModel {
        BoardModel { cells: self.cells.update(row, self.cells[row].update(col, cell)), ..self }
    }

    /// The cells of line `index`, seen from `which`: position 0 is nearest
    /// the clue.
    pub open spec fn line_at(self, which: WhichRule, index: int) -> Line {
        Seq::new(
            self.size,
            |p: int|
                self.cells[row_at(which, self.size as int, index, p)][col_at(
                    which,
                    self.size as int,
                    index,
                    p,
                )],
        )
    }

    /// The board with the cells of line `index`, seen from `which`, replaced
    /// by those of `line`, each at the place it was taken from.
    pub open spec fn with_line(self, which: WhichRule, index: int, line: Line) -> BoardModel {
        BoardModel {
            cells: Seq::new(
                self.size,
                |r: int|
                    Seq::new(
                        self.size,
                        |c: int|
                            if on_line(which, index, r, c) {
                                line[position_on_line(which, self.size as int, r, c)]
                            } else {
                                self.cells[r][c]
                            },
                    ),
            ),
            ..self
        }
    }

    /// The board after `text` was read into the clues of one side.
    pub open spec fn rules_read(self, which: WhichRule, text: Seq<char>) -> BoardModel {
        self.with_clues(which, clues_after(self.clues(which), text, self.size))
    }

    /// The board after the cell that `text` names was made full again; the
    /// board as it is where `text` names no cell of the grid.
    pub open spec fn cell_restored(self, text: Seq<char>) -> BoardModel {
        match cell_address(text, self.size) {
            Some((row, col)) => self.with_cell(row, col, CellModel::full(self.size)),
            None => self,
        }
    }

    /// The board after the cell that `text` names was cut down to the height
    /// that `text` names; the board as it is where `text` names no cell of the
    /// grid, or no height of the puzzle.
    pub open spec fn cell_settled(self, text: Seq<char>) -> BoardModel {
        match cell_and_height(text, self.size) {
            Some((row, col, height)) => self.with_cell(
                row,
                col,
                self.cells[row][col].restrict_to(height),
            ),
            None => self,
        }
    }

    /// The board after the height that `text` names was taken from the cell
    /// that `text` names, unless it was the last of the cell; the board as it
    /// is where `text` names no cell of the grid.
    pub open spec fn cell_struck(self, text: Seq<char>) -> BoardModel {
        match cell_and_height(text, self.size) {
            Some((row, col, height)) => self.with_cell(
                row,
                col,
                self.cells[row][col].remove(height),
            ),
            None => self,
        }
    }
}

/// Writing a line back as it was taken out leaves the board as it was.
pub proof fn lemma_write_back_unchanged(b: BoardModel, which: WhichRule, index: int)
    requires
        b.valid(),
        0 <= index < b.size,
    ensures
        b.with_line(which, index, b.line_at(which, index)) == b,
{
    let after = b.with_line(which, index, b.line_at(which, index));
    assert forall|r: int| 0 <= r < b.size implies after.cells[r] == b.cells[r] by {
        assert(b.cells[r].len() == b.size);
        assert(after.cells[r] =~= b.cells[r]);
    }
    assert(after.cells =~= b.cells);
}

/// A line taken out of a valid board is a valid line, and writing a valid
/// line back leaves the board valid.
pub proof fn lemma_lines_of_valid_board(b: BoardModel, which: WhichRule, index: int, line: Line)
    requires
        b.valid(),
        0 <= index < b.size,
    ensures
        line_valid(b.line_at(which, index)),
        line_valid(line) && line.len() == b.size ==> b.with_line(which, index, line).valid(),
        line.len() == b.size ==> b.with_line(which, index, line).line_at(which, index) == line,
{
    let n = b.size as int;
    let taken = b.line_at(which, index);
    assert forall|p: int| 0 <= p < taken.len() implies (#[trigger] taken[p]).n == taken.len()
        && taken[p].valid() by {
        let r = row_at(which, n, index, p);
        let c = col_at(which, n, index, p);
        assert(b.cells[r][c].valid());
    }
    let after = b.with_line(which, index, line);
    if line_valid(line) && line.len() == b.size {
        assert forall|r: int, c: int| 0 <= r < after.size && 0 <= c < after.size implies (
        #[trigger] after.cells[r][c]).valid() && after.cells[r][c].n == after.size by {
            assert(b.cells[r][c].valid());
            if on_line(which, index, r, c) {
                assert(line[position_on_line(which, n, r, c)].valid());
            }
        }
    }
    if line.len() == b.size {
        assert forall|p: int| 0 <= p < n implies after.line_at(which, index)[p] == line[p] by {
            let r = row_at(which, n, index, p);
            let c = col_at(which, n, index, p);
            assert(on_line(which, index, r, c));
            assert(position_on_line(which, n, r, c) == p);
        }
        assert(after.line_at(which, index) =~= line);
    }
}

/// A square grid of candidate cells with the clues of its four sides.
#[derive(Debug)]
pub struct Board {
    number: usize,
    rules_up: Vec<usize>,
    rules_down: Vec<usize>,
    rules_left: Vec<usize>,
    rules_right: Vec<usize>,
    cells: Vec<Vec<Cell>>,
}

impl View for Board {
    type V = BoardModel;

    closed spec fn view(&self) -> BoardModel {
        BoardModel {
            size: self.number as nat,
            up: as_ints(self.rules_up@),
            down: as_ints(self.rules_down@),
            left: as_ints(self.rules_left@),
            right: as_ints(self.rules_right@),
            cells: self.cells.deep_view(),
        }
    }
}

/// A vector of `n` zeros.
fn zeros(n: usize) -> (v: Vec<usize>)
    ensures
        v@.len() == n,
        forall|i: int| 0 <= i < n ==> v@[i] == 0,
{
    let mut v: Vec<usize> = Vec::new();
    let mut i: usize = 0;
    while i < n
        invariant
            i <= n,
            v@.len() == i,
            forall|j: int| 0 <= j < i ==> v@[j] == 0,
        decreases n - i,
    {
        v.push(0);
        i += 1;
    }
    v
}

/// Where the cell at position `p` of line `index` lies, seen from `which`.
fn coordinates(which: WhichRule, size: usize, index: usize, p: usize) -> (at: (usize, usize))
    requires
        index < size,
        p < size,
    ensures
        at.0 as int == row_at(which, size as int, index as int, p as int),
        at.1 as int == col_at(which, size as int, index as int, p as int),
        at.0 < size,
        at.1 < size,
        on_line(which, index as int, at.0 as int, at.1 as int),
        position_on_line(which, size as int, at.0 as int, at.1 as int) == p,
{
    match which {
        WhichRule::Up => (p, index),
        WhichRule::Down => (size - 1 - p, index),
        WhichRule::Left => (index, p),
        WhichRule::Right => (index, size - 1 - p),
    }
}

/// The number that a decimal digit stands for.
fn digit(c: char) -> (d: Option<usize>)
    ensures
        match d {
            Some(x) => digit_value(c) == Some(x as int) && x <= 9,
            None => digit_value(c).is_none(),
        },
{
    if c >= '0' && c <= '9' {
        Some((c as u32 - '0' as u32) as usize)
    } else {
        None
    }
}

/// The number that the character at place `p` of `text` stands for.
fn read_digit(text: &str, p: usize) -> (d: Option<usize>)
    ensures
        match d {
            Some(x) => digit_at(text@, p as int) == Some(x as int) && x <= 9,
            None => digit_at(text@, p as int).is_none(),
        },
{
    if p < text.unicode_len() {
        digit(text.get_char(p))
    } else {
        None
    }
}

/// Reads `text` into the clues of one side of a puzzle of side `number`.
fn read_clues(clues: &mut Vec<usize>, text: &str, number: usize)
    requires
        old(clues).len() == number,
    ensures
        final(clues).len() == number,
        as_ints(final(clues)@) == clues_after(as_ints(old(clues)@), text@, number as nat),
{
    let ghost before = as_ints(clues@);
    let ghost goal = clues_after(before, text@, number as nat);
    let length = text.unicode_len();
    let mut index: usize = 0;
    while index < number && index < length
        invariant
            index <= number,
            clues.len() == number,
            length == text@.len(),
            before.len() == number,
            goal == clues_after(before, text@, number as nat),
            forall|p: int| 0 <= p < index ==> clues@[p] as int == goal[p],
            forall|p: int| index <= p < number ==> clues@[p] as int == before[p],
        decreases number - index,
    {
        match digit(text.get_char(index)) {
            Some(rule) => {
                if rule <= number {
                    clues[index] = rule;
                }
            },
            None => {},
        }
        index += 1;
    }
    assert(as_ints(clues@) =~= goal);
}

/// The cell that `text` names, counted from 0.
fn read_address(text: &str, number: usize) -> (at: Option<(usize, usize)>)
    ensures
        match at {
            Some((row, col)) => cell_address(text@, number as nat) == Some((row as int, col as int))
                && row < number && col < number,
            None => cell_address(text@, number as nat).is_none(),
        },
{
    match (read_digit(text, 0), read_digit(text, 1)) {
        (Some(row), Some(col)) => {
            if 1 <= row && row <= number && 1 <= col && col <= number {
                Some((row - 1, col - 1))
            } else {
                None
            }
        },
        _ => None,
    }
}

/// The cell and the height that `text` names, the cell counted from 0.
fn read_cell_and_height(text: &str, number: usize) -> (found: Option<(usize, usize, usize)>)
    ensures
        match found {
            Some((row, col, height)) => cell_and_height(text@, number as nat) == Some(
                (row as int, col as int, height as int),
            ) && row < number && col < number,
            None => cell_and_height(text@, number as nat).is_none(),
        },
{
    match (read_address(text, number), read_digit(text, 2)) {
        (Some((row, col)), Some(height)) => Some((row, col, height)),
        _ => None,
    }
}

impl Board {
    /// A board of side `number` with every cell full and no clue.
    pub fn new_board(number: usize) -> (board: Board)
        ensures
            board@ == BoardModel::fresh(number as nat),
            board@.valid(),
    {
        let mut cells: Vec<Vec<Cell>> = Vec::new();
        let mut r: usize = 0;
        while r < number
            invariant
                r <= number,
                cells@.len() == r,
                forall|i: int| 0 <= i < r ==> (#[trigger] cells@[i])@.len() == number,
                forall|i: int, j: int|
                    0 <= i < r && 0 <= j < number ==> (#[trigger] cells@[i]@[j])@
                        == CellModel::full(number as nat),
            decreases number - r,
        {
            let mut row: Vec<Cell> = Vec::new();
            let mut c: usize = 0;
            while c < number
                invariant
                    c <= number,
                    row@.len() == c,
                    forall|j: int|
                        0 <= j < c ==> (#[trigger] row@[j])@ == CellModel::full(number as nat),
                decreases number - c,
            {
                row.push(Cell::new_cell(number));
                c += 1;
            }
            cells.push(row);
            r += 1;
        }
        let board = Board {
            number,
            cells,
            rules_up: zeros(number),
            rules_down: zeros(number),
            rules_left: zeros(number),
            rules_right: zeros(number),
        };
        proof {
            let fresh = BoardModel::fresh(number as nat);
            assert(board@.up =~= fresh.up);
            assert(board@.down =~= fresh.down);
            assert(board@.left =~= fresh.left);
            assert(board@.right =~= fresh.right);
            assert forall|i: int| 0 <= i < number implies board@.cells[i] == fresh.cells[i] by {
                assert(board@.cells[i] =~= fresh.cells[i]);
            }
            assert(board@.cells =~= fresh.cells);
            if number >= 1 {
                lemma_full_valid(number as nat);
            }
        }
        board
    }

    /// The side length of the grid.
    pub fn size(&self) -> (n: usize)
        ensures
            n == self@.size,
    {
        self.number
    }

    /// The clue at place `index` of one side; 0 where there is none.
    pub fn rule(&self, which: WhichRule, index: usize) -> (clue: usize)
        requires
            self@.valid(),
            index < self@.size,
        ensures
            clue as int == self@.clues(which)[index as int],
            clue <= self@.size,
    {
        match which {
            WhichRule::Up => self.rules_up[index],
            WhichRule::Down => self.rules_down[index],
            WhichRule::Left => self.rules_left[index],
            WhichRule::Right => self.rules_right[index],
        }
    }

    /// The cell in `row` and `col`, both counted from 0.
    pub fn cell(&self, row: usize, col: usize) -> (cell: &Cell)
        requires
            self@.valid(),
            row < self@.size,
            col < self@.size,
        ensures
            cell@ == self@.cells[row as int][col as int],
    {
        assert(self@.cells[row as int].len() == self.number);
        &self.cells[row][col]
    }

    /// The cells of line `index`, seen from `which`: position 0 is nearest the
    /// clue.
    pub fn extract_line(&self, which: WhichRule, index: usize) -> (line: Vec<Cell>)
        requires
            self@.valid(),
            index < self@.size,
        ensures
            line.deep_view() == self@.line_at(which, index as int),
            line_valid(line.deep_view()),
    {
        proof {
            lemma_lines_of_valid_board(self@, which, index as int, Seq::empty());
        }
        let mut line: Vec<Cell> = Vec::new();
        let mut p: usize = 0;
        while p < self.number
            invariant
                p <= self.number,
                index < self.number,
                self@.valid(),
                line@.len() == p,
                forall|q: int|
                    0 <= q < p ==> (#[trigger] line@[q])@ == self@.line_at(which, index as int)[q],
            decreases self.number - p,
        {
            let (row, col) = coordinates(which, self.number, index, p);
            assert(self@.cells[row as int].len() == self.number);
            line.push(self.cells[row][col].clone());
            p += 1;
        }
        assert(line.deep_view() =~= self@.line_at(which, index as int));
        line
    }

    /// Puts the cells of `line` where line `index` was taken from, seen from
    /// `which`. A cell that is the same as before is not written.
    pub fn write_back_line(&mut self, which: WhichRule, index: usize, line: &Vec<Cell>)
        requires
            old(self)@.valid(),
            index < old(self)@.size,
            line.len() == old(self)@.size,
            line_valid(line.deep_view()),
        ensures
            final(self)@ == old(self)@.with_line(which, index as int, line.deep_view()),
            final(self)@.valid(),
    {
        proof {
            lemma_lines_of_valid_board(self@, which, index as int, line.deep_view());
        }
        let ghost before = self@;
        let ghost goal = before.with_line(which, index as int, line.deep_view());
        let ghost n = self.number as int;
        let mut p: usize = 0;
        while p < self.number
            invariant
                p <= self.number,
                n == self.number,
                index < self.number,
                line.len() == self.number,
                line_valid(line.deep_view()),
                before.valid(),
                before.size == self.number,
                self@.valid(),
                self@.size == before.size,
                self@.up == before.up,
                self@.down == before.down,
                self@.left == before.left,
                self@.right == before.right,
                goal == before.with_line(which, index as int, line.deep_view()),
                goal.valid(),
                forall|r: int, c: int|
                    0 <= r < n && 0 <= c < n ==> #[trigger] self@.cells[r][c] == if on_line(
                        which,
                        index as int,
                        r,
                        c,
                    ) && position_on_line(which, n, r, c) < p {
                        goal.cells[r][c]
                    } else {
                        before.cells[r][c]
                    },
            decreases self.number - p,
        {
            let (row, col) = coordinates(which, self.number, index, p);
            let ghost now = self@;
            assert(now.cells[row as int].len() == self.number);
            assert(line.deep_view()[p as int] == line@[p as int]@);
            assert(line.deep_view()[p as int].valid());
            if !self.cells[row][col].same_as(&line[p]) {
                self.cells[row][col] = line[p].clone();
            }
            proof {
                assert forall|r: int, c: int| 0 <= r < n && 0 <= c < n implies
                    #[trigger] self@.cells[r][c] == if on_line(which, index as int, r, c)
                    && position_on_line(which, n, r, c) < p + 1 {
                    goal.cells[r][c]
                } else {
                    before.cells[r][c]
                } by {
                    assert(now.cells[r].len() == n);
                    if r == row && c == col {
                        assert(self@.cells[r][c] == line@[p as int]@);
                    } else {
                        assert(self@.cells[r][c] == now.cells[r][c]);
                    }
                }
                assert forall|r: int| 0 <= r < n implies (#[trigger] self@.cells[r]).len()
                    == n by {
                    assert(now.cells[r].len() == n);
                }
                assert forall|r: int, c: int| 0 <= r < n && 0 <= c < n implies (
                #[trigger] self@.cells[r][c]).valid() && self@.cells[r][c].n == n by {
                    assert(goal.cells[r][c].valid());
                    assert(before.cells[r][c].valid());
                }
            }
            p += 1;
        }
        proof {
            assert forall|r: int| 0 <= r < n implies self@.cells[r] == goal.cells[r] by {
                assert forall|c: int| 0 <= c < n implies self@.cells[r][c] == goal.cells[r][c] by {
                    assert(before.cells[r][c].valid());
                }
                assert(self@.cells[r] =~= goal.cells[r]);
            }
            assert(self@.cells =~= goal.cells);
        }
    }
    /// Puts `cell` in `row` and `col`, both counted from 0.
    fn put_cell(&mut self, row: usize, col: usize, cell: Cell)
        requires
            old(self)@.valid(),
            row < old(self)@.size,
            col < old(self)@.size,
            cell@.valid(),
            cell@.n == old(self)@.size,
        ensures
            final(self)@ == old(self)@.with_cell(row as int, col as int, cell@),
            final(self)@.valid(),
    {
        let ghost before = self@;
        let ghost goal = before.with_cell(row as int, col as int, cell@);
        let ghost n = self.number as int;
        assert(before.cells[row as int].len() == n);
        self.cells[row][col] = cell;
        proof {
            assert forall|r: int| 0 <= r < n implies self@.cells[r] == goal.cells[r] by {
                assert(before.cells[r].len() == n);
                assert(self@.cells[r] =~= goal.cells[r]);
            }
            assert(self@.cells =~= goal.cells);
            assert forall|r: int, c: int| 0 <= r < n && 0 <= c < n implies (
            #[trigger] goal.cells[r][c]).valid() && goal.cells[r][c].n == n by {
                assert(before.cells[r][c].valid());
            }
        }
    }

    /// Reads `args` into the clues of the side `which_rule`. The character at
    /// place `p` speaks of the clue at place `p`: a digit that is no more than
    /// the side length becomes the clue; any other character, and the lack of
    /// one, leaves the clue as it was.
    pub fn update_rule_x(&mut self, args: &str, which_rule: WhichRule)
        requires
            old(self)@.valid(),
        ensures
            final(self)@ == old(self)@.rules_read(which_rule, args@),
            final(self)@.valid(),
    {
        let number = self.number;
        match which_rule {
            WhichRule::Up => read_clues(&mut self.rules_up, args, number),
            WhichRule::Down => read_clues(&mut self.rules_down, args, number),
            WhichRule::Left => read_clues(&mut self.rules_left, args, number),
            WhichRule::Right => read_clues(&mut self.rules_right, args, number),
        }
    }

    /// Makes every height possible again in the cell that `args` names by its
    /// row and column, counted from 1. Does nothing where `args` names no cell
    /// of the grid.
    pub fn restore_cell(&mut self, args: &str)
        requires
            old(self)@.valid(),
        ensures
            final(self)@ == old(self)@.cell_restored(args@),
            final(self)@.valid(),
    {
        match read_address(args, self.number) {
            Some((row, col)) => {
                proof {
                    lemma_full_valid(self.number as nat);
                }
                self.put_cell(row, col, Cell::new_cell(self.number));
            },
            None => {},
        }
    }

    /// Leaves one height in the cell that `args` names: row, column and height
    /// are its first three characters, row and column counted from 1. Does
    /// nothing where `args` names no cell of the grid, or no height of the
    /// puzzle.
    pub fn check_ok_cell(&mut self, args: &str)
        requires
            old(self)@.valid(),
        ensures
            final(self)@ == old(self)@.cell_settled(args@),
            final(self)@.valid(),
    {
        match read_cell_and_height(args, self.number) {
            Some((row, col, height)) => {
                assert(self@.cells[row as int].len() == self.number);
                assert(self@.cells[row as int][col as int].valid());
                let mut cell = self.cells[row][col].clone();
                cell.replace_cell_with_number(height);
                self.put_cell(row, col, cell);
            },
            None => {},
        }
    }

    /// Takes one height from the cell that `args` names: row, column and height
    /// are its first three characters, row and column counted from 1. Does
    /// nothing where `args` names no cell of the grid, and never takes the last
    /// height of a cell.
    pub fn remove_number_from_cell(&mut self, args: &str)
        requires
            old(self)@.valid(),
        ensures
            final(self)@ == old(self)@.cell_struck(args@),
            final(self)@.valid(),
    {
        match read_cell_and_height(args, self.number) {
            Some((row, col, height)) => {
                assert(self@.cells[row as int].len() == self.number);
                assert(self@.cells[row as int][col as int].valid());
                let mut cell = self.cells[row][col].clone();
                cell.remove_number(height);
                self.put_cell(row, col, cell);
            },
            None => {},
        }
    }
}

} // verus!
