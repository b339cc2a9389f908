//! One pass of deductions over the whole grid.

use vstd::prelude::*;
use crate::board::{Board, BoardModel, WhichRule};
use crate::cell::{lemma_remove_all, Cell, CellModel};
use crate::clues::{apply_clue, check_cell_line_by_rule};
use crate::deductions::{
    check_exclusive_numbers, check_unique_number_left, exclusive_numbers, unique_number_left,
};
use crate::line::{lemma_cells_of_line, line_valid, solved_values, Line};

verus! {

/// A deduction that looks at one line at a time.
#[derive(Clone, Copy, Debug, PartialEq, Eq)]
pub enum Deduction {
    /// What the clue of the line allows to strike.
    ByClue,
    /// A height that one cell alone can hold is given to that cell.
    UniqueNumberLeft,
    /// Heights that have room in as many cells as they are keep those cells.
    ExclusiveNumbers,
}

/// Whether the deduction is made on a line with this clue: a deduction by
/// clue needs a clue, the others are made on every line.
pub open spec fn applies(rule: Deduction, clue: int) -> bool {
    match rule {
        Deduction::ByClue => clue > 0,
        Deduction::UniqueNumberLeft => true,
        Deduction::ExclusiveNumbers => true,
    }
}

/// The line after the deduction.
pub open spec fn deduce(rule: Deduction, clue: int, line: Line) -> Line {
    match rule {
        Deduction::ByClue => apply_clue(line, clue),
        Deduction::UniqueNumberLeft => unique_number_left(line),
        Deduction::ExclusiveNumbers => exclusive_numbers(line),
    }
}

impl BoardModel {
    /// The board after the deduction was made on line `index`, seen from
    /// `which`: the line is taken out, narrowed and written back.
    pub open spec fn deduced_on(self, which: WhichRule, index: int, rule: Deduction) -> BoardModel {
        let clue = self.clues(which)[index];
        if applies(rule, clue) {
            self.with_line(which, index, deduce(rule, clue, self.line_at(which, index)))
        } else {
            self
        }
    }

    /// The board after the deduction was made on the lines `0..upto`, seen
    /// from `which`, one after the other.
    pub open spec fn swept(self, which: WhichRule, rule: Deduction, upto: int) -> BoardModel
        decreases upto,
    {
        if upto <= 0 {
            self
        } else {
            self.swept(which, rule, upto - 1).deduced_on(which, upto - 1, rule)
        }
    }

    /// The board after the deduction was made on every line, seen from `which`.
    pub open spec fn sweep(self, which: WhichRule, rule: Deduction) -> BoardModel {
        self.swept(which, rule, self.size as int)
    }

    /// The board after the deduction was made on every column and then on
    /// every row.
    pub open spec fn sweep_both(self, rule: Deduction) -> BoardModel {
        self.sweep(WhichRule::Up, rule).sweep(WhichRule::Left, rule)
    }

    /// The cell in `row` and `col` after every height that is settled in its
    /// row or column has been taken from it. The heights leave in this order:
    /// those settled above the cell in its column, from the top; those of its
    /// row, from the left; those below it in its column.
    pub open spec fn cross_cell(self, row: int, col: int) -> CellModel {
        let column = self.line_at(WhichRule::Up, col);
        let across = self.line_at(WhichRule::Left, row);
        self.cells[row][col].remove_all(solved_values(column.take(row))).remove_all(
            solved_values(across),
        ).remove_all(solved_values(column.skip(row + 1)))
    }

    /// The board after the height of every cell that has one candidate has
    /// been taken from the other cells of its row and column. Which cells have
    /// one candidate is settled before anything is taken.
    pub open spec fn cross_eliminated(self) -> BoardModel {
        BoardModel {
            cells: Seq::new(self.size, |r: int| Seq::new(self.size, |c: int| self.cross_cell(r, c))),
            ..self
        }
    }

    /// The board after the deductions that look at one line: by the clues of
    /// the four sides, then for heights with one place, then for groups of
    /// heights with as many places.
    pub open spec fn deduced(self) -> BoardModel {
        self.sweep(WhichRule::Up, Deduction::ByClue).sweep(WhichRule::Down, Deduction::ByClue).sweep(
            WhichRule::Left,
            Deduction::ByClue,
        ).sweep(WhichRule::Right, Deduction::ByClue).sweep_both(
            Deduction::UniqueNumberLeft,
        ).sweep_both(Deduction::ExclusiveNumbers)
    }

    /// The board after one whole pass.
    pub open spec fn checked(self) -> BoardModel {
        self.deduced().cross_eliminated()
    }
}

/// A sweep keeps the side length, the clues and the shape of the grid.
pub proof fn lemma_swept_square(b: BoardModel, which: WhichRule, rule: Deduction, upto: int)
    requires
        b.square(),
    ensures
        b.swept(which, rule, upto).square(),
        b.swept(which, rule, upto).size == b.size,
        b.swept(which, rule, upto).up == b.up,
        b.swept(which, rule, upto).down == b.down,
        b.swept(which, rule, upto).left == b.left,
        b.swept(which, rule, upto).right == b.right,
    decreases upto,
{
    if upto > 0 {
        lemma_swept_square(b, which, rule, upto - 1);
    }
}

/// The deductions that look at one line keep the side length, the clues and
/// the shape of the grid.
pub proof fn lemma_deduced_square(b: BoardModel)
    requires
        b.square(),
    ensures
        b.deduced().square(),
        b.deduced().size == b.size,
{
    let n = b.size as int;
    let b1 = b.sweep(WhichRule::Up, Deduction::ByClue);
    lemma_swept_square(b, WhichRule::Up, Deduction::ByClue, n);
    let b2 = b1.sweep(WhichRule::Down, Deduction::ByClue);
    lemma_swept_square(b1, WhichRule::Down, Deduction::ByClue, n);
    let b3 = b2.sweep(WhichRule::Left, Deduction::ByClue);
    lemma_swept_square(b2, WhichRule::Left, Deduction::ByClue, n);
    let b4 = b3.sweep(WhichRule::Right, Deduction::ByClue);
    lemma_swept_square(b3, WhichRule::Right, Deduction::ByClue, n);
    let b5 = b4.sweep(WhichRule::Up, Deduction::UniqueNumberLeft);
    lemma_swept_square(b4, WhichRule::Up, Deduction::UniqueNumberLeft, n);
    let b6 = b5.sweep(WhichRule::Left, Deduction::UniqueNumberLeft);
    lemma_swept_square(b5, WhichRule::Left, Deduction::UniqueNumberLeft, n);
    let b7 = b6.sweep(WhichRule::Up, Deduction::ExclusiveNumbers);
    lemma_swept_square(b6, WhichRule::Up, Deduction::ExclusiveNumbers, n);
    lemma_swept_square(b7, WhichRule::Left, Deduction::ExclusiveNumbers, n);
}

/// The candidate of a cell that is down to one is among the settled values of
/// its line.
pub proof fn lemma_solved_values_hold(line: Line, i: int)
    requires
        0 <= i < line.len(),
        line[i].solved(),
    ensures
        solved_values(line).contains(line[i].numbers[0]),
    decreases line.len(),
{
    let front = line.drop_last();
    if i == line.len() - 1 {
        let all = solved_values(line);
        assert(all[all.len() - 1] == line[i].numbers[0]);
    } else {
        lemma_solved_values_hold(front, i);
        let v = line[i].numbers[0];
        let j = choose|j: int| 0 <= j < solved_values(front).len() && solved_values(front)[j] == v;
        assert(solved_values(line)[j] == v);
    }
}

/// Cross elimination: a cell that has one candidate `v` keeps it, and after
/// the step no other cell of its row or column holds `v`, unless `v` is the
/// one candidate of that cell too.
pub proof fn lemma_cross_elimination(
    b: BoardModel,
    row: int,
    col: int,
    other_row: int,
    other_col: int,
)
    requires
        b.square(),
        0 <= row < b.size,
        0 <= col < b.size,
        0 <= other_row < b.size,
        0 <= other_col < b.size,
        b.cells[row][col].solved(),
        other_row == row || other_col == col,
        !(other_row == row && other_col == col),
    ensures
        b.cross_eliminated().cells[row][col] == b.cells[row][col],
        !b.cross_eliminated().cells[other_row][other_col].contains(b.cells[row][col].numbers[0])
            || b.cross_eliminated().cells[other_row][other_col].numbers
            == seq![b.cells[row][col].numbers[0]],
{
    let v = b.cells[row][col].numbers[0];
    let own = b.cells[row][col];
    let own_column = b.line_at(WhichRule::Up, col);
    let own_row = b.line_at(WhichRule::Left, row);
    lemma_remove_all(own, solved_values(own_column.take(row)), v);
    lemma_remove_all(own, solved_values(own_row), v);
    lemma_remove_all(own, solved_values(own_column.skip(row + 1)), v);

    let column = b.line_at(WhichRule::Up, other_col);
    let across = b.line_at(WhichRule::Left, other_row);
    let above = solved_values(column.take(other_row));
    let beside = solved_values(across);
    let below = solved_values(column.skip(other_row + 1));
    let start = b.cells[other_row][other_col];
    let c1 = start.remove_all(above);
    let c2 = c1.remove_all(beside);
    let c3 = c2.remove_all(below);
    assert(b.cross_eliminated().cells[other_row][other_col] == c3);
    if other_row == row {
        assert(across[col] == own);
        lemma_solved_values_hold(across, col);
    } else if row < other_row {
        assert(column.take(other_row)[row] == own);
        lemma_solved_values_hold(column.take(other_row), row);
    } else {
        assert(column.skip(other_row + 1)[row - other_row - 1] == own);
        lemma_solved_values_hold(column.skip(other_row + 1), row - other_row - 1);
    }
    lemma_remove_all(start, above, v);
    lemma_remove_all(c1, beside, v);
    lemma_remove_all(c2, below, v);
    if c3.contains(v) {
        assert(c3.numbers.len() == 1);
        let i = choose|i: int| 0 <= i < c3.numbers.len() && c3.numbers[i] == v;
        assert(c3.numbers =~= seq![v]);
    }
}

/// Cross elimination at the end of a pass: a cell that has one candidate `v`
/// when the last step begins keeps it, and after the pass no other cell of its
/// row or column holds `v`, unless `v` is the one candidate of that cell too.
pub proof fn lemma_check_all_cross_elimination(
    b: BoardModel,
    row: int,
    col: int,
    other_row: int,
    other_col: int,
)
    requires
        b.valid(),
        0 <= row < b.size,
        0 <= col < b.size,
        0 <= other_row < b.size,
        0 <= other_col < b.size,
        b.deduced().cells[row][col].solved(),
        other_row == row || other_col == col,
        !(other_row == row && other_col == col),
    ensures
        b.checked().cells[row][col] == b.deduced().cells[row][col],
        !b.checked().cells[other_row][other_col].contains(b.deduced().cells[row][col].numbers[0])
            || b.checked().cells[other_row][other_col].numbers
            == seq![b.deduced().cells[row][col].numbers[0]],
{
    lemma_deduced_square(b);
    lemma_cross_elimination(b.deduced(), row, col, other_row, other_col);
}

/// Takes from `cell` the candidate of each cell of `line` from position `from`
/// up to `to` that has one candidate, in the order of the line.
fn remove_solved(cell: &mut Cell, line: &Vec<Cell>, from: usize, to: usize)
    requires
        from <= to <= line.len(),
    ensures
        final(cell)@ == old(cell)@.remove_all(
            solved_values(line.deep_view().subrange(from as int, to as int)),
        ),
        final(cell)@.n == old(cell)@.n,
        old(cell)@.valid() ==> final(cell)@.valid(),
{
    let ghost all = line.deep_view();
    let mut i: usize = from;
    assert(all.subrange(from as int, from as int) =~= Seq::empty());
    while i < to
        invariant
            from <= i <= to <= line.len(),
            all == line.deep_view(),
            cell@ == old(cell)@.remove_all(solved_values(all.subrange(from as int, i as int))),
            cell@.n == old(cell)@.n,
            old(cell)@.valid() ==> cell@.valid(),
        decreases to - i,
    {
        proof {
            let next = all.subrange(from as int, i + 1);
            assert(next.drop_last() =~= all.subrange(from as int, i as int));
            assert(next.last() == line@[i as int]@);
            let front = solved_values(next.drop_last());
            if next.last().solved() {
                assert(front.push(next.last().numbers[0]).drop_last() =~= front);
            }
        }
        if line[i].numbers.len() == 1 {
            cell.remove_number(line[i].numbers[0]);
        }
        i += 1;
    }
}

impl Board {
    /// Makes the deduction on line `index`, seen from `which`: the line is taken
    /// out, narrowed and written back. A deduction by clue is not made on a
    /// line without a clue.
    pub fn deduce_on_line(&mut self, which: WhichRule, index: usize, rule: Deduction)
        requires
            old(self)@.valid(),
            index < old(self)@.size,
        ensures
            final(self)@ == old(self)@.deduced_on(which, index as int, rule),
            final(self)@.valid(),
    {
        let clue = self.rule(which, index);
        if matches!(rule, Deduction::ByClue) && clue == 0 {
            return ;
        }
        let mut cells = self.extract_line(which, index);
        proof {
            lemma_cells_of_line(cells);
        }
        match rule {
            Deduction::ByClue => {
                check_cell_line_by_rule(clue, &mut cells);
            },
            Deduction::UniqueNumberLeft => {
                check_unique_number_left(&mut cells);
            },
            Deduction::ExclusiveNumbers => {
                check_exclusive_numbers(&mut cells);
            },
        }
        proof {
            lemma_cells_of_line(cells);
        }
        self.write_back_line(which, index, &cells);
    }

    /// Makes the deduction on every line, seen from `which`, from line 0 on.
    pub fn sweep(&mut self, which: WhichRule, rule: Deduction)
        requires
            old(self)@.valid(),
        ensures
            final(self)@ == old(self)@.sweep(which, rule),
            final(self)@.valid(),
            final(self)@.size == old(self)@.size,
    {
        let number = self.size();
        let mut index: usize = 0;
        while index < number
            invariant
                index <= number,
                number == old(self)@.size,
                self@.size == number,
                self@.valid(),
                self@ == old(self)@.swept(which, rule, index as int),
            decreases number - index,
        {
            self.deduce_on_line(which, index, rule);
            index += 1;
        }
    }

    /// Strikes what the clues of the side `which_rule` allow, line by line. A
    /// line without a clue is passed over.
    pub fn check_line(&mut self, which_rule: WhichRule)
        requires
            old(self)@.valid(),
        ensures
            final(self)@ == old(self)@.sweep(which_rule, Deduction::ByClue),
            final(self)@.valid(),
            final(self)@.size == old(self)@.size,
    {
        self.sweep(which_rule, Deduction::ByClue);
    }

    /// In every column and then in every row: a height that one cell alone can
    /// hold is given to that cell.
    pub fn check_unique_number_left_all_cells(&mut self)
        requires
            old(self)@.valid(),
        ensures
            final(self)@ == old(self)@.sweep_both(Deduction::UniqueNumberLeft),
            final(self)@.valid(),
            final(self)@.size == old(self)@.size,
    {
        self.sweep(WhichRule::Up, Deduction::UniqueNumberLeft);
        self.sweep(WhichRule::Left, Deduction::UniqueNumberLeft);
    }

    /// In every column and then in every row: heights that have room in as
    /// many cells as they are keep those cells to themselves.
    pub fn check_exclusive_numbers_all_cells(&mut self)
        requires
            old(self)@.valid(),
        ensures
            final(self)@ == old(self)@.sweep_both(Deduction::ExclusiveNumbers),
            final(self)@.valid(),
            final(self)@.size == old(self)@.size,
    {
        self.sweep(WhichRule::Up, Deduction::ExclusiveNumbers);
        self.sweep(WhichRule::Left, Deduction::ExclusiveNumbers);
    }

    /// Cross elimination: the height of every cell that has one candidate is
    /// taken from the other cells of its row and column. Which cells have one
    /// candidate is settled before anything is taken, and no cell loses its
    /// last candidate.
    pub fn check_compl_cell_excl_hor_and_ver(&mut self)
        requires
            old(self)@.valid(),
        ensures
            final(self)@ == old(self)@.cross_eliminated(),
            final(self)@.valid(),
            final(self)@.size == old(self)@.size,
    {
        let ghost before = self@;
        let ghost goal = before.cross_eliminated();
        let number = self.size();
        let ghost n = number as int;
        let mut columns: Vec<Vec<Cell>> = Vec::new();
        let mut col: usize = 0;
        while col < number
            invariant
                col <= number,
                number == self@.size,
                self@ == before,
                before.valid(),
                columns@.len() == col,
                forall|c: int|
                    0 <= c < col ==> (#[trigger] columns@[c]).deep_view() == before.line_at(
                        WhichRule::Up,
                        c,
                    ),
            decreases number - col,
        {
            let column = self.extract_line(WhichRule::Up, col);
            columns.push(column);
            col += 1;
        }
        let mut rows: Vec<Vec<Cell>> = Vec::new();
        let mut row: usize = 0;
        while row < number
            invariant
                row <= number,
                n == number,
                number == self@.size,
                self@ == before,
                before.valid(),
                columns@.len() == number,
                forall|c: int|
                    0 <= c < number ==> (#[trigger] columns@[c]).deep_view() == before.line_at(
                        WhichRule::Up,
                        c,
                    ),
                rows@.len() == row,
                forall|r: int| 0 <= r < row ==> (#[trigger] rows@[r])@.len() == number,
                forall|r: int, c: int|
                    0 <= r < row && 0 <= c < number ==> (#[trigger] rows@[r]@[c])@
                        == before.cross_cell(r, c) && rows@[r]@[c]@.valid() && rows@[r]@[c]@.n
                        == n,
            decreases number - row,
        {
            let across = self.extract_line(WhichRule::Left, row);
            proof {
                lemma_cells_of_line(across);
            }
            let mut narrowed: Vec<Cell> = Vec::new();
            let mut col: usize = 0;
            while col < number
                invariant
                    col <= number,
                    row < number,
                    n == number,
                    number == before.size,
                    before.valid(),
                    across.len() == number,
                    across.deep_view() == before.line_at(WhichRule::Left, row as int),
                    line_valid(across.deep_view()),
                    columns@.len() == number,
                    forall|c: int|
                        0 <= c < number ==> (#[trigger] columns@[c]).deep_view()
                            == before.line_at(WhichRule::Up, c),
                    narrowed@.len() == col,
                    forall|c: int|
                        0 <= c < col ==> (#[trigger] narrowed@[c])@ == before.cross_cell(
                            row as int,
                            c,
                        ) && narrowed@[c]@.valid() && narrowed@[c]@.n == n,
                decreases number - col,
            {
                let ghost column = before.line_at(WhichRule::Up, col as int);
                let ghost start = before.cells[row as int][col as int];
                proof {
                    lemma_cells_of_line(across);
                    lemma_cells_of_line(columns@[col as int]);
                    assert(across.deep_view()[col as int] == start);
                    assert(start.valid());
                    assert(column.take(row as int) =~= column.subrange(0, row as int));
                    assert(column.skip(row + 1) =~= column.subrange(row + 1, n));
                    assert(across.deep_view().subrange(0, n) =~= across.deep_view());
                }
                let mut cell = across[col].clone();
                remove_solved(&mut cell, &columns[col], 0, row);
                remove_solved(&mut cell, &across, 0, number);
                remove_solved(&mut cell, &columns[col], row + 1, number);
                narrowed.push(cell);
                col += 1;
            }
            rows.push(narrowed);
            row += 1;
        }
        let mut row: usize = 0;
        while row < number
            invariant
                row <= number,
                n == number,
                number == before.size,
                before.valid(),
                self@.valid(),
                self@.size == before.size,
                self@.up == before.up,
                self@.down == before.down,
                self@.left == before.left,
                self@.right == before.right,
                rows@.len() == number,
                forall|r: int| 0 <= r < number ==> (#[trigger] rows@[r])@.len() == number,
                forall|r: int, c: int|
                    0 <= r < number && 0 <= c < number ==> (#[trigger] rows@[r]@[c])@
                        == before.cross_cell(r, c) && rows@[r]@[c]@.valid() && rows@[r]@[c]@.n
                        == n,
                forall|r: int, c: int|
                    0 <= r < number && 0 <= c < number ==> #[trigger] self@.cells[r][c] == if r
                        < row {
                        before.cross_cell(r, c)
                    } else {
                        before.cells[r][c]
                    },
            decreases number - row,
        {
            let ghost now = self@;
            proof {
                lemma_cells_of_line(rows@[row as int]);
                let line = rows@[row as int].deep_view();
                assert forall|c: int| 0 <= c < line.len() implies (#[trigger] line[c]).n
                    == line.len() && line[c].valid() by {
                    assert(rows@[row as int]@[c]@.valid());
                }
            }
            self.write_back_line(WhichRule::Left, row, &rows[row]);
            proof {
                assert forall|r: int, c: int| 0 <= r < number && 0 <= c < number implies
                    #[trigger] self@.cells[r][c] == if r < row + 1 {
                    before.cross_cell(r, c)
                } else {
                    before.cells[r][c]
                } by {
                    assert(now.cells[r][c] == if r < row {
                        before.cross_cell(r, c)
                    } else {
                        before.cells[r][c]
                    });
                    if r == row {
                        assert(rows@[r]@[c]@ == before.cross_cell(r, c));
                    }
                }
            }
            row += 1;
        }
        proof {
            assert forall|r: int| 0 <= r < n implies self@.cells[r] == goal.cells[r] by {
                assert forall|c: int| 0 <= c < n implies self@.cells[r][c] == goal.cells[r][c] by {
                    assert(self@.cells[r][c] == before.cross_cell(r, c));
                }
                assert(self@.cells[r] =~= goal.cells[r]);
            }
            assert(self@.cells =~= goal.cells);
        }
    }

    /// The place for a check that the grid is free of contradictions. It
    /// checks nothing.
    pub fn check_integrity(&self) {
    }

    /// One pass of deductions over the whole grid, each step once and in this
    /// order: by the clues of the sides `Up`, `Down`, `Left` and `Right`; for
    /// heights with one place, in every column and then in every row; for
    /// groups of heights with as many places, likewise; and cross elimination.
    /// No step is made again for what a later one has found.
    pub fn check_all(&mut self)
        requires
            old(self)@.valid(),
        ensures
            final(self)@ == old(self)@.checked(),
            final(self)@.valid(),
            final(self)@.size == old(self)@.size,
    {
        self.check_integrity();
        self.check_line(WhichRule::Up);
        self.check_line(WhichRule::Down);
        self.check_line(WhichRule::Left);
        self.check_line(WhichRule::Right);
        self.check_unique_number_left_all_cells();
        self.check_exclusive_numbers_all_cells();
        self.check_compl_cell_excl_hor_and_ver();
    }
}

} // verus!
