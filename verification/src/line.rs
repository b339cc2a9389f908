//! Lines: a row or a column of cells, seen from the side of its clue.

use vstd::prelude::*;
use crate::cell::{Cell, CellModel};

verus! {

/// A line stands for the cells of one row or column, nearest the clue first.
pub type Line = Seq<CellModel>;

/// A line of a consistent puzzle: as many cells as the puzzle has heights,
/// each of them a valid cell of that puzzle.
pub open spec fn line_valid(line: Line) -> bool {
    &&& line.len() >= 1
    &&& forall|i: int|
        0 <= i < line.len() ==> (#[trigger] line[i]).n == line.len() && line[i].valid()
}

/// The line with `v` put at position `i`: that cell is cut down to `v`, and `v`
/// is then taken from every cell that has another candidate left.
pub open spec fn place(line: Line, i: int, v: int) -> Line {
    Seq::new(
        line.len(),
        |j: int|
            if j == i {
                line[j].restrict_to(v).remove(v)
            } else {
                line[j].remove(v)
            },
    )
}

/// The candidates of the cells that are down to one, in the order of the cells.
pub open spec fn solved_values(line: Line) -> Seq<int>
    decreases line.len(),
{
    if line.len() == 0 {
        Seq::empty()
    } else {
        let front = solved_values(line.drop_last());
        if line.last().solved() {
            front.push(line.last().numbers[0])
        } else {
            front
        }
    }
}

/// The first position from `start` on whose cell holds `v`; the length of the
/// line where no such cell follows.
pub open spec fn first_holder_from(line: Line, v: int, start: int) -> int
    decreases line.len() - start,
{
    if start >= line.len() {
        line.len() as int
    } else if line[start].contains(v) {
        start
    } else {
        first_holder_from(line, v, start + 1)
    }
}

/// The first position whose cell holds `v`; the length of the line where no
/// cell does.
pub open spec fn first_holder(line: Line, v: int) -> int {
    first_holder_from(line, v, 0)
}

/// What the cells of a vector stand for, one by one.
pub proof fn lemma_cells_of_line(cells: Vec<Cell>)
    ensures
        cells.deep_view().len() == cells@.len(),
        forall|j: int| 0 <= j < cells@.len() ==> #[trigger] cells@[j]@ == cells.deep_view()[j],
{
}

/// A copy of the line.
pub fn clone_line(cells: &Vec<Cell>) -> (copy: Vec<Cell>)
    ensures
        copy.deep_view() == cells.deep_view(),
        copy.len() == cells.len(),
{
    let mut copy: Vec<Cell> = Vec::new();
    let mut i: usize = 0;
    while i < cells.len()
        invariant
            i <= cells.len(),
            copy.len() == i,
            forall|j: int| 0 <= j < i ==> copy@[j]@ == cells@[j]@,
        decreases cells.len() - i,
    {
        copy.push(cells[i].clone());
        i += 1;
    }
    assert(copy.deep_view() =~= cells.deep_view());
    copy
}

/// Whether the cells make a valid line: there is a cell, there are as many
/// cells as the puzzle has heights, and each is a valid cell of that puzzle.
pub fn is_valid_line(cells: &Vec<Cell>) -> (b: bool)
    ensures
        b == line_valid(cells.deep_view()),
{
    if cells.len() == 0 {
        return false;
    }
    let mut i: usize = 0;
    while i < cells.len()
        invariant
            i <= cells.len(),
            forall|j: int| 0 <= j < i ==> cells@[j]@.n == cells.len() && cells@[j]@.valid(),
        decreases cells.len() - i,
    {
        if cells[i].n != cells.len() || !cells[i].is_valid() {
            assert(cells.deep_view()[i as int] == cells@[i as int]@);
            return false;
        }
        i += 1;
    }
    assert forall|j: int| 0 <= j < cells.len() implies (#[trigger] cells.deep_view()[j]).n
        == cells.len() && cells.deep_view()[j].valid() by {
        assert(cells.deep_view()[j] == cells@[j]@);
    }
    true
}

/// Puts `v` at position `i`: that cell is cut down to `v`, and `v` is then
/// taken from every cell that has another candidate left.
pub fn place_number(cells: &mut Vec<Cell>, i: usize, v: usize)
    requires
        i < old(cells).len(),
    ensures
        final(cells).deep_view() == place(old(cells).deep_view(), i as int, v as int),
        final(cells).len() == old(cells).len(),
{
    let ghost before = cells.deep_view();
    cells[i].replace_cell_with_number(v);
    let ghost fixed = cells.deep_view();
    assert(fixed =~= before.update(i as int, before[i as int].restrict_to(v as int)));
    let mut j: usize = 0;
    while j < cells.len()
        invariant
            j <= cells.len(),
            cells.len() == fixed.len(),
            i < before.len(),
            fixed == before.update(i as int, before[i as int].restrict_to(v as int)),
            forall|k: int| 0 <= k < j ==> cells@[k]@ == fixed[k].remove(v as int),
            forall|k: int| j <= k < cells.len() ==> cells@[k]@ == fixed[k],
        decreases cells.len() - j,
    {
        cells[j].remove_number(v);
        j += 1;
    }
    assert forall|k: int| 0 <= k < cells.len() implies cells.deep_view()[k] == place(
        before,
        i as int,
        v as int,
    )[k] by {
        assert(cells@[k]@ == fixed[k].remove(v as int));
    }
    assert(cells.deep_view() =~= place(before, i as int, v as int));
}

} // verus!
