//! The pessimistic estimate of how many buildings a line can show.

use vstd::prelude::*;
use crate::cell::{as_ints, holds, Cell};
use crate::line::{clone_line, line_valid, place, place_number, solved_values, Line};

verus! {

/// The largest candidate that is not among `taken`, if there is one. The
/// candidates are read from the last to the first: in a valid cell that is
/// from the largest down.
pub open spec fn largest_free(numbers: Seq<int>, taken: Seq<int>) -> Option<int>
    decreases numbers.len(),
{
    if numbers.len() == 0 {
        None
    } else if !taken.contains(numbers.last()) {
        Some(numbers.last())
    } else {
        largest_free(numbers.drop_last(), taken)
    }
}

/// One step of the scan, at cell `i`: a cell with several candidates takes
/// its largest free one, which is then placed in the line and counts as taken.
/// A cell with one candidate, or with no free one, is passed over.
pub open spec fn commit(line: Line, taken: Seq<int>, i: int) -> (Line, Seq<int>) {
    if line[i].numbers.len() > 1 {
        match largest_free(line[i].numbers, taken) {
            Some(v) => (place(line, i, v), taken.push(v)),
            None => (line, taken),
        }
    } else {
        (line, taken)
    }
}

/// The line and the taken values after the scan has gone over the first `upto`
/// cells. At the start the taken values are those of the cells that have one
/// candidate.
pub open spec fn commit_scan(line: Line, upto: int) -> (Line, Seq<int>)
    decreases upto,
{
    if upto <= 0 {
        (line, solved_values(line))
    } else {
        let before = commit_scan(line, upto - 1);
        commit(before.0, before.1, upto - 1)
    }
}

/// The height that each cell shows: its candidate where it has exactly one,
/// and 0, which no building has, where it has not.
pub open spec fn heights(line: Line) -> Seq<int> {
    Seq::new(
        line.len(),
        |i: int|
            if line[i].solved() {
                line[i].numbers[0]
            } else {
                0
            },
    )
}

/// The largest of the first `upto` heights, and 0 where there is none.
pub open spec fn tallest(h: Seq<int>, upto: int) -> int
    decreases upto,
{
    if upto <= 0 {
        0
    } else if h[upto - 1] > tallest(h, upto - 1) {
        h[upto - 1]
    } else {
        tallest(h, upto - 1)
    }
}

/// How many of the first `upto` heights are peaks: larger than every height
/// before them.
pub open spec fn visible(h: Seq<int>, upto: int) -> int
    decreases upto,
{
    if upto <= 0 {
        0
    } else if h[upto - 1] > tallest(h, upto - 1) {
        visible(h, upto - 1) + 1
    } else {
        visible(h, upto - 1)
    }
}

/// The number of peaks of the line after the scan has gone over all of it.
pub open spec fn worst_case_visible(line: Line) -> int {
    visible(heights(commit_scan(line, line.len() as int).0), line.len() as int)
}

/// The candidates of the cells that are down to one.
fn committed_numbers(cells: &Vec<Cell>) -> (taken: Vec<usize>)
    ensures
        as_ints(taken@) == solved_values(cells.deep_view()),
{
    let ghost line = cells.deep_view();
    let mut taken: Vec<usize> = Vec::new();
    let mut i: usize = 0;
    assert(line.take(0) =~= Seq::empty());
    assert(as_ints(taken@) =~= Seq::empty());
    while i < cells.len()
        invariant
            i <= cells.len(),
            line == cells.deep_view(),
            as_ints(taken@) == solved_values(line.take(i as int)),
        decreases cells.len() - i,
    {
        let ghost so_far = as_ints(taken@);
        proof {
            assert(line.take(i + 1).drop_last() =~= line.take(i as int));
            assert(line.take(i + 1).last() == cells@[i as int]@);
        }
        if cells[i].numbers.len() == 1 {
            taken.push(cells[i].numbers[0]);
            assert(as_ints(taken@) =~= so_far.push(cells@[i as int]@.numbers[0]));
        }
        i += 1;
    }
    assert(line.take(i as int) =~= line);
    taken
}

/// The largest candidate that is not among `taken`.
fn find_largest_free(numbers: &Vec<usize>, taken: &Vec<usize>) -> (found: Option<usize>)
    ensures
        match found {
            Some(v) => largest_free(as_ints(numbers@), as_ints(taken@)) == Some(v as int),
            None => largest_free(as_ints(numbers@), as_ints(taken@)).is_none(),
        },
{
    let ghost all = as_ints(numbers@);
    let mut j: usize = numbers.len();
    assert(all.take(j as int) =~= all);
    while j > 0
        invariant
            j <= numbers.len(),
            all == as_ints(numbers@),
            largest_free(all, as_ints(taken@)) == largest_free(all.take(j as int), as_ints(taken@)),
        decreases j,
    {
        proof {
            assert(all.take(j as int).drop_last() =~= all.take(j - 1));
            assert(all.take(j as int).last() == numbers@[j - 1] as int);
        }
        j -= 1;
        if !holds(taken, numbers[j]) {
            return Some(numbers[j]);
        }
    }
    None
}

/// The number of peaks among the cells that have one candidate.
fn count_visible(cells: &Vec<Cell>) -> (count: usize)
    ensures
        count as int == visible(heights(cells.deep_view()), cells.len() as int),
        count <= cells.len(),
{
    let ghost h = heights(cells.deep_view());
    let mut count: usize = 0;
    let mut highest: usize = 0;
    let mut i: usize = 0;
    while i < cells.len()
        invariant
            i <= cells.len(),
            h == heights(cells.deep_view()),
            count <= i,
            count as int == visible(h, i as int),
            highest as int == tallest(h, i as int),
        decreases cells.len() - i,
    {
        assert(h[i as int] == if cells@[i as int]@.solved() {
            cells@[i as int]@.numbers[0]
        } else {
            0
        });
        if cells[i].numbers.len() == 1 {
            let height = cells[i].numbers[0];
            if height > highest {
                highest = height;
                count += 1;
            }
        }
        i += 1;
    }
    count
}

/// A pessimistic estimate of how many buildings the line shows. Going over
/// the cells from the clue's side, each cell that is still open takes the
/// largest of its candidates that no cell has taken before, and that value
/// leaves the other cells. Then the peaks are counted. A cell that is left
/// with several candidates, because all of them were taken, shows nothing.
pub fn get_worst_case_min_number_of_skyscrapers(cells: &Vec<Cell>) -> (count: usize)
    ensures
        count as int == worst_case_visible(cells.deep_view()),
        count <= cells.len(),
{
    let ghost line = cells.deep_view();
    let mut temp_cells = clone_line(cells);
    let mut solved_nums = committed_numbers(&temp_cells);
    let mut i: usize = 0;
    while i < temp_cells.len()
        invariant
            i <= temp_cells.len(),
            temp_cells.len() == line.len(),
            line == cells.deep_view(),
            (temp_cells.deep_view(), as_ints(solved_nums@)) == commit_scan(line, i as int),
        decreases temp_cells.len() - i,
    {
        let ghost now = temp_cells.deep_view();
        let ghost taken = as_ints(solved_nums@);
        assert(now[i as int].numbers == as_ints(temp_cells@[i as int].numbers@));
        if temp_cells[i].numbers.len() > 1 {
            match find_largest_free(&temp_cells[i].numbers, &solved_nums) {
                Some(biggest_num) => {
                    place_number(&mut temp_cells, i, biggest_num);
                    solved_nums.push(biggest_num);
                    assert(as_ints(solved_nums@) =~= taken.push(biggest_num as int));
                },
                None => {},
            }
        }
        i += 1;
    }
    count_visible(&temp_cells)
}

/// The scan changes nothing in a line whose cells all have one candidate.
pub proof fn lemma_scan_of_solved_line(line: Line, upto: int)
    requires
        forall|i: int| 0 <= i < line.len() ==> (#[trigger] line[i]).solved(),
        0 <= upto <= line.len(),
    ensures
        commit_scan(line, upto).0 == line,
    decreases upto,
{
    if upto > 0 {
        lemma_scan_of_solved_line(line, upto - 1);
    }
}

/// Of heights that rise from a first one above 0, every one is a peak.
pub proof fn lemma_rising_heights(h: Seq<int>, upto: int)
    requires
        0 <= upto <= h.len(),
        forall|i: int, j: int| 0 <= i < j < h.len() ==> h[i] < h[j],
        h.len() > 0 ==> h[0] > 0,
    ensures
        visible(h, upto) == upto,
        upto > 0 ==> tallest(h, upto) == h[upto - 1],
    decreases upto,
{
    if upto > 0 {
        lemma_rising_heights(h, upto - 1);
    }
}

/// Of heights that fall from a first one above 0, only the first is a peak.
pub proof fn lemma_falling_heights(h: Seq<int>, upto: int)
    requires
        1 <= upto <= h.len(),
        forall|i: int, j: int| 0 <= i < j < h.len() ==> h[i] > h[j],
        h[0] > 0,
    ensures
        visible(h, upto) == 1,
        tallest(h, upto) == h[0],
    decreases upto,
{
    if upto > 1 {
        lemma_falling_heights(h, upto - 1);
    } else {
        assert(visible(h, 0) == 0 && tallest(h, 0) == 0);
    }
}

/// A valid line whose cells all have one candidate, each larger than the one
/// before, shows every building.
pub proof fn lemma_rising_line_shows_all(line: Line)
    requires
        line_valid(line),
        forall|i: int| 0 <= i < line.len() ==> (#[trigger] line[i]).solved(),
        forall|i: int, j: int|
            0 <= i < j < line.len() ==> line[i].numbers[0] < line[j].numbers[0],
    ensures
        worst_case_visible(line) == line.len(),
{
    lemma_scan_of_solved_line(line, line.len() as int);
    assert(line[0].valid());
    lemma_rising_heights(heights(line), line.len() as int);
}

/// A valid line whose cells all have one candidate, each smaller than the one
/// before, shows one building.
pub proof fn lemma_falling_line_shows_one(line: Line)
    requires
        line_valid(line),
        forall|i: int| 0 <= i < line.len() ==> (#[trigger] line[i]).solved(),
        forall|i: int, j: int|
            0 <= i < j < line.len() ==> line[i].numbers[0] > line[j].numbers[0],
    ensures
        worst_case_visible(line) == 1,
{
    lemma_scan_of_solved_line(line, line.len() as int);
    assert(line[0].valid());
    lemma_falling_heights(heights(line), line.len() as int);
}

} // verus!
