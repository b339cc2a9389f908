//! What a clue allows to strike from its line.
//!
//! A clue says how many buildings are seen from its side. A line is given
//! nearest the clue first, and `n` is its length, the tallest height.

use vstd::prelude::*;
use crate::cell::{as_ints, holds, lemma_remove, Cell, CellModel};
use crate::line::{
    clone_line, first_holder, first_holder_from, lemma_cells_of_line, line_valid, place,
    place_number, Line,
};
use crate::visibility::{get_worst_case_min_number_of_skyscrapers, worst_case_visible};

verus! {

/// The values `lo, lo + 1, .., hi - 1`.
pub open spec fn run_up(lo: int, hi: int) -> Seq<int> {
    Seq::new(
        if hi > lo {
            (hi - lo) as nat
        } else {
            0
        },
        |j: int| lo + j,
    )
}

/// The `count` values `hi, hi - 1, ..`.
pub open spec fn run_down(hi: int, count: int) -> Seq<int> {
    Seq::new(
        if count > 0 {
            count as nat
        } else {
            0
        },
        |j: int| hi - j,
    )
}

/// Clue 1: the nearest building hides all others, so it is the tallest.
pub open spec fn clue_one(line: Line) -> Line {
    line.update(0, line[0].restrict_to(line.len() as int))
}

/// Clue `n`: every building is seen, so the heights rise by one from 1.
pub open spec fn clue_all(line: Line) -> Line {
    Seq::new(line.len(), |i: int| line[i].restrict_to(i + 1))
}

/// Clue 2, first part: the nearest building is not the tallest, and the one
/// behind it is not the second tallest.
pub open spec fn clue_two_simple(line: Line) -> Line {
    let n = line.len() as int;
    line.update(0, line[0].remove(n)).update(1, line[1].remove(n - 1))
}

/// Clue 2, second part, for the cell at position `i`. Here `top` is the largest
/// candidate of the nearest cell and `pos` the first position that can hold
/// the tallest building.
///
/// The tallest building stands no further than position `top`. From position
/// 1 to `pos` no building is as tall as `top` or taller, short of the tallest.
/// The nearest building is at least as tall as `pos`, if `pos` is beyond 1.
pub open spec fn reach_cell(c: CellModel, i: int, n: int, top: int, pos: int) -> CellModel {
    let c1 = if i > top {
        c.remove(n)
    } else {
        c
    };
    let c2 = if 1 <= i <= pos {
        c1.remove_all(run_up(top, n))
    } else {
        c1
    };
    if i == 0 && pos > 1 {
        c2.remove_all(run_up(1, pos))
    } else {
        c2
    }
}

/// Clue 2, second part. Where no cell can hold the tallest building, `pos` is
/// the length of the line.
pub open spec fn clue_two_reach(line: Line) -> Line {
    let n = line.len() as int;
    let top = line[0].largest();
    let pos = first_holder(line, n);
    Seq::new(line.len(), |i: int| reach_cell(line[i], i, n, top, pos))
}

/// Clue 2: both parts, one after the other.
pub open spec fn clue_two(line: Line) -> Line {
    clue_two_reach(clue_two_simple(line))
}

/// A clue `k` between 2 and `n`, first part: the cell at position `i` loses
/// the `k - 1 - i` largest heights, the largest first.
pub open spec fn clue_mid_simple(line: Line, k: int) -> Line {
    let n = line.len() as int;
    Seq::new(
        line.len(),
        |i: int|
            if i < k - 1 {
                line[i].remove_all(run_down(n, k - 1 - i))
            } else {
                line[i]
            },
    )
}

/// A clue `k` between 2 and `n`, second part: an open cell loses the tallest
/// height where the line with the tallest building put there shows more than
/// `k` buildings even by the pessimistic estimate.
pub open spec fn clue_mid_reach(line: Line, k: int) -> Line {
    let n = line.len() as int;
    Seq::new(
        line.len(),
        |i: int|
            if line[i].contains(n) && line[i].numbers.len() > 1 && worst_case_visible(
                place(line, i, n),
            ) > k {
                line[i].remove(n)
            } else {
                line[i]
            },
    )
}

/// A clue `k` between 2 and `n`: both parts, one after the other.
pub open spec fn clue_mid(line: Line, k: int) -> Line {
    clue_mid_reach(clue_mid_simple(line, k), k)
}

/// The line after the deductions of clue `k`. A line of fewer than three
/// cells is left alone, and so is any line under a clue that is not in `1..=n`.
pub open spec fn apply_clue(line: Line, k: int) -> Line {
    let n = line.len() as int;
    if n <= 2 {
        line
    } else if k == 1 {
        clue_one(line)
    } else if k == 2 {
        clue_two(line)
    } else if 2 < k < n {
        clue_mid(line, k)
    } else if k == n {
        clue_all(line)
    } else {
        line
    }
}

/// Taking `v` away a second time changes nothing.
pub proof fn lemma_remove_twice(c: CellModel, v: int)
    ensures
        c.remove(v).remove(v) == c.remove(v),
{
    lemma_remove(c, v);
}

/// Under clue 1 the nearest cell of a line of three or more is left with the
/// tallest height alone, and the other cells are as before.
pub proof fn lemma_clue_one(line: Line)
    requires
        line_valid(line),
        line.len() >= 3,
    ensures
        apply_clue(line, 1).len() == line.len(),
        apply_clue(line, 1)[0].numbers == seq![line.len() as int],
        forall|i: int| 1 <= i < line.len() ==> apply_clue(line, 1)[i] == line[i],
{
}

/// Under clue `n` the cell at position `i` is left with the height `i + 1`
/// alone, in every valid line but one of two cells, which no clue touches.
pub proof fn lemma_clue_all(line: Line)
    requires
        line_valid(line),
        line.len() != 2,
    ensures
        apply_clue(line, line.len() as int).len() == line.len(),
        forall|i: int|
            0 <= i < line.len() ==> (#[trigger] apply_clue(line, line.len() as int)[i]).numbers
                == seq![i + 1],
{
    if line.len() == 1 {
        let only = line[0].numbers;
        assert(line[0].valid());
        if only.len() >= 2 {
            assert(only[0] < only[1]);
        }
        assert(1 <= only[0] <= 1);
        assert(only =~= seq![1int]);
    }
}

/// The vector `lo, lo + 1, .., hi - 1`.
fn numbers_up(lo: usize, hi: usize) -> (v: Vec<usize>)
    ensures
        as_ints(v@) == run_up(lo as int, hi as int),
        v@.len() == if hi > lo { hi - lo } else { 0 },
{
    let mut v: Vec<usize> = Vec::new();
    let mut x: usize = lo;
    while x < hi
        invariant
            lo <= x,
            x <= hi || v@.len() == 0,
            v@.len() == x - lo,
            forall|j: int| 0 <= j < v@.len() ==> v@[j] == lo + j,
        decreases hi - x,
    {
        v.push(x);
        x += 1;
    }
    assert(as_ints(v@) =~= run_up(lo as int, hi as int));
    v
}

/// The vector of the `count` values `hi, hi - 1, ..`.
fn numbers_down(hi: usize, count: usize) -> (v: Vec<usize>)
    requires
        count <= hi,
    ensures
        as_ints(v@) == run_down(hi as int, count as int),
        v@.len() == count,
{
    let mut v: Vec<usize> = Vec::new();
    let mut j: usize = 0;
    while j < count
        invariant
            j <= count <= hi,
            v@.len() == j,
            forall|t: int| 0 <= t < j ==> v@[t] == hi - t,
        decreases count - j,
    {
        v.push(hi - j);
        j += 1;
    }
    assert(as_ints(v@) =~= run_down(hi as int, count as int));
    v
}

/// The first position whose cell holds `v`, or the length of the line.
fn position_of_first(cells: &Vec<Cell>, v: usize) -> (pos: usize)
    ensures
        pos as int == first_holder(cells.deep_view(), v as int),
        pos <= cells.len(),
{
    let ghost line = cells.deep_view();
    let mut pos: usize = 0;
    while pos < cells.len()
        invariant
            pos <= cells.len(),
            line == cells.deep_view(),
            first_holder(line, v as int) == first_holder_from(line, v as int, pos as int),
        decreases cells.len() - pos,
    {
        assert(line[pos as int] == cells@[pos as int]@);
        if holds(&cells[pos].numbers, v) {
            return pos;
        }
        pos += 1;
    }
    pos
}

/// Clue 2, first part: the tallest height leaves the nearest cell and the
/// second tallest leaves the cell behind it.
pub fn check_cell_line_by_rule_2_simple_check(cells: &mut Vec<Cell>)
    requires
        line_valid(old(cells).deep_view()),
        old(cells).len() >= 2,
    ensures
        final(cells).deep_view() == clue_two_simple(old(cells).deep_view()),
        line_valid(final(cells).deep_view()),
        final(cells).len() == old(cells).len(),
{
    let ghost line = cells.deep_view();
    let max_number = cells.len();
    assert(line[0] == cells@[0]@ && line[1] == cells@[1]@);
    assert(line[0].valid() && line[1].valid());
    cells[0].remove_number(max_number);
    cells[1].remove_number(max_number - 1);
    assert forall|j: int| 0 <= j < cells.len() implies cells.deep_view()[j] == clue_two_simple(
        line,
    )[j] && cells.deep_view()[j].valid() && cells.deep_view()[j].n == line.len() by {
        assert(line[j].valid());
        if j >= 2 {
            assert(cells@[j]@ == line[j]);
        }
    }
    assert(cells.deep_view() =~= clue_two_simple(line));
}

/// Clue 2, second part: what follows from how far the nearest cell can see.
/// With `top` the largest candidate of the nearest cell and `pos` the first
/// position that can hold the tallest building: the tallest height leaves the
/// cells beyond position `top`; the heights from `top` up, short of the
/// tallest, leave the cells from position 1 to `pos`; and the heights below
/// `pos` leave the nearest cell, if `pos` is beyond 1.
pub fn check_cell_line_by_rule_2_advanced_check(cells: &mut Vec<Cell>)
    requires
        line_valid(old(cells).deep_view()),
    ensures
        final(cells).deep_view() == clue_two_reach(old(cells).deep_view()),
        line_valid(final(cells).deep_view()),
        final(cells).len() == old(cells).len(),
{
    let ghost line = cells.deep_view();
    let max_number = cells.len();
    assert(line[0] == cells@[0]@ && line[0].valid());
    let first_cell_max_number = cells[0].numbers[cells[0].numbers.len() - 1];
    let position_of_first_max = position_of_first(cells, max_number);
    let numbers_between_maxes = numbers_up(first_cell_max_number, max_number);
    let numbers_to_erase_first_cell = numbers_up(1, position_of_first_max);
    let ghost n = max_number as int;
    let ghost top = first_cell_max_number as int;
    let ghost pos = position_of_first_max as int;
    proof {
        lemma_cells_of_line(*cells);
    }
    let mut i: usize = 0;
    while i < cells.len()
        invariant
            i <= cells.len(),
            cells.len() == line.len(),
            line_valid(line),
            n == line.len(),
            n == max_number,
            top == line[0].largest(),
            top == first_cell_max_number,
            pos == first_holder(line, n),
            pos == position_of_first_max,
            as_ints(numbers_between_maxes@) == run_up(top, n),
            as_ints(numbers_to_erase_first_cell@) == run_up(1, pos),
            forall|j: int| 0 <= j < i ==> cells@[j]@ == reach_cell(line[j], j, n, top, pos),
            forall|j: int| i <= j < cells.len() ==> cells@[j]@ == line[j],
            forall|j: int| 0 <= j < cells.len() ==> cells@[j]@.valid() && cells@[j]@.n == n,
        decreases cells.len() - i,
    {
        assert(line[i as int].valid());
        if i > first_cell_max_number {
            cells[i].remove_number(max_number);
        }
        if 1 <= i && i <= position_of_first_max {
            cells[i].remove_vec(&numbers_between_maxes);
        }
        if i == 0 && position_of_first_max > 1 {
            cells[i].remove_vec(&numbers_to_erase_first_cell);
        }
        i += 1;
    }
    assert forall|j: int| 0 <= j < cells.len() implies cells.deep_view()[j] == clue_two_reach(
        line,
    )[j] by {
        assert(cells@[j]@ == reach_cell(line[j], j, n, top, pos));
    }
    assert(cells.deep_view() =~= clue_two_reach(line));
}

/// Clue 2: both parts, one after the other.
pub fn check_cell_line_by_rule_2_all_checks(cells: &mut Vec<Cell>)
    requires
        line_valid(old(cells).deep_view()),
        old(cells).len() >= 2,
    ensures
        final(cells).deep_view() == clue_two(old(cells).deep_view()),
        line_valid(final(cells).deep_view()),
        final(cells).len() == old(cells).len(),
{
    check_cell_line_by_rule_2_simple_check(cells);
    check_cell_line_by_rule_2_advanced_check(cells);
}

/// A clue between 2 and `n`, first part: the cell at position `i` loses the
/// `rule - 1 - i` largest heights, the largest first.
pub fn check_cell_line_by_rule_mid_simple_check(cells: &mut Vec<Cell>, rule: usize)
    requires
        line_valid(old(cells).deep_view()),
        rule <= old(cells).len(),
    ensures
        final(cells).deep_view() == clue_mid_simple(old(cells).deep_view(), rule as int),
        line_valid(final(cells).deep_view()),
        final(cells).len() == old(cells).len(),
{
    let ghost line = cells.deep_view();
    let max_number = cells.len();
    let ghost n = max_number as int;
    let ghost k = rule as int;
    proof {
        lemma_cells_of_line(*cells);
    }
    let mut index: usize = 0;
    if rule >= 2 {
        let mut numbers_to_erase = numbers_down(max_number, rule - 1);
        while numbers_to_erase.len() > 0
            invariant
                cells.len() == line.len(),
                line_valid(line),
                n == line.len(),
                k == rule,
                2 <= k <= n,
                index + numbers_to_erase.len() == k - 1,
                as_ints(numbers_to_erase@) == run_down(n, k - 1 - index),
                forall|j: int|
                    0 <= j < index ==> cells@[j]@ == line[j].remove_all(run_down(n, k - 1 - j)),
                forall|j: int| index <= j < cells.len() ==> cells@[j]@ == line[j],
                forall|j: int| 0 <= j < cells.len() ==> cells@[j]@.valid() && cells@[j]@.n == n,
            decreases numbers_to_erase.len(),
        {
            assert(line[index as int].valid());
            let ghost all = as_ints(numbers_to_erase@);
            cells[index].remove_vec(&numbers_to_erase);
            numbers_to_erase.pop();
            index += 1;
            assert(as_ints(numbers_to_erase@) =~= all.drop_last());
            assert(as_ints(numbers_to_erase@) =~= run_down(n, k - 1 - index));
        }
    }
    assert forall|j: int| 0 <= j < cells.len() implies cells.deep_view()[j] == clue_mid_simple(
        line,
        k,
    )[j] && cells.deep_view()[j].valid() && cells.deep_view()[j].n == line.len() by {
        assert(line[j].valid());
        if j < k - 1 {
            assert(cells@[j]@ == line[j].remove_all(run_down(n, k - 1 - j)));
        } else {
            assert(cells@[j]@ == line[j]);
        }
    }
    assert(cells.deep_view() =~= clue_mid_simple(line, k));
}

/// A clue between 2 and `n`, second part: each open cell that can hold the
/// tallest building is tried with it. Where the line then shows more than
/// `rule` buildings even by the pessimistic estimate, the tallest height
/// leaves the cell.
pub fn check_cell_line_by_rule_mid_atopo_max_num(cells: &mut Vec<Cell>, rule: usize)
    requires
        line_valid(old(cells).deep_view()),
    ensures
        final(cells).deep_view() == clue_mid_reach(old(cells).deep_view(), rule as int),
        line_valid(final(cells).deep_view()),
        final(cells).len() == old(cells).len(),
{
    let ghost line = cells.deep_view();
    let max_number = cells.len();
    let ghost n = max_number as int;
    let ghost k = rule as int;
    let ghost goal = clue_mid_reach(line, k);
    proof {
        lemma_cells_of_line(*cells);
    }
    let mut i: usize = cells.len();
    while i > 0
        invariant
            i <= cells.len(),
            cells.len() == line.len(),
            line_valid(line),
            n == line.len(),
            n == max_number,
            k == rule,
            goal == clue_mid_reach(line, k),
            forall|j: int| 0 <= j < i ==> cells@[j]@ == line[j],
            forall|j: int| i <= j < cells.len() ==> cells@[j]@ == goal[j],
            forall|j: int| 0 <= j < cells.len() ==> cells@[j]@.valid() && cells@[j]@.n == n,
        decreases i,
    {
        i -= 1;
        assert(line[i as int].valid());
        if holds(&cells[i].numbers, max_number) && cells[i].numbers.len() > 1 {
            let mut temp_cells = clone_line(cells);
            place_number(&mut temp_cells, i, max_number);
            proof {
                let now = cells.deep_view();
                assert forall|j: int| 0 <= j < line.len() implies place(now, i as int, n)[j]
                    == place(line, i as int, n)[j] by {
                    assert(now[j] == cells@[j]@);
                    assert(line[j].valid());
                    if j > i {
                        lemma_remove_twice(line[j], n);
                        assert(cells@[j]@ == goal[j]);
                        assert(now[j].remove(n) == line[j].remove(n));
                    } else {
                        assert(cells@[j]@ == line[j]);
                    }
                }
                assert(place(now, i as int, n) =~= place(line, i as int, n));
            }
            let max_skyscrapers = get_worst_case_min_number_of_skyscrapers(&temp_cells);
            if max_skyscrapers > rule {
                cells[i].remove_number(max_number);
            }
        }
    }
    assert forall|j: int| 0 <= j < cells.len() implies cells.deep_view()[j] == goal[j] by {
        assert(cells@[j]@ == goal[j]);
    }
    assert(cells.deep_view() =~= goal);
}

/// A clue between 2 and `n`: both parts, one after the other.
pub fn check_cell_line_by_rule_mid_all_checks(cells: &mut Vec<Cell>, rule: usize)
    requires
        line_valid(old(cells).deep_view()),
        rule <= old(cells).len(),
    ensures
        final(cells).deep_view() == clue_mid(old(cells).deep_view(), rule as int),
        line_valid(final(cells).deep_view()),
        final(cells).len() == old(cells).len(),
{
    check_cell_line_by_rule_mid_simple_check(cells, rule);
    check_cell_line_by_rule_mid_atopo_max_num(cells, rule);
}

/// Strikes from the line what clue `rule` allows. A line of fewer than three
/// cells is left alone, and so is any line under a clue that is not in `1..=n`.
pub fn check_cell_line_by_rule(rule: usize, cells: &mut Vec<Cell>)
    requires
        line_valid(old(cells).deep_view()),
    ensures
        final(cells).deep_view() == apply_clue(old(cells).deep_view(), rule as int),
        line_valid(final(cells).deep_view()),
        final(cells).len() == old(cells).len(),
{
    let ghost line = cells.deep_view();
    let max_number = cells.len();
    if max_number <= 2 {
        return ;
    }
    if rule == 1 {
        assert(line[0] == cells@[0]@);
        cells[0].replace_cell_with_number(max_number);
        assert forall|j: int| 0 <= j < cells.len() implies cells.deep_view()[j] == clue_one(
            line,
        )[j] && cells.deep_view()[j].valid() && cells.deep_view()[j].n == line.len() by {
            assert(line[j].valid());
            assert(cells.deep_view()[j] == cells@[j]@);
        }
        assert(cells.deep_view() =~= clue_one(line));
    } else if rule == 2 {
        check_cell_line_by_rule_2_all_checks(cells);
    } else if rule > 2 && rule < max_number {
        check_cell_line_by_rule_mid_all_checks(cells, rule);
    } else if rule == max_number {
        let mut i: usize = 0;
        while i < max_number
            invariant
                i <= max_number,
                max_number == line.len(),
                cells.len() == line.len(),
                line_valid(line),
                forall|j: int| 0 <= j < i ==> cells@[j]@ == line[j].restrict_to(j + 1),
                forall|j: int| i <= j < cells.len() ==> cells@[j]@ == line[j],
            decreases max_number - i,
        {
            cells[i].replace_cell_with_number(i + 1);
            i += 1;
        }
        assert forall|j: int| 0 <= j < cells.len() implies cells.deep_view()[j] == clue_all(
            line,
        )[j] && cells.deep_view()[j].valid() && cells.deep_view()[j].n == line.len() by {
            assert(line[j].valid());
            assert(cells@[j]@ == line[j].restrict_to(j + 1));
        }
        assert(cells.deep_view() =~= clue_all(line));
    }
}

} // verus!
