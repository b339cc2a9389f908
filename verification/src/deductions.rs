//! Deductions from how often each height is still possible in a line.

use vstd::prelude::*;
use crate::cell::{
    all_heights, as_ints, ascending, holds, lemma_filter_ascending, within, Cell, CellModel,
};
use crate::line::{lemma_cells_of_line, line_valid, Line};

verus! {

/// How many of the first `upto` cells hold `v`.
pub open spec fn holders(line: Line, v: int, upto: int) -> int
    decreases upto,
{
    if upto <= 0 {
        0
    } else if line[upto - 1].contains(v) {
        holders(line, v, upto - 1) + 1
    } else {
        holders(line, v, upto - 1)
    }
}

/// How many cells of the line hold `v`.
pub open spec fn occurrences(line: Line, v: int) -> int {
    holders(line, v, line.len() as int)
}

/// The test "exactly `f` cells of the line hold it".
pub open spec fn seen_times(line: Line, f: int) -> spec_fn(int) -> bool {
    |v: int| occurrences(line, v) == f
}

/// Each open cell that holds a height which no other cell of the line holds
/// is cut down to that height; to the smallest, where it holds several.
pub open spec fn unique_number_left(line: Line) -> Line {
    Seq::new(
        line.len(),
        |i: int|
            {
                let lone = line[i].numbers.filter(seen_times(line, 1));
                if line[i].numbers.len() > 1 && lone.len() > 0 {
                    line[i].restrict_to(lone[0])
                } else {
                    line[i]
                }
            },
    )
}

/// The heights that exactly `f` cells of the line hold, in ascending order.
pub open spec fn values_seen(line: Line, f: int) -> Seq<int> {
    all_heights(line.len()).filter(seen_times(line, f))
}

/// Every cell that holds all of `group` is cut down to `group`.
pub open spec fn narrow_to(line: Line, group: Seq<int>) -> Line {
    Seq::new(
        line.len(),
        |i: int|
            if line[i].contains_all(group) {
                line[i].restrict_to_all(group)
            } else {
                line[i]
            },
    )
}

/// The line after the groups of the counts `1..=upto` have been dealt with,
/// smallest count first. The group of a count `f` is made of the heights that
/// exactly `f` cells of `line` hold. Where it has exactly `f` members, those
/// `f` cells are the only place for them, and every cell that still holds the
/// whole group is cut down to it.
pub open spec fn exclusive_upto(line: Line, upto: int) -> Line
    decreases upto,
{
    if upto <= 0 {
        line
    } else {
        let before = exclusive_upto(line, upto - 1);
        let group = values_seen(line, upto);
        if group.len() == upto {
            narrow_to(before, group)
        } else {
            before
        }
    }
}

/// The line after the groups of all counts have been dealt with.
pub open spec fn exclusive_numbers(line: Line) -> Line {
    exclusive_upto(line, line.len() as int)
}

/// The heights that a given number of cells hold are heights of the puzzle in
/// ascending order, no more than the puzzle has.
pub proof fn lemma_values_seen(line: Line, f: int)
    ensures
        ascending(values_seen(line, f)),
        within(values_seen(line, f), line.len()),
        values_seen(line, f).len() <= line.len(),
{
    let all = all_heights(line.len());
    let group = values_seen(line, f);
    lemma_filter_ascending(all, seen_times(line, f));
    assert forall|i: int| 0 <= i < group.len() implies 1 <= #[trigger] group[i] <= line.len() by {
        let j = choose|j: int| 0 <= j < all.len() && all[j] == group[i];
    }
}

/// Whether the heights that exactly `f` cells of the line hold are `f`, and
/// the cell holds them all.
pub open spec fn fitting(line: Line, cell: CellModel, f: int) -> bool {
    values_seen(line, f).len() == f && cell.contains_all(values_seen(line, f))
}

/// The smallest count in `1..=upto` whose group fits the cell, and 0 where
/// none fits.
pub open spec fn first_fitting(line: Line, cell: CellModel, upto: int) -> int
    decreases upto,
{
    if upto <= 0 {
        0
    } else if first_fitting(line, cell, upto - 1) > 0 {
        first_fitting(line, cell, upto - 1)
    } else if fitting(line, cell, upto) {
        upto
    } else {
        0
    }
}

/// Cell by cell: after the groups of the counts `1..=upto` have been dealt
/// with, a cell holds the group of the smallest count that fits it, and is as
/// it was where none fits.
pub proof fn lemma_exclusive_cell(line: Line, upto: int, i: int)
    requires
        line_valid(line),
        0 <= upto <= line.len(),
        0 <= i < line.len(),
    ensures
        exclusive_upto(line, upto).len() == line.len(),
        0 <= first_fitting(line, line[i], upto) <= upto,
        first_fitting(line, line[i], upto) == 0 ==> exclusive_upto(line, upto)[i] == line[i],
        first_fitting(line, line[i], upto) > 0 ==> exclusive_upto(line, upto)[i] == (CellModel {
            n: line[i].n,
            numbers: values_seen(line, first_fitting(line, line[i], upto)),
        }),
    decreases upto,
{
    if upto > 0 {
        lemma_exclusive_cell(line, upto - 1, i);
        let before = exclusive_upto(line, upto - 1);
        let earlier = first_fitting(line, line[i], upto - 1);
        let group = values_seen(line, upto);
        if group.len() == upto {
            if earlier > 0 {
                let held = values_seen(line, earlier);
                if held.contains(group[0]) {
                    let j = choose|j: int| 0 <= j < held.len() && held[j] == group[0];
                    all_heights(line.len()).lemma_filter_pred(seen_times(line, earlier), j);
                    all_heights(line.len()).lemma_filter_pred(seen_times(line, upto), 0);
                }
                assert(!before[i].contains_all(group));
            } else {
                assert(line[i].n == line.len());
            }
        }
    }
}

/// For each height, the number of cells that hold it: entry `v - 1` is for `v`.
fn count_occurrences(cells: &Vec<Cell>) -> (number_count: Vec<usize>)
    ensures
        number_count.len() == cells.len(),
        forall|v0: int|
            0 <= v0 < cells.len() ==> #[trigger] number_count[v0] as int == occurrences(
                cells.deep_view(),
                v0 + 1,
            ),
{
    let ghost line = cells.deep_view();
    let n = cells.len();
    let mut number_count: Vec<usize> = Vec::new();
    let mut v0: usize = 0;
    while v0 < n
        invariant
            v0 <= n,
            n == cells.len(),
            line == cells.deep_view(),
            number_count.len() == v0,
            forall|w: int|
                0 <= w < v0 ==> #[trigger] number_count[w] as int == occurrences(line, w + 1),
        decreases n - v0,
    {
        let mut count: usize = 0;
        let mut j: usize = 0;
        while j < n
            invariant
                j <= n,
                v0 < n,
                n == cells.len(),
                line == cells.deep_view(),
                count <= j,
                count as int == holders(line, v0 + 1, j as int),
            decreases n - j,
        {
            assert(line[j as int] == cells@[j as int]@);
            if holds(&cells[j].numbers, v0 + 1) {
                count += 1;
            }
            j += 1;
        }
        number_count.push(count);
        v0 += 1;
    }
    number_count
}

/// Cuts each open cell that holds a height which no other cell of the line
/// holds down to that height; to the smallest, where it holds several.
pub fn check_unique_number_left(cells: &mut Vec<Cell>)
    requires
        line_valid(old(cells).deep_view()),
    ensures
        final(cells).deep_view() == unique_number_left(old(cells).deep_view()),
        line_valid(final(cells).deep_view()),
        final(cells).len() == old(cells).len(),
{
    let ghost line = cells.deep_view();
    let ghost once = seen_times(line, 1);
    let number_count = count_occurrences(cells);
    proof {
        lemma_cells_of_line(*cells);
    }
    let mut i: usize = 0;
    while i < cells.len()
        invariant
            i <= cells.len(),
            cells.len() == line.len(),
            line_valid(line),
            once == seen_times(line, 1),
            number_count.len() == line.len(),
            forall|w: int|
                0 <= w < line.len() ==> #[trigger] number_count[w] as int == occurrences(
                    line,
                    w + 1,
                ),
            forall|j: int| 0 <= j < i ==> cells@[j]@ == unique_number_left(line)[j],
            forall|j: int| i <= j < cells.len() ==> cells@[j]@ == line[j],
            forall|j: int|
                0 <= j < cells.len() ==> cells@[j]@.valid() && cells@[j]@.n == line.len(),
        decreases cells.len() - i,
    {
        let ghost numbers = line[i as int].numbers;
        assert(line[i as int].valid());
        assert(numbers == as_ints(cells@[i as int].numbers@));
        if cells[i].numbers.len() > 1 {
            let mut t: usize = 0;
            let mut found: Option<usize> = None;
            assert(numbers.take(0) =~= Seq::empty());
            reveal_with_fuel(Seq::filter, 1);
            while t < cells[i].numbers.len() && found.is_none()
                invariant
                    i < cells.len(),
                    cells.len() == line.len(),
                    t <= cells@[i as int].numbers@.len(),
                    numbers == as_ints(cells@[i as int].numbers@),
                    numbers == line[i as int].numbers,
                    line[i as int].valid(),
                    line[i as int].n == line.len(),
                    once == seen_times(line, 1),
                    number_count.len() == line.len(),
                    forall|w: int|
                        0 <= w < line.len() ==> #[trigger] number_count[w] as int == occurrences(
                            line,
                            w + 1,
                        ),
                    match found {
                        Some(v) => t >= 1 && v == cells@[i as int].numbers@[t - 1] && numbers.take(
                            t as int,
                        ).filter(once) == seq![v as int],
                        None => numbers.take(t as int).filter(once).len() == 0,
                    },
                decreases cells@[i as int].numbers@.len() - t + if found.is_none() {
                    1int
                } else {
                    0int
                },
            {
                let v = cells[i].numbers[t];
                proof {
                    let before = numbers.take(t as int);
                    assert(numbers.take(t + 1) =~= before.push(v as int));
                    before.lemma_filter_push(v as int, once);
                    assert(1 <= numbers[t as int] <= line.len());
                    assert(number_count[v - 1] as int == occurrences(line, (v - 1) + 1));
                    assert(before.filter(once) =~= Seq::empty());
                    assert(Seq::<int>::empty().push(v as int) =~= seq![v as int]);
                }
                if number_count[v - 1] == 1 {
                    found = Some(v);
                }
                t += 1;
            }
            proof {
                let head = numbers.take(t as int);
                let tail = numbers.skip(t as int);
                assert(head + tail =~= numbers);
                Seq::filter_distributes_over_add(head, tail, once);
                if found.is_none() {
                    assert(head =~= numbers);
                }
            }
            match found {
                Some(v) => {
                    assert(numbers.filter(once)[0] == v as int);
                    cells[i].replace_cell_with_number(v);
                    assert(1 <= numbers[t - 1] <= line.len());
                },
                None => {},
            }
        }
        i += 1;
    }
    assert forall|j: int| 0 <= j < cells.len() implies cells.deep_view()[j] == unique_number_left(
        line,
    )[j] && cells.deep_view()[j].valid() && cells.deep_view()[j].n == line.len() by {
        assert(cells@[j]@ == unique_number_left(line)[j]);
    }
    assert(cells.deep_view() =~= unique_number_left(line));
}

/// The heights that exactly `freq` cells hold, in ascending order.
fn values_with_count(number_count: &Vec<usize>, freq: usize, Ghost(line): Ghost<Line>) -> (numbers:
    Vec<usize>)
    requires
        number_count.len() == line.len(),
        forall|w: int|
            0 <= w < line.len() ==> #[trigger] number_count[w] as int == occurrences(line, w + 1),
    ensures
        as_ints(numbers@) == values_seen(line, freq as int),
{
    let ghost all = all_heights(line.len());
    let ghost p = seen_times(line, freq as int);
    let mut numbers: Vec<usize> = Vec::new();
    let mut v0: usize = 0;
    reveal_with_fuel(Seq::filter, 1);
    assert(all.take(0) =~= Seq::empty());
    assert(as_ints(numbers@) =~= Seq::empty());
    while v0 < number_count.len()
        invariant
            v0 <= number_count.len(),
            number_count.len() == line.len(),
            all == all_heights(line.len()),
            p == seen_times(line, freq as int),
            forall|w: int|
                0 <= w < line.len() ==> #[trigger] number_count[w] as int == occurrences(
                    line,
                    w + 1,
                ),
            as_ints(numbers@) == all.take(v0 as int).filter(p),
        decreases number_count.len() - v0,
    {
        let ghost so_far = as_ints(numbers@);
        proof {
            let before = all.take(v0 as int);
            assert(all.take(v0 + 1) =~= before.push(v0 + 1));
            before.lemma_filter_push(v0 + 1, p);
        }
        if number_count[v0] == freq {
            numbers.push(v0 + 1);
            assert(as_ints(numbers@) =~= so_far.push(v0 + 1));
        }
        v0 += 1;
    }
    assert(all.take(v0 as int) =~= all);
    numbers
}

/// Cuts every cell that holds all of `numbers` down to `numbers`.
fn narrow_cells(cells: &mut Vec<Cell>, numbers: &Vec<usize>)
    requires
        line_valid(old(cells).deep_view()),
        numbers.len() >= 1,
        ascending(as_ints(numbers@)),
        within(as_ints(numbers@), old(cells).len() as nat),
    ensures
        final(cells).deep_view() == narrow_to(old(cells).deep_view(), as_ints(numbers@)),
        line_valid(final(cells).deep_view()),
        final(cells).len() == old(cells).len(),
{
    let ghost line = cells.deep_view();
    let ghost group = as_ints(numbers@);
    proof {
        lemma_cells_of_line(*cells);
    }
    let mut j: usize = 0;
    while j < cells.len()
        invariant
            j <= cells.len(),
            cells.len() == line.len(),
            line_valid(line),
            group == as_ints(numbers@),
            numbers.len() >= 1,
            ascending(group),
            within(group, line.len()),
            forall|t: int| 0 <= t < j ==> cells@[t]@ == narrow_to(line, group)[t],
            forall|t: int| j <= t < cells.len() ==> cells@[t]@ == line[t],
            forall|t: int|
                0 <= t < cells.len() ==> cells@[t]@.valid() && cells@[t]@.n == line.len(),
        decreases cells.len() - j,
    {
        if cells[j].contains_numbers(numbers) {
            cells[j].replace_cell_with_vec(numbers);
        }
        j += 1;
    }
    assert forall|t: int| 0 <= t < cells.len() implies cells.deep_view()[t] == narrow_to(
        line,
        group,
    )[t] && cells.deep_view()[t].valid() && cells.deep_view()[t].n == line.len() by {
        assert(cells@[t]@ == narrow_to(line, group)[t]);
    }
    assert(cells.deep_view() =~= narrow_to(line, group));
}

/// Looks for groups of heights that have room in as many cells as the group
/// has members. For each count `f` from 1 up, the heights that exactly `f`
/// cells of the line hold make a group. Where the group has `f` members,
/// every cell that still holds all of them is cut down to the group.
pub fn check_exclusive_numbers(cells: &mut Vec<Cell>)
    requires
        line_valid(old(cells).deep_view()),
    ensures
        final(cells).deep_view() == exclusive_numbers(old(cells).deep_view()),
        line_valid(final(cells).deep_view()),
        final(cells).len() == old(cells).len(),
{
    let ghost line = cells.deep_view();
    let number_count = count_occurrences(cells);
    let n = cells.len();
    let mut f0: usize = 0;
    while f0 < n
        invariant
            f0 <= n,
            n == line.len(),
            cells.len() == line.len(),
            line_valid(line),
            line_valid(cells.deep_view()),
            number_count.len() == line.len(),
            forall|w: int|
                0 <= w < line.len() ==> #[trigger] number_count[w] as int == occurrences(
                    line,
                    w + 1,
                ),
            cells.deep_view() == exclusive_upto(line, f0 as int),
        decreases n - f0,
    {
        let freq = f0 + 1;
        let numbers = values_with_count(&number_count, freq, Ghost(line));
        proof {
            lemma_values_seen(line, freq as int);
        }
        if numbers.len() == freq {
            narrow_cells(cells, &numbers);
        }
        f0 += 1;
    }
}

} // verus!
