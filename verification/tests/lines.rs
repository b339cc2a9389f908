use skyscrapers::cell::Cell;
use skyscrapers::clues::{
    check_cell_line_by_rule, check_cell_line_by_rule_2_advanced_check,
    check_cell_line_by_rule_2_all_checks, check_cell_line_by_rule_2_simple_check,
    check_cell_line_by_rule_mid_all_checks, check_cell_line_by_rule_mid_atopo_max_num,
    check_cell_line_by_rule_mid_simple_check,
};
use skyscrapers::deductions::{check_exclusive_numbers, check_unique_number_left};
use skyscrapers::line::{clone_line, is_valid_line, place_number};
use skyscrapers::visibility::get_worst_case_min_number_of_skyscrapers;

fn line(n: usize, cells: Vec<Vec<usize>>) -> Vec<Cell> {
    cells.into_iter().map(|numbers| Cell::new_cell_fixed(n, numbers)).collect()
}

fn open_line(n: usize) -> Vec<Cell> {
    (0..n).map(|_| Cell::new_cell(n)).collect()
}

#[test]
fn clone_line_copies_every_cell() {
    let cells = line(3, vec![vec![1, 2], vec![3], vec![1, 2, 3]]);
    assert_eq!(clone_line(&cells), cells);
}

#[test]
fn place_number_cuts_one_cell_and_clears_the_others() {
    let mut cells = line(4, vec![vec![1, 4], vec![1, 2, 3, 4], vec![4], vec![2, 4]]);
    place_number(&mut cells, 1, 4);
    assert_eq!(cells, line(4, vec![vec![1], vec![4], vec![4], vec![2]]));
}

#[test]
fn clue_one_sets_the_nearest_cell_to_the_tallest() {
    for n in 3..8 {
        let mut cells = open_line(n);
        cells[1].remove_number(2);
        cells[0].replace_cell_with_number(1);
        let mut expected = clone_line(&cells);
        expected[0] = Cell::new_cell_fixed(n, vec![n]);
        check_cell_line_by_rule(1, &mut cells);
        assert_eq!(cells, expected);
    }
}

#[test]
fn clue_n_settles_every_cell() {
    for n in 3..8 {
        let mut cells = open_line(n);
        check_cell_line_by_rule(n, &mut cells);
        let expected: Vec<Cell> = (0..n).map(|i| Cell::new_cell_fixed(n, vec![i + 1])).collect();
        assert_eq!(cells, expected);
    }
    let mut narrowed = line(3, vec![vec![3], vec![1, 3], vec![1, 2]]);
    check_cell_line_by_rule(3, &mut narrowed);
    assert_eq!(narrowed, line(3, vec![vec![1], vec![2], vec![3]]));
}

#[test]
fn clue_n_on_a_line_of_one() {
    let mut cells = open_line(1);
    check_cell_line_by_rule(1, &mut cells);
    assert_eq!(cells, line(1, vec![vec![1]]));
}

#[test]
fn no_clue_narrows_a_line_of_two() {
    for rule in 0..4 {
        let mut cells = open_line(2);
        check_cell_line_by_rule(rule, &mut cells);
        assert_eq!(cells, open_line(2));
    }
}

#[test]
fn a_clue_that_is_none_of_the_puzzle_changes_nothing() {
    let mut cells = open_line(5);
    check_cell_line_by_rule(0, &mut cells);
    assert_eq!(cells, open_line(5));
    check_cell_line_by_rule(6, &mut cells);
    assert_eq!(cells, open_line(5));
}

#[test]
fn clue_two_first_part() {
    let mut cells = open_line(4);
    check_cell_line_by_rule_2_simple_check(&mut cells);
    assert_eq!(
        cells,
        line(4, vec![vec![1, 2, 3], vec![1, 2, 4], vec![1, 2, 3, 4], vec![1, 2, 3, 4]])
    );
    let mut settled = line(3, vec![vec![3], vec![2], vec![1]]);
    check_cell_line_by_rule_2_simple_check(&mut settled);
    assert_eq!(settled, line(3, vec![vec![3], vec![2], vec![1]]));
}

#[test]
fn clue_two_second_part() {
    // The nearest cell reaches 3 at most, so the tallest stands at position 3
    // at the latest, and nothing between 3 and 6 stands before the tallest.
    let mut cells = line(
        6,
        vec![
            vec![1, 2, 3],
            vec![1, 2, 3, 4, 5],
            vec![1, 2, 3, 4, 5, 6],
            vec![1, 2, 3, 4, 5, 6],
            vec![1, 2, 3, 4, 5, 6],
            vec![1, 2, 3, 4, 5, 6],
        ],
    );
    check_cell_line_by_rule_2_advanced_check(&mut cells);
    assert_eq!(
        cells,
        line(
            6,
            vec![
                vec![2, 3],
                vec![1, 2],
                vec![1, 2, 6],
                vec![1, 2, 3, 4, 5, 6],
                vec![1, 2, 3, 4, 5],
                vec![1, 2, 3, 4, 5],
            ],
        )
    );
}

#[test]
fn clue_two_where_no_cell_can_hold_the_tallest() {
    let mut cells = line(3, vec![vec![1, 2], vec![1, 2], vec![1, 2]]);
    check_cell_line_by_rule_2_all_checks(&mut cells);
    assert_eq!(cells, line(3, vec![vec![2], vec![1], vec![1]]));
}

#[test]
fn clue_two_on_a_short_line_through_the_parts() {
    let mut cells = open_line(2);
    check_cell_line_by_rule_2_all_checks(&mut cells);
    assert_eq!(cells, line(2, vec![vec![1], vec![2]]));
    let mut one = open_line(1);
    check_cell_line_by_rule_2_advanced_check(&mut one);
    assert_eq!(one, line(1, vec![vec![1]]));
}

#[test]
fn middle_clue_first_part() {
    let mut cells = open_line(6);
    check_cell_line_by_rule_mid_simple_check(&mut cells, 4);
    assert_eq!(
        cells,
        line(
            6,
            vec![
                vec![1, 2, 3],
                vec![1, 2, 3, 4],
                vec![1, 2, 3, 4, 5],
                vec![1, 2, 3, 4, 5, 6],
                vec![1, 2, 3, 4, 5, 6],
                vec![1, 2, 3, 4, 5, 6],
            ],
        )
    );
}

#[test]
fn middle_clue_first_part_keeps_the_smallest_of_a_cell_it_would_empty() {
    let mut cells = line(
        5,
        vec![vec![4, 5], vec![1, 5], vec![5], vec![1, 2, 3, 4, 5], vec![1, 2, 3, 4, 5]],
    );
    check_cell_line_by_rule_mid_simple_check(&mut cells, 4);
    assert_eq!(
        cells,
        line(5, vec![vec![4], vec![1], vec![5], vec![1, 2, 3, 4, 5], vec![1, 2, 3, 4, 5]])
    );
}

#[test]
fn middle_clue_first_part_with_a_small_clue() {
    for rule in 0..2 {
        let mut cells = open_line(4);
        check_cell_line_by_rule_mid_simple_check(&mut cells, rule);
        assert_eq!(cells, open_line(4));
    }
    let mut cells = open_line(4);
    check_cell_line_by_rule_mid_simple_check(&mut cells, 2);
    assert_eq!(
        cells,
        line(4, vec![vec![1, 2, 3], vec![1, 2, 3, 4], vec![1, 2, 3, 4], vec![1, 2, 3, 4]])
    );
}

#[test]
fn middle_clue_second_part_on_an_open_line() {
    // With the tallest put anywhere, the estimate for an open line is 1 or 2.
    let mut cells = open_line(5);
    check_cell_line_by_rule_mid_atopo_max_num(&mut cells, 3);
    assert_eq!(cells, open_line(5));
    let mut low = open_line(4);
    check_cell_line_by_rule_mid_atopo_max_num(&mut low, 1);
    assert_eq!(
        low,
        line(4, vec![vec![1, 2, 3, 4], vec![1, 2, 3], vec![1, 2, 3], vec![1, 2, 3]])
    );
}

#[test]
fn middle_clue_both_parts() {
    let mut cells = open_line(5);
    check_cell_line_by_rule_mid_all_checks(&mut cells, 3);
    assert_eq!(
        cells,
        line(
            5,
            vec![
                vec![1, 2, 3],
                vec![1, 2, 3, 4],
                vec![1, 2, 3, 4, 5],
                vec![1, 2, 3, 4, 5],
                vec![1, 2, 3, 4, 5],
            ],
        )
    );
}

#[test]
fn worst_case_of_an_open_line() {
    // Each cell takes the largest height that is left: 5, 4, 3, 2, 1.
    assert_eq!(get_worst_case_min_number_of_skyscrapers(&open_line(5)), 1);
}

#[test]
fn worst_case_counts_the_peaks_of_a_settled_line() {
    let cells = line(5, vec![vec![2], vec![1], vec![4], vec![3], vec![5]]);
    assert_eq!(get_worst_case_min_number_of_skyscrapers(&cells), 3);
    for n in 1..7 {
        let rising: Vec<Cell> = (0..n).map(|i| Cell::new_cell_fixed(n, vec![i + 1])).collect();
        let falling: Vec<Cell> = (0..n).map(|i| Cell::new_cell_fixed(n, vec![n - i])).collect();
        assert_eq!(get_worst_case_min_number_of_skyscrapers(&rising), n);
        assert_eq!(get_worst_case_min_number_of_skyscrapers(&falling), 1);
    }
}

#[test]
fn worst_case_passes_over_a_value_that_is_taken() {
    // 3 is settled in the last cell, so the first cell takes 2, the second 1.
    let cells = line(3, vec![vec![1, 2, 3], vec![1, 2, 3], vec![3]]);
    assert_eq!(get_worst_case_min_number_of_skyscrapers(&cells), 2);
}

#[test]
fn worst_case_of_a_cell_without_a_free_height() {
    // Both heights of the first cell are settled elsewhere: it shows nothing.
    let cells = line(3, vec![vec![1, 2], vec![1], vec![2]]);
    assert_eq!(get_worst_case_min_number_of_skyscrapers(&cells), 2);
}

#[test]
fn worst_case_leaves_its_line_alone() {
    let cells = line(4, vec![vec![1, 2], vec![2, 3, 4], vec![1, 4], vec![3]]);
    let copy = clone_line(&cells);
    get_worst_case_min_number_of_skyscrapers(&cells);
    assert_eq!(cells, copy);
}

#[test]
fn worst_case_of_no_cells() {
    assert_eq!(get_worst_case_min_number_of_skyscrapers(&Vec::new()), 0);
}

#[test]
fn unique_number_left_takes_the_smallest_lone_height() {
    // 1 and 4 each have one place, and it is the same cell.
    let mut cells = line(4, vec![vec![1, 2, 4], vec![2, 3], vec![2, 3], vec![2, 3]]);
    check_unique_number_left(&mut cells);
    assert_eq!(cells, line(4, vec![vec![1], vec![2, 3], vec![2, 3], vec![2, 3]]));
}

#[test]
fn unique_number_left_counts_before_it_cuts() {
    let mut cells = line(3, vec![vec![1, 2], vec![2, 3], vec![2]]);
    check_unique_number_left(&mut cells);
    assert_eq!(cells, line(3, vec![vec![1], vec![3], vec![2]]));
}

#[test]
fn exclusive_numbers_serves_the_smallest_count_first() {
    // 1 has one place; 2 and 3 have two places each. The first cell holds
    // both groups and is cut down to the one of the smaller count.
    let mut cells = line(3, vec![vec![1, 2, 3], vec![2, 3], vec![2]]);
    check_exclusive_numbers(&mut cells);
    assert_eq!(cells, line(3, vec![vec![1], vec![2, 3], vec![2]]));
}

#[test]
fn exclusive_numbers_needs_as_many_heights_as_places() {
    // Every height has three places, and there are three heights.
    let mut cells = open_line(3);
    check_exclusive_numbers(&mut cells);
    assert_eq!(cells, open_line(3));
    // 1 and 2 have two places each, 3 and 4 have three: only the pair fits.
    let mut mixed = line(4, vec![vec![1, 2, 3, 4], vec![1, 2, 3, 4], vec![3, 4], vec![3]]);
    check_exclusive_numbers(&mut mixed);
    assert_eq!(mixed, line(4, vec![vec![1, 2], vec![1, 2], vec![3, 4], vec![3]]));
}

#[test]
fn is_valid_line_asks_for_valid_cells_of_one_puzzle() {
    assert!(is_valid_line(&open_line(1)));
    assert!(is_valid_line(&open_line(5)));
    assert!(is_valid_line(&line(3, vec![vec![1, 2], vec![3], vec![2, 3]])));
    assert!(!is_valid_line(&Vec::new()));
    // Too few cells, a cell of another puzzle, a cell that is not valid.
    assert!(!is_valid_line(&line(3, vec![vec![1, 2], vec![3]])));
    let mut mixed = open_line(3);
    mixed[1] = Cell::new_cell(4);
    assert!(!is_valid_line(&mixed));
    assert!(!is_valid_line(&line(3, vec![vec![1, 2], vec![], vec![2, 3]])));
    assert!(!is_valid_line(&line(3, vec![vec![1, 2], vec![3, 1], vec![2, 3]])));
}
