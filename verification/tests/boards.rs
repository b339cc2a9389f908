use skyscrapers::board::{Board, WhichRule};
use skyscrapers::cell::Cell;
use skyscrapers::propagation::Deduction;

fn line(n: usize, cells: Vec<Vec<usize>>) -> Vec<Cell> {
    cells.into_iter().map(|numbers| Cell::new_cell_fixed(n, numbers)).collect()
}

fn rules(board: &Board, which: WhichRule) -> Vec<usize> {
    (0..board.size()).map(|i| board.rule(which, i)).collect()
}

fn grid(board: &Board) -> Vec<Vec<Vec<usize>>> {
    (0..board.size())
        .map(|row| (0..board.size()).map(|col| board.cell(row, col).numbers.clone()).collect())
        .collect()
}

#[test]
fn new_board_is_open_and_without_clues() {
    let board = Board::new_board(3);
    assert_eq!(board.size(), 3);
    for which in [WhichRule::Up, WhichRule::Down, WhichRule::Left, WhichRule::Right] {
        assert_eq!(rules(&board, which), vec![0, 0, 0]);
    }
    for row in 0..3 {
        for col in 0..3 {
            assert_eq!(*board.cell(row, col), Cell::new_cell(3));
        }
    }
}

#[test]
fn new_board_of_side_zero() {
    let mut board = Board::new_board(0);
    assert_eq!(board.size(), 0);
    board.update_rule_x("12", WhichRule::Up);
    board.check_ok_cell("111");
    board.check_all();
    assert_eq!(board.size(), 0);
}

#[test]
fn update_rule_reads_digit_by_digit() {
    let mut board = Board::new_board(4);
    board.update_rule_x("2103", WhichRule::Up);
    assert_eq!(rules(&board, WhichRule::Up), vec![2, 1, 0, 3]);
    assert_eq!(rules(&board, WhichRule::Down), vec![0, 0, 0, 0]);
    board.update_rule_x("4", WhichRule::Down);
    assert_eq!(rules(&board, WhichRule::Down), vec![4, 0, 0, 0]);
    board.update_rule_x("0001", WhichRule::Left);
    assert_eq!(rules(&board, WhichRule::Left), vec![0, 0, 0, 1]);
    board.update_rule_x("3322", WhichRule::Right);
    assert_eq!(rules(&board, WhichRule::Right), vec![3, 3, 2, 2]);
    assert_eq!(rules(&board, WhichRule::Up), vec![2, 1, 0, 3]);
}

#[test]
fn update_rule_passes_over_what_is_no_clue() {
    let mut board = Board::new_board(4);
    board.update_rule_x("1234", WhichRule::Up);
    // A letter and a digit above the side length leave their place alone.
    board.update_rule_x("x94", WhichRule::Up);
    assert_eq!(rules(&board, WhichRule::Up), vec![1, 2, 4, 4]);
    // Too many characters: the first four count.
    board.update_rule_x("432111", WhichRule::Up);
    assert_eq!(rules(&board, WhichRule::Up), vec![4, 3, 2, 1]);
    board.update_rule_x("", WhichRule::Up);
    assert_eq!(rules(&board, WhichRule::Up), vec![4, 3, 2, 1]);
    board.update_rule_x("0", WhichRule::Up);
    assert_eq!(rules(&board, WhichRule::Up), vec![0, 3, 2, 1]);
}

#[test]
fn ok_cell_settles_a_cell() {
    let mut board = Board::new_board(3);
    board.check_ok_cell("123");
    assert_eq!(*board.cell(0, 1), Cell::new_cell_fixed(3, vec![3]));
    assert_eq!(*board.cell(1, 0), Cell::new_cell(3));
    board.check_ok_cell("331");
    assert_eq!(*board.cell(2, 2), Cell::new_cell_fixed(3, vec![1]));
    board.check_ok_cell("332 and more");
    assert_eq!(*board.cell(2, 2), Cell::new_cell_fixed(3, vec![2]));
}

#[test]
fn ok_cell_passes_over_what_names_no_cell_or_height() {
    let mut board = Board::new_board(3);
    let before = grid(&board);
    for args in ["", "1", "12", "012", "102", "412", "142", "114", "110", "a12", "1b2", "12c"] {
        board.check_ok_cell(args);
        assert_eq!(grid(&board), before);
    }
}

#[test]
fn remove_number_strikes_a_candidate() {
    let mut board = Board::new_board(3);
    board.remove_number_from_cell("212");
    assert_eq!(*board.cell(1, 0), Cell::new_cell_fixed(3, vec![1, 3]));
    board.remove_number_from_cell("211");
    assert_eq!(*board.cell(1, 0), Cell::new_cell_fixed(3, vec![3]));
    // The last candidate stays.
    board.remove_number_from_cell("213");
    assert_eq!(*board.cell(1, 0), Cell::new_cell_fixed(3, vec![3]));
    let before = grid(&board);
    for args in ["", "21", "012", "202", "242", "214", "x12"] {
        board.remove_number_from_cell(args);
        assert_eq!(grid(&board), before);
    }
}

#[test]
fn restore_cell_opens_a_cell_again() {
    let mut board = Board::new_board(3);
    board.check_ok_cell("222");
    board.check_ok_cell("111");
    board.restore_cell("22");
    assert_eq!(*board.cell(1, 1), Cell::new_cell(3));
    assert_eq!(*board.cell(0, 0), Cell::new_cell_fixed(3, vec![1]));
    let before = grid(&board);
    for args in ["", "1", "01", "10", "41", "14", "a1", "1a"] {
        board.restore_cell(args);
        assert_eq!(grid(&board), before);
    }
    board.restore_cell("11 and more");
    assert_eq!(*board.cell(0, 0), Cell::new_cell(3));
}

#[test]
fn extract_line_begins_at_the_clue() {
    let mut board = Board::new_board(3);
    board.check_ok_cell("111");
    board.check_ok_cell("122");
    board.check_ok_cell("213");
    assert_eq!(
        board.extract_line(WhichRule::Up, 0),
        line(3, vec![vec![1], vec![3], vec![1, 2, 3]])
    );
    assert_eq!(
        board.extract_line(WhichRule::Down, 0),
        line(3, vec![vec![1, 2, 3], vec![3], vec![1]])
    );
    assert_eq!(
        board.extract_line(WhichRule::Left, 0),
        line(3, vec![vec![1], vec![2], vec![1, 2, 3]])
    );
    assert_eq!(
        board.extract_line(WhichRule::Right, 0),
        line(3, vec![vec![1, 2, 3], vec![2], vec![1]])
    );
    assert_eq!(
        board.extract_line(WhichRule::Up, 1),
        line(3, vec![vec![2], vec![1, 2, 3], vec![1, 2, 3]])
    );
}

#[test]
fn write_back_line_puts_each_cell_in_its_place() {
    let cells = line(3, vec![vec![1], vec![2], vec![3]]);
    let mut board = Board::new_board(3);
    board.write_back_line(WhichRule::Right, 1, &cells);
    assert_eq!(
        grid(&board),
        vec![
            vec![vec![1, 2, 3], vec![1, 2, 3], vec![1, 2, 3]],
            vec![vec![3], vec![2], vec![1]],
            vec![vec![1, 2, 3], vec![1, 2, 3], vec![1, 2, 3]],
        ]
    );
    board.write_back_line(WhichRule::Down, 2, &cells);
    assert_eq!(
        grid(&board),
        vec![
            vec![vec![1, 2, 3], vec![1, 2, 3], vec![3]],
            vec![vec![3], vec![2], vec![2]],
            vec![vec![1, 2, 3], vec![1, 2, 3], vec![1]],
        ]
    );
    board.write_back_line(WhichRule::Up, 0, &cells);
    board.write_back_line(WhichRule::Left, 2, &cells);
    assert_eq!(
        grid(&board),
        vec![
            vec![vec![1], vec![1, 2, 3], vec![3]],
            vec![vec![2], vec![2], vec![2]],
            vec![vec![1], vec![2], vec![3]],
        ]
    );
}

#[test]
fn writing_back_an_unchanged_line_changes_nothing() {
    let mut board = Board::new_board(4);
    board.update_rule_x("1234", WhichRule::Left);
    board.check_ok_cell("123");
    board.remove_number_from_cell("341");
    let before = format!("{:?}", board);
    for which in [WhichRule::Up, WhichRule::Down, WhichRule::Left, WhichRule::Right] {
        for index in 0..4 {
            let cells = board.extract_line(which, index);
            board.write_back_line(which, index, &cells);
            assert_eq!(format!("{:?}", board), before);
        }
    }
}

#[test]
fn check_line_follows_the_clues_of_one_side() {
    let mut board = Board::new_board(3);
    board.update_rule_x("103", WhichRule::Up);
    board.update_rule_x("111", WhichRule::Left);
    board.check_line(WhichRule::Up);
    assert_eq!(
        grid(&board),
        vec![
            vec![vec![3], vec![1, 2, 3], vec![1]],
            vec![vec![1, 2, 3], vec![1, 2, 3], vec![2]],
            vec![vec![1, 2, 3], vec![1, 2, 3], vec![3]],
        ]
    );
}

#[test]
fn check_line_from_the_far_side() {
    let mut board = Board::new_board(3);
    board.update_rule_x("30", WhichRule::Down);
    board.update_rule_x("001", WhichRule::Right);
    board.check_line(WhichRule::Down);
    board.check_line(WhichRule::Right);
    assert_eq!(
        grid(&board),
        vec![
            vec![vec![3], vec![1, 2, 3], vec![1, 2, 3]],
            vec![vec![2], vec![1, 2, 3], vec![1, 2, 3]],
            vec![vec![1], vec![1, 2, 3], vec![3]],
        ]
    );
}

#[test]
fn deduce_on_line_without_a_clue_does_nothing() {
    let mut board = Board::new_board(3);
    board.deduce_on_line(WhichRule::Up, 1, Deduction::ByClue);
    assert_eq!(grid(&board), grid(&Board::new_board(3)));
}

#[test]
fn sweep_of_unique_numbers() {
    let mut board = Board::new_board(3);
    board.remove_number_from_cell("123");
    board.remove_number_from_cell("133");
    board.sweep(WhichRule::Left, Deduction::UniqueNumberLeft);
    assert_eq!(
        grid(&board),
        vec![
            vec![vec![3], vec![1, 2], vec![1, 2]],
            vec![vec![1, 2, 3], vec![1, 2, 3], vec![1, 2, 3]],
            vec![vec![1, 2, 3], vec![1, 2, 3], vec![1, 2, 3]],
        ]
    );
}

#[test]
fn unique_numbers_in_columns_and_then_in_rows() {
    let mut board = Board::new_board(3);
    board.remove_number_from_cell("213");
    board.remove_number_from_cell("313");
    board.check_unique_number_left_all_cells();
    // Column 0 gives 3 to the top cell; nothing else has one place.
    assert_eq!(
        grid(&board),
        vec![
            vec![vec![3], vec![1, 2, 3], vec![1, 2, 3]],
            vec![vec![1, 2], vec![1, 2, 3], vec![1, 2, 3]],
            vec![vec![1, 2], vec![1, 2, 3], vec![1, 2, 3]],
        ]
    );
}

#[test]
fn exclusive_numbers_in_columns_and_then_in_rows() {
    let mut board = Board::new_board(3);
    board.remove_number_from_cell("113");
    board.remove_number_from_cell("112");
    // Column 0: 1 has three places; 2 and 3 have two. Row 0 likewise.
    board.check_exclusive_numbers_all_cells();
    assert_eq!(
        grid(&board),
        vec![
            vec![vec![1], vec![2, 3], vec![2, 3]],
            vec![vec![2, 3], vec![1, 2, 3], vec![1, 2, 3]],
            vec![vec![2, 3], vec![1, 2, 3], vec![1, 2, 3]],
        ]
    );
}

#[test]
fn cross_elimination_clears_row_and_column() {
    let mut board = Board::new_board(3);
    board.check_ok_cell("222");
    board.check_compl_cell_excl_hor_and_ver();
    assert_eq!(
        grid(&board),
        vec![
            vec![vec![1, 2, 3], vec![1, 3], vec![1, 2, 3]],
            vec![vec![1, 3], vec![2], vec![1, 3]],
            vec![vec![1, 2, 3], vec![1, 3], vec![1, 2, 3]],
        ]
    );
}

#[test]
fn cross_elimination_goes_by_the_cells_settled_at_its_start() {
    let mut board = Board::new_board(3);
    board.check_ok_cell("111");
    board.remove_number_from_cell("123");
    // Row 0 is (1), 12, 123. The middle cell is settled by the step, which
    // does not go on to take its height from the last cell.
    board.check_compl_cell_excl_hor_and_ver();
    assert_eq!(
        grid(&board),
        vec![
            vec![vec![1], vec![2], vec![2, 3]],
            vec![vec![2, 3], vec![1, 2, 3], vec![1, 2, 3]],
            vec![vec![2, 3], vec![1, 2, 3], vec![1, 2, 3]],
        ]
    );
}

#[test]
fn cross_elimination_keeps_two_cells_settled_alike() {
    let mut board = Board::new_board(3);
    board.check_ok_cell("112");
    board.check_ok_cell("132");
    board.check_compl_cell_excl_hor_and_ver();
    assert_eq!(
        grid(&board),
        vec![
            vec![vec![2], vec![1, 3], vec![2]],
            vec![vec![1, 3], vec![1, 2, 3], vec![1, 3]],
            vec![vec![1, 3], vec![1, 2, 3], vec![1, 3]],
        ]
    );
}

#[test]
fn check_integrity_checks_nothing() {
    let board = Board::new_board(3);
    board.check_integrity();
    assert_eq!(grid(&board), grid(&Board::new_board(3)));
}

#[test]
fn check_all_on_an_open_board_without_clues() {
    let mut board = Board::new_board(4);
    board.check_all();
    assert_eq!(grid(&board), grid(&Board::new_board(4)));
}

#[test]
fn check_all_strikes_a_settled_height_from_row_and_column() {
    let mut board = Board::new_board(5);
    board.update_rule_x("00100", WhichRule::Up);
    board.check_ok_cell("342");
    board.check_all();
    // Clue 1 settles the top of column 2 to 5, and cell (2, 3) was settled by hand.
    let settled = [(0, 2, 5), (2, 3, 2)];
    for (row, col, height) in settled {
        assert_eq!(board.cell(row, col).numbers, vec![height]);
        for other in 0..5 {
            if other != col {
                assert!(!board.cell(row, other).numbers.contains(&height));
            }
            if other != row {
                assert!(!board.cell(other, col).numbers.contains(&height));
            }
        }
    }
}

fn solved_puzzle() -> (Board, Vec<Vec<usize>>) {
    let solution =
        vec![vec![1, 3, 4, 2], vec![4, 2, 1, 3], vec![3, 4, 2, 1], vec![2, 1, 3, 4]];
    let mut board = Board::new_board(4);
    board.update_rule_x("2213", WhichRule::Up);
    board.update_rule_x("3221", WhichRule::Down);
    board.update_rule_x("3123", WhichRule::Left);
    board.update_rule_x("2231", WhichRule::Right);
    (board, solution)
}

#[test]
fn check_all_never_strikes_the_height_of_the_solution() {
    let (mut board, solution) = solved_puzzle();
    for _ in 0..12 {
        board.check_all();
        for row in 0..4 {
            for col in 0..4 {
                let cell = board.cell(row, col);
                assert!(cell.numbers.contains(&solution[row][col]));
                assert!(cell.numbers.windows(2).all(|pair| pair[0] < pair[1]));
                assert!(cell.numbers.iter().all(|&v| 1 <= v && v <= 4));
            }
        }
    }
}

#[test]
fn check_all_first_pass_on_a_puzzle() {
    let (mut board, _) = solved_puzzle();
    board.check_all();
    let first = vec![
        vec![vec![1, 2], vec![3], vec![4], vec![1, 2]],
        vec![vec![4], vec![1, 2], vec![1, 2], vec![3]],
        vec![vec![3], vec![4], vec![1, 2], vec![1, 2]],
        vec![vec![1, 2], vec![1, 2], vec![3], vec![4]],
    ];
    assert_eq!(grid(&board), first);
    // A second pass finds nothing more.
    board.check_all();
    assert_eq!(grid(&board), first);
}

#[test]
fn check_all_finishes_a_puzzle_after_a_hint() {
    let (mut board, solution) = solved_puzzle();
    board.check_all();
    board.check_ok_cell("111");
    for _ in 0..3 {
        board.check_all();
    }
    let expected: Vec<Vec<Vec<usize>>> =
        solution.iter().map(|row| row.iter().map(|&v| vec![v]).collect()).collect();
    assert_eq!(grid(&board), expected);
}

#[test]
fn check_all_does_not_follow_up_what_its_last_step_settles() {
    let mut board = Board::new_board(4);
    board.check_ok_cell("111");
    board.remove_number_from_cell("123");
    board.remove_number_from_cell("124");
    board.check_all();
    // Cell (0, 1) is settled by the last step, to 2, which stays in its column.
    assert_eq!(
        grid(&board),
        vec![
            vec![vec![1], vec![2], vec![3, 4], vec![3, 4]],
            vec![vec![2, 3, 4], vec![1, 2, 3, 4], vec![1, 2, 3, 4], vec![1, 2, 3, 4]],
            vec![vec![2, 3, 4], vec![1, 2, 3, 4], vec![1, 2, 3, 4], vec![1, 2, 3, 4]],
            vec![vec![2, 3, 4], vec![1, 2, 3, 4], vec![1, 2, 3, 4], vec![1, 2, 3, 4]],
        ]
    );
    // The next pass takes it from there.
    board.check_all();
    for row in 1..4 {
        assert!(!board.cell(row, 1).numbers.contains(&2));
    }
}
