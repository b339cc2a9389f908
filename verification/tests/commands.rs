use skyscrapers::board::{Board, WhichRule};
use skyscrapers::cell::Cell;
use skyscrapers::command::{parse_command, read_command, Command, Reply};

fn rules(board: &Board, which: WhichRule) -> Vec<usize> {
    (0..board.size()).map(|i| board.rule(which, i)).collect()
}

#[test]
fn read_command_knows_the_commands() {
    assert_eq!(read_command("ru123"), (Command::Rule(WhichRule::Up), 2));
    assert_eq!(read_command("rd"), (Command::Rule(WhichRule::Down), 2));
    assert_eq!(read_command("rl0"), (Command::Rule(WhichRule::Left), 2));
    assert_eq!(read_command("rr12"), (Command::Rule(WhichRule::Right), 2));
    assert_eq!(read_command("ok123"), (Command::Settle, 2));
    assert_eq!(read_command("restore12"), (Command::Restore, 7));
    assert_eq!(read_command("remove123"), (Command::Remove, 6));
    assert_eq!(read_command("c"), (Command::Check, 1));
    assert_eq!(read_command("check"), (Command::Check, 5));
    assert_eq!(read_command("help"), (Command::Help, 4));
    assert_eq!(read_command("exit"), (Command::Exit, 4));
}

#[test]
fn read_command_knows_nothing_else() {
    for text in ["", "r", "re", "rest", "remov", "checks", "c ", " c", "helpme", "exit ", "Ru1", "quit"] {
        assert_eq!(read_command(text), (Command::Unknown, 0));
    }
}

#[test]
fn parse_command_reads_clues() {
    let mut board = Board::new_board(4);
    assert_eq!(parse_command("ru1234", &mut board), Reply::Done);
    assert_eq!(parse_command("rd4321", &mut board), Reply::Done);
    assert_eq!(parse_command("rl02", &mut board), Reply::Done);
    assert_eq!(parse_command("rr0003", &mut board), Reply::Done);
    assert_eq!(rules(&board, WhichRule::Up), vec![1, 2, 3, 4]);
    assert_eq!(rules(&board, WhichRule::Down), vec![4, 3, 2, 1]);
    assert_eq!(rules(&board, WhichRule::Left), vec![0, 2, 0, 0]);
    assert_eq!(rules(&board, WhichRule::Right), vec![0, 0, 0, 3]);
}

#[test]
fn parse_command_edits_cells() {
    let mut board = Board::new_board(4);
    assert_eq!(parse_command("ok123", &mut board), Reply::Done);
    assert_eq!(*board.cell(0, 1), Cell::new_cell_fixed(4, vec![3]));
    assert_eq!(parse_command("remove214", &mut board), Reply::Done);
    assert_eq!(*board.cell(1, 0), Cell::new_cell_fixed(4, vec![1, 2, 3]));
    assert_eq!(parse_command("restore12", &mut board), Reply::Done);
    assert_eq!(*board.cell(0, 1), Cell::new_cell(4));
}

#[test]
fn parse_command_makes_a_pass() {
    for text in ["c", "check"] {
        let mut board = Board::new_board(3);
        parse_command("ru1", &mut board);
        assert_eq!(parse_command(text, &mut board), Reply::Done);
        assert_eq!(*board.cell(0, 0), Cell::new_cell_fixed(3, vec![3]));
        assert_eq!(*board.cell(1, 0), Cell::new_cell_fixed(3, vec![1, 2]));
        assert_eq!(*board.cell(0, 1), Cell::new_cell_fixed(3, vec![1, 2]));
    }
}

#[test]
fn parse_command_leaves_the_rest_to_the_caller() {
    let mut board = Board::new_board(3);
    let before = format!("{:?}", board);
    assert_eq!(parse_command("help", &mut board), Reply::Help);
    assert_eq!(parse_command("exit", &mut board), Reply::Exit);
    assert_eq!(parse_command("", &mut board), Reply::Invalid);
    assert_eq!(parse_command("solve", &mut board), Reply::Invalid);
    assert_eq!(parse_command("checks", &mut board), Reply::Invalid);
    assert_eq!(format!("{:?}", board), before);
}

#[test]
fn parse_command_sets_up_a_puzzle_of_seven() {
    let mut board = Board::new_board(7);
    parse_command("ru020022", &mut board);
    parse_command("rl553022", &mut board);
    parse_command("rr0005043", &mut board);
    parse_command("rd0002325", &mut board);
    assert_eq!(rules(&board, WhichRule::Up), vec![0, 2, 0, 0, 2, 2, 0]);
    assert_eq!(rules(&board, WhichRule::Left), vec![5, 5, 3, 0, 2, 2, 0]);
    assert_eq!(rules(&board, WhichRule::Right), vec![0, 0, 0, 5, 0, 4, 3]);
    assert_eq!(rules(&board, WhichRule::Down), vec![0, 0, 0, 2, 3, 2, 5]);
    for _ in 0..5 {
        assert_eq!(parse_command("check", &mut board), Reply::Done);
        for row in 0..7 {
            for col in 0..7 {
                let cell = board.cell(row, col);
                assert!(!cell.numbers.is_empty());
                assert!(cell.numbers.windows(2).all(|pair| pair[0] < pair[1]));
                assert!(cell.numbers.iter().all(|&v| 1 <= v && v <= 7));
            }
        }
    }
}
