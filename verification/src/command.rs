//! The commands that drive a board, one line of text each.

use vstd::prelude::*;
use crate::board::{Board, BoardModel, WhichRule};

verus! {

/// What a line of text asks for.
#[derive(Clone, Copy, Debug, PartialEq, Eq)]
pub enum Command {
    /// Read clues for one side.
    Rule(WhichRule),
    /// Leave one height in a cell.
    Settle,
    /// Make a cell full again.
    Restore,
    /// Take one height from a cell.
    Remove,
    /// Make one pass of deductions.
    Check,
    /// Show the commands.
    Help,
    /// Leave.
    Exit,
    /// Nothing that is known.
    Unknown,
}

/// What is left for the caller to do once a command has been carried out on
/// the board.
#[derive(Clone, Copy, Debug, PartialEq, Eq)]
pub enum Reply {
    /// Nothing.
    Done,
    /// Show the commands.
    Help,
    /// Leave.
    Exit,
    /// Say that the command is not known.
    Invalid,
}

/// Whether `text` begins with `prefix`.
pub open spec fn starts_with(text: Seq<char>, prefix: Seq<char>) -> bool {
    prefix.len() <= text.len() && text.take(prefix.len() as int) == prefix
}

/// The command that `text` begins with, and how many characters name it: what
/// follows them is the command's argument. The commands that take an argument
/// are known by their first characters, the others by the whole text.
pub open spec fn command_of(text: Seq<char>) -> (Command, int) {
    if starts_with(text, "ru"@) {
        (Command::Rule(WhichRule::Up), 2)
    } else if starts_with(text, "rd"@) {
        (Command::Rule(WhichRule::Down), 2)
    } else if starts_with(text, "rr"@) {
        (Command::Rule(WhichRule::Right), 2)
    } else if starts_with(text, "rl"@) {
        (Command::Rule(WhichRule::Left), 2)
    } else if starts_with(text, "ok"@) {
        (Command::Settle, 2)
    } else if starts_with(text, "restore"@) {
        (Command::Restore, 7)
    } else if starts_with(text, "remove"@) {
        (Command::Remove, 6)
    } else if text == "exit"@ {
        (Command::Exit, 4)
    } else if text == "help"@ {
        (Command::Help, 4)
    } else if text == "c"@ {
        (Command::Check, 1)
    } else if text == "check"@ {
        (Command::Check, 5)
    } else {
        (Command::Unknown, 0)
    }
}

/// The board after the command was carried out with the argument `args`.
pub open spec fn carried_out(b: BoardModel, command: Command, args: Seq<char>) -> BoardModel {
    match command {
        Command::Rule(which) => b.rules_read(which, args),
        Command::Settle => b.cell_settled(args),
        Command::Restore => b.cell_restored(args),
        Command::Remove => b.cell_struck(args),
        Command::Check => b.checked(),
        Command::Help => b,
        Command::Exit => b,
        Command::Unknown => b,
    }
}

/// What is left for the caller to do after the command.
pub open spec fn reply_to(command: Command) -> Reply {
    match command {
        Command::Help => Reply::Help,
        Command::Exit => Reply::Exit,
        Command::Unknown => Reply::Invalid,
        _ => Reply::Done,
    }
}

/// Whether `text` begins with `prefix`.
fn begins_with(text: &str, prefix: &str) -> (b: bool)
    ensures
        b == starts_with(text@, prefix@),
{
    let length = prefix.unicode_len();
    if text.unicode_len() < length {
        return false;
    }
    let mut i: usize = 0;
    while i < length
        invariant
            i <= length,
            length == prefix@.len(),
            length <= text@.len(),
            forall|j: int| 0 <= j < i ==> text@[j] == prefix@[j],
        decreases length - i,
    {
        if text.get_char(i) != prefix.get_char(i) {
            assert(text@.take(length as int)[i as int] != prefix@[i as int]);
            return false;
        }
        i += 1;
    }
    assert(text@.take(length as int) =~= prefix@);
    true
}

/// Whether the two texts are the same.
fn same_text(text: &str, other: &str) -> (b: bool)
    ensures
        b == (text@ == other@),
{
    if text.unicode_len() != other.unicode_len() {
        return false;
    }
    let same = begins_with(text, other);
    assert(text@.take(text@.len() as int) =~= text@);
    same
}

/// Tells which command `text` begins with, and how many characters name it.
pub fn read_command(text: &str) -> (found: (Command, usize))
    ensures
        found.0 == command_of(text@).0,
        found.1 as int == command_of(text@).1,
        found.1 <= text@.len(),
{
    proof {
        reveal_strlit("ru");
        reveal_strlit("rd");
        reveal_strlit("rr");
        reveal_strlit("rl");
        reveal_strlit("ok");
        reveal_strlit("restore");
        reveal_strlit("remove");
        reveal_strlit("exit");
        reveal_strlit("help");
        reveal_strlit("c");
        reveal_strlit("check");
    }
    if begins_with(text, "ru") {
        (Command::Rule(WhichRule::Up), 2)
    } else if begins_with(text, "rd") {
        (Command::Rule(WhichRule::Down), 2)
    } else if begins_with(text, "rr") {
        (Command::Rule(WhichRule::Right), 2)
    } else if begins_with(text, "rl") {
        (Command::Rule(WhichRule::Left), 2)
    } else if begins_with(text, "ok") {
        (Command::Settle, 2)
    } else if begins_with(text, "restore") {
        (Command::Restore, 7)
    } else if begins_with(text, "remove") {
        (Command::Remove, 6)
    } else if same_text(text, "exit") {
        (Command::Exit, 4)
    } else if same_text(text, "help") {
        (Command::Help, 4)
    } else if same_text(text, "c") {
        (Command::Check, 1)
    } else if same_text(text, "check") {
        (Command::Check, 5)
    } else {
        (Command::Unknown, 0)
    }
}

/// Carries out on the board the command that `input_command` holds, and tells
/// what is left for the caller to do. A command that is not known, and one
/// that asks for help or to leave, changes nothing on the board.
pub fn parse_command(input_command: &str, board: &mut Board) -> (reply: Reply)
    requires
        old(board)@.valid(),
    ensures
        final(board)@ == carried_out(
            old(board)@,
            command_of(input_command@).0,
            input_command@.skip(command_of(input_command@).1),
        ),
        reply == reply_to(command_of(input_command@).0),
        final(board)@.valid(),
{
    let (command, named_by) = read_command(input_command);
    let comm_args = input_command.substring_char(named_by, input_command.unicode_len());
    assert(comm_args@ =~= input_command@.skip(named_by as int));
    match command {
        Command::Rule(which_rule) => {
            board.update_rule_x(comm_args, which_rule);
            Reply::Done
        },
        Command::Settle => {
            board.check_ok_cell(comm_args);
            Reply::Done
        },
        Command::Restore => {
            board.restore_cell(comm_args);
            Reply::Done
        },
        Command::Remove => {
            board.remove_number_from_cell(comm_args);
            Reply::Done
        },
        Command::Check => {
            board.check_all();
            Reply::Done
        },
        Command::Help => Reply::Help,
        Command::Exit => Reply::Exit,
        Command::Unknown => Reply::Invalid,
    }
}

} // verus!
