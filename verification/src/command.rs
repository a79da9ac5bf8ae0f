//! What a line typed at the prompt asks for.
use vstd::prelude::*;

verus! {

/// The ASCII code of `u`.
pub const UNDO_KEY: u8 = 117;

/// The ASCII code of `r`.
pub const RESET_KEY: u8 = 114;

/// The ASCII code of `q`.
pub const QUIT_KEY: u8 = 113;

/// The ASCII code of `h`.
pub const HINT_KEY: u8 = 104;

/// The ASCII code of `0`.
pub const DIGIT_ZERO: u8 = 48;

/// The ASCII code of `8`, the highest row or column.
pub const DIGIT_EIGHT: u8 = 56;

/// A request typed at the prompt: undo, reset, quit, a hint, a move, or
/// nothing that can be acted on.
#[derive(Debug, Clone, Copy, PartialEq, Eq, Structural)]
pub enum Command {
    Undo,
    Reset,
    Quit,
    Hint,
    Move(u8, u8),
    Invalid,
}

/// The command that the trimmed line `input` asks for: `u`, `r`, `q` and
/// `h` undo, reset, quit and ask for a hint; while the game goes on, two digits from `0` to `8`
/// name a row and a column, like `47` for `(4, 7)`; anything else is
/// invalid.
pub open spec fn command_of(input: Seq<u8>, is_game_over: bool) -> Command {
    if input == seq![UNDO_KEY] {
        Command::Undo
    } else if input == seq![RESET_KEY] {
        Command::Reset
    } else if input == seq![QUIT_KEY] {
        Command::Quit
    } else if input == seq![HINT_KEY] {
        Command::Hint
    } else if input.len() == 2 && !is_game_over && DIGIT_ZERO <= input[0] <= DIGIT_EIGHT && DIGIT_ZERO <= input[1]
        <= DIGIT_EIGHT {
        Command::Move((input[0] - DIGIT_ZERO) as u8, (input[1] - DIGIT_ZERO) as u8)
    } else {
        Command::Invalid
    }
}

/// Reads the trimmed line `input` as a [`Command`].
pub fn parse_command(input: &[u8], is_game_over: bool) -> (command: Command)
    ensures
        command == command_of(input@, is_game_over),
{
    if input.len() == 1 {
        let only = input[0];
        if only == UNDO_KEY {
            assert(input@ == seq![UNDO_KEY]);
            return Command::Undo;
        } else if only == RESET_KEY {
            assert(input@ == seq![RESET_KEY]);
            return Command::Reset;
        } else if only == QUIT_KEY {
            assert(input@ == seq![QUIT_KEY]);
            return Command::Quit;
        } else if only == HINT_KEY {
            assert(input@ == seq![HINT_KEY]);
            return Command::Hint;
        }
        return Command::Invalid;
    }
    if input.len() != 2 || is_game_over {
        return Command::Invalid;
    }
    let (row, column) = (input[0], input[1]);
    if DIGIT_ZERO <= row && row <= DIGIT_EIGHT && DIGIT_ZERO <= column && column <= DIGIT_EIGHT {
        Command::Move(row - DIGIT_ZERO, column - DIGIT_ZERO)
    } else {
        Command::Invalid
    }
}

} // verus!
