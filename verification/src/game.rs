//! The turns of a game: a command typed at one terminal by a player against
//! another player or against the AI, the AI's reply and hint, and a match
//! between two AIs.
use vstd::prelude::*;

use crate::ai::AI;
use crate::board::move_tracker::TrackedBoard;
use crate::board::rules::lemma_marked_moves_are_marked;
use crate::board::wellformed::lemma_play_keeps_searchable;
use crate::board::{flag, Board, BoardState};
use crate::command::Command;

verus! {

/// What one step of a game did.
#[derive(Debug, Clone, Copy, PartialEq, Eq, Structural)]
pub enum StepAction {
    /// The move `(row, column)` was played.
    Played(u8, u8),
    /// `asked` moves were to be undone, and `done` of them were.
    Undone { asked: u8, done: u8 },
    /// The game starts over.
    Reset,
    /// The player leaves.
    Quit,
    /// The player against the AI asks for a hint while the game goes on.
    Hint,
    /// Nothing could be done.
    Invalid,
}

/// A game at one terminal: the board with its history, the number of moves
/// made (X moves on even turns, O on odd ones), whether the game is over,
/// and whether O is the AI.
pub struct GameState {
    pub undoable: TrackedBoard,
    pub turn: u8,
    pub game_over: bool,
    pub against_ai: bool,
}

/// The board and the earlier boards after one undo: the last earlier board
/// comes back, unless there is none.
pub open spec fn after_undo(current: BoardState, past: Seq<BoardState>) -> (BoardState, Seq<BoardState>) {
    if past.len() > 0 {
        (past.last(), past.drop_last())
    } else {
        (current, past)
    }
}

/// The player whose turn `turn` is: X on even turns, O on odd ones.
pub open spec fn player_of(turn: u8) -> u8 {
    (turn % 2 + 1) as u8
}

impl GameState {
    /// A new game, X to move.
    pub fn new(against_ai: bool) -> (game: Self)
        ensures
            game.undoable.current() == BoardState::initial(),
            game.undoable.past() == Seq::<BoardState>::empty(),
            game.turn == 0,
            !game.game_over,
            game.against_ai == against_ai,
    {
        GameState { undoable: TrackedBoard::new(Board::new()), turn: 0, game_over: false, against_ai }
    }
}

/// Acts on a command typed by the player whose turn it is. A valid move
/// while the game goes on is played for that player and may end the game;
/// undo takes back one move (two against the AI, the AI's reply with it)
/// and reopens the game; reset starts a new game; a hint is wanted only
/// against the AI while the game goes on; anything else changes nothing.
pub fn game_step(game: &mut GameState, cmd: Command) -> (action: StepAction)
    requires
        cmd matches Command::Move(_, _) && !old(game).game_over ==> old(
            game,
        ).undoable.current().searchable() && old(game).turn < 255,
    ensures
        final(game).against_ai == old(game).against_ai,
        cmd == Command::Undo ==> ({
            let asked: u8 = if old(game).against_ai { 2 } else { 1 };
            let once = after_undo(old(game).undoable.current(), old(game).undoable.past());
            let twice = if old(game).against_ai { after_undo(once.0, once.1) } else { once };
            let done = if old(game).undoable.past().len() >= asked {
                asked as int
            } else {
                old(game).undoable.past().len() as int
            };
            &&& final(game).undoable.current() == twice.0
            &&& final(game).undoable.past() == twice.1
            &&& final(game).turn == if old(game).turn >= asked {
                (old(game).turn - asked) as u8
            } else {
                0u8
            }
            &&& !final(game).game_over
            &&& action == (StepAction::Undone { asked, done: done as u8 })
        }),
        cmd == Command::Reset ==> {
            &&& final(game).undoable.current() == BoardState::initial()
            &&& final(game).undoable.past() == Seq::<BoardState>::empty()
            &&& final(game).turn == 0
            &&& !final(game).game_over
            &&& action == StepAction::Reset
        },
        cmd == Command::Quit ==> *final(game) == *old(game) && action == StepAction::Quit,
        cmd == Command::Hint ==> *final(game) == *old(game) && action == if old(game).against_ai
            && !old(game).game_over {
            StepAction::Hint
        } else {
            StepAction::Invalid
        },
        cmd == Command::Invalid ==> *final(game) == *old(game) && action == StepAction::Invalid,
        cmd matches Command::Move(row, column) ==> if !old(game).game_over && row < 9 && column < 9
            && old(game).undoable.current().valid_move(row as int, column as int) {
            let played = old(game).undoable.current().played(
                row as int,
                column as int,
                player_of(old(game).turn),
            );
            &&& final(game).undoable.current() == played
            &&& final(game).undoable.past() == old(game).undoable.past().push(
                old(game).undoable.current(),
            )
            &&& final(game).turn == old(game).turn + 1
            &&& final(game).game_over == (played.game_status() != 0)
            &&& action == StepAction::Played(row, column)
        } else {
            *final(game) == *old(game) && action == StepAction::Invalid
        },
{
    match cmd {
        Command::Undo => {
            let asked: u8 = if game.against_ai {
                2
            } else {
                1
            };
            let mut done: u8 = 0;
            if game.undoable.undo_move() {
                done = 1;
            }
            if game.against_ai && game.undoable.undo_move() {
                done = done + 1;
            }
            game.turn = if game.turn >= asked {
                game.turn - asked
            } else {
                0
            };
            game.game_over = false;
            StepAction::Undone { asked, done }
        },
        Command::Reset => {
            game.undoable.reset();
            game.turn = 0;
            game.game_over = false;
            StepAction::Reset
        },
        Command::Quit => StepAction::Quit,
        Command::Hint => {
            if game.against_ai && !game.game_over {
                StepAction::Hint
            } else {
                StepAction::Invalid
            }
        },
        Command::Invalid => StepAction::Invalid,
        Command::Move(row, column) => {
            if game.game_over || row >= 9 || column >= 9 || !game.undoable.current_board().is_valid_move(
                row,
                column,
            ) {
                return StepAction::Invalid;
            }
            let player = game.turn % 2 + 1;
            proof {
                lemma_play_keeps_searchable(
                    game.undoable.current(),
                    row as int,
                    column as int,
                    player,
                );
            }
            game.undoable.do_move(row, column, player);
            game.turn = game.turn + 1;
            game.game_over = game.undoable.current_board().calculate_game_status() != flag::STATUS_CONTESTABLE;
            StepAction::Played(row, column)
        },
    }
}

/// The AI answers on its turn: it plays the move that its search `depth`
/// moves deep finds best, and the game may end.
pub fn ai_reply(game: &mut GameState, ai: &AI, depth: u8) -> (best: (i16, (u8, u8)))
    requires
        ai.shape() == flag::X_PLAYER || ai.shape() == flag::O_PLAYER,
        old(game).undoable.current().searchable(),
        old(game).undoable.current().marked_moves().len() > 0,
        old(game).turn < 255,
    ensures
        ai.is_best_move(old(game).undoable.current(), depth, best),
        ({
            let played = old(game).undoable.current().played(
                best.1.0 as int,
                best.1.1 as int,
                ai.shape(),
            );
            &&& final(game).undoable.current() == played
            &&& final(game).undoable.past() == old(game).undoable.past().push(
                old(game).undoable.current(),
            )
            &&& final(game).turn == old(game).turn + 1
            &&& final(game).game_over == (old(game).game_over || played.game_status() != 0)
        }),
        final(game).against_ai == old(game).against_ai,
{
    let best = ai.calculate_move_par(game.undoable.current_board(), depth);
    let (row, column) = best.1;
    proof {
        let s = game.undoable.current();
        lemma_marked_moves_are_marked(s, 0);
        let k = choose|k: int| 0 <= k < s.marked_moves().len() && s.marked_moves()[k] == (row, column);
        assert(s.marked_moves()[k] == (row, column));
        lemma_play_keeps_searchable(s, row as int, column as int, ai.shape());
    }
    game.undoable.do_move(row, column, ai.ai_shape());
    game.turn = game.turn + 1;
    if game.undoable.current_board().calculate_game_status() != flag::STATUS_CONTESTABLE {
        game.game_over = true;
    }
    best
}

/// The hint for the player against the AI: the move that a search two
/// moves deeper than the AI's finds best for `hinter`.
pub fn hint_move(game: &GameState, hinter: &AI, depth: u8) -> (best: (i16, (u8, u8)))
    requires
        hinter.shape() == flag::X_PLAYER || hinter.shape() == flag::O_PLAYER,
        game.undoable.current().searchable(),
        game.undoable.current().marked_moves().len() > 0,
        depth <= 253,
    ensures
        hinter.is_best_move(game.undoable.current(), (depth + 2) as u8, best),
{
    hinter.calculate_move_par(game.undoable.current_board(), depth + 2)
}

/// A series of games between an X AI and an O AI: the board, the board as
/// the last move left it, the moves made over all games, and the games won
/// by X, won by O and drawn.
pub struct AiMatch {
    pub board: Board,
    pub shown: Board,
    pub turns: u32,
    pub x_wins: u16,
    pub o_wins: u16,
    pub draws: u16,
    pub ai_x: AI,
    pub ai_o: AI,
}

impl AiMatch {
    /// A match with no game played yet.
    pub fn new() -> (ai_match: Self)
        ensures
            ai_match.board@ == BoardState::initial(),
            ai_match.shown@ == BoardState::initial(),
            ai_match.turns == 0,
            ai_match.x_wins == 0,
            ai_match.o_wins == 0,
            ai_match.draws == 0,
            ai_match.ai_x.shape() == flag::X_PLAYER,
            ai_match.ai_o.shape() == flag::O_PLAYER,
    {
        AiMatch {
            board: Board::new(),
            shown: Board::new(),
            turns: 0,
            x_wins: 0,
            o_wins: 0,
            draws: 0,
            ai_x: AI::new(flag::X_PLAYER),
            ai_o: AI::new(flag::O_PLAYER),
        }
    }
}

/// One move of a match. X moves when the count of moves over all games is
/// even and O when it is odd, each searching at its own depth, so the
/// player who ends a game moves second in the next. When the move ends the
/// game, the tally of its result grows by one and the board starts over.
pub fn ai_match_turn(ai_match: &mut AiMatch, depth_x: u8, depth_o: u8) -> (game_over: bool)
    requires
        old(ai_match).ai_x.shape() == flag::X_PLAYER,
        old(ai_match).ai_o.shape() == flag::O_PLAYER,
        old(ai_match).board@.searchable(),
        old(ai_match).board@.marked_moves().len() > 0,
        old(ai_match).turns < u32::MAX,
        old(ai_match).x_wins < u16::MAX,
        old(ai_match).o_wins < u16::MAX,
        old(ai_match).draws < u16::MAX,
    ensures
        old(ai_match).turns % 2 == 0 ==> exists|best: (i16, (u8, u8))|
            {
                &&& #[trigger] old(ai_match).ai_x.is_best_move(old(ai_match).board@, depth_x, best)
                &&& final(ai_match).shown@ == old(ai_match).board@.played(
                    best.1.0 as int,
                    best.1.1 as int,
                    flag::X_PLAYER,
                )
            },
        old(ai_match).turns % 2 == 1 ==> exists|best: (i16, (u8, u8))|
            {
                &&& #[trigger] old(ai_match).ai_o.is_best_move(old(ai_match).board@, depth_o, best)
                &&& final(ai_match).shown@ == old(ai_match).board@.played(
                    best.1.0 as int,
                    best.1.1 as int,
                    flag::O_PLAYER,
                )
            },
        final(ai_match).turns == old(ai_match).turns + 1,
        final(ai_match).ai_x == old(ai_match).ai_x,
        final(ai_match).ai_o == old(ai_match).ai_o,
        game_over == (final(ai_match).shown@.game_status() != 0),
        !game_over ==> {
            &&& final(ai_match).board@ == final(ai_match).shown@
            &&& final(ai_match).x_wins == old(ai_match).x_wins
            &&& final(ai_match).o_wins == old(ai_match).o_wins
            &&& final(ai_match).draws == old(ai_match).draws
        },
        game_over ==> {
            let status = final(ai_match).shown@.game_status();
            &&& final(ai_match).board@ == BoardState::initial()
            &&& final(ai_match).x_wins == old(ai_match).x_wins + if status == 1 { 1int } else { 0 }
            &&& final(ai_match).o_wins == old(ai_match).o_wins + if status == 2 { 1int } else { 0 }
            &&& final(ai_match).draws == old(ai_match).draws + if status == 3 { 1int } else { 0 }
        },
{
    let x_turn = ai_match.turns % 2 == 0;
    let ai = if x_turn {
        ai_match.ai_x
    } else {
        ai_match.ai_o
    };
    let depth = if x_turn {
        depth_x
    } else {
        depth_o
    };
    let best = ai.calculate_move_par(&ai_match.board, depth);
    let (row, column) = best.1;
    proof {
        let s = ai_match.board@;
        lemma_marked_moves_are_marked(s, 0);
        let k = choose|k: int| 0 <= k < s.marked_moves().len() && s.marked_moves()[k] == (row, column);
        assert(s.marked_moves()[k] == (row, column));
        lemma_play_keeps_searchable(s, row as int, column as int, ai.shape());
    }
    ai_match.board.do_move(row, column, ai.ai_shape());
    ai_match.shown = ai_match.board;
    ai_match.turns = ai_match.turns + 1;
    assert(ai.is_best_move(old(ai_match).board@, depth, best));
    let status = ai_match.board.calculate_game_status();
    if status == flag::STATUS_CONTESTABLE {
        return false;
    }
    if status == flag::STATUS_X_WIN {
        ai_match.x_wins = ai_match.x_wins + 1;
    } else if status == flag::STATUS_O_WIN {
        ai_match.o_wins = ai_match.o_wins + 1;
    } else {
        ai_match.draws = ai_match.draws + 1;
    }
    ai_match.board.reset();
    true
}

} // verus!
