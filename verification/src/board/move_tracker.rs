//! A board that remembers every earlier state so that moves can be undone.
use vstd::prelude::*;

use super::{Board, BoardState};

verus! {

pub struct TrackedBoard {
    pub board: Board,
    history: Vec<Board>,
}

impl TrackedBoard {
    /// The current board.
    pub closed spec fn current(&self) -> BoardState {
        self.board@
    }

    /// The boards before each move not yet undone, oldest first.
    pub closed spec fn past(&self) -> Seq<BoardState> {
        self.history@.map_values(|b: Board| b@)
    }

    pub fn new(board: Board) -> (tracked_board: Self)
        ensures
            tracked_board.current() == board@,
            tracked_board.past() == Seq::<BoardState>::empty(),
    {
        let tracked_board = TrackedBoard {
            board,
            history: Vec::with_capacity(54),  // Approx avg max moves per game
        };
        assert(tracked_board.past() =~= Seq::<BoardState>::empty());
        tracked_board
    }

    /// The current board.
    pub fn current_board(&self) -> (board: &Board)
        ensures
            board@ == self.current(),
    {
        &self.board
    }

    /// Records the current board, then makes the move on it.
    pub fn do_move(&mut self, row: u8, column: u8, player: u8)
        requires
            row < 9,
            column < 9,
            player == 1 || player == 2,
            old(self).current().move_count((row / 3) * 3 + column / 3, player) <= 9,
            old(self).current().placed(row as int, column as int, player).can_settle(
                (row / 3) * 3 + column / 3,
            ),
        ensures
            final(self).current() == old(self).current().played(row as int, column as int, player),
            final(self).past() == old(self).past().push(old(self).current()),
    {
        self.history.push(self.board);
        self.board.do_move(row, column, player);
        assert(self.past() =~= old(self).past().push(old(self).current()));
    }

    /// Restores the board from before the last move not yet undone; `false`
    /// when there is none, and then nothing changes.
    pub fn undo_move(&mut self) -> (undone: bool)
        ensures
            undone == (old(self).past().len() > 0),
            undone ==> final(self).current() == old(self).past().last() && final(self).past()
                == old(self).past().drop_last(),
            !undone ==> final(self).current() == old(self).current() && final(self).past()
                == old(self).past(),
    {
        match self.history.pop() {
            Some(board) => {
                self.board = board;
                assert(self.past() =~= old(self).past().drop_last());
                true
            },
            None => false,
        }
    }

    /// Resets the board and forgets every earlier state.
    pub fn reset(&mut self)
        ensures
            final(self).current() == BoardState::initial(),
            final(self).past() == Seq::<BoardState>::empty(),
    {
        self.board.reset();
        self.history.clear();
        assert(self.past() =~= Seq::<BoardState>::empty());
    }
}

/// Undoing a move restores the board and the history as they were before the
/// move: `moved` is `before` after `do_move`, and `undone` is `moved` after
/// `undo_move`, each as its contract states.
pub proof fn lemma_undo_restores(
    before: TrackedBoard,
    moved: TrackedBoard,
    undone: TrackedBoard,
    row: int,
    column: int,
    player: u8,
    result: bool,
)
    requires
        moved.current() == before.current().played(row, column, player),
        moved.past() == before.past().push(before.current()),
        result == (moved.past().len() > 0),
        result ==> undone.current() == moved.past().last() && undone.past()
            == moved.past().drop_last(),
        !result ==> undone.current() == moved.current() && undone.past() == moved.past(),
    ensures
        result,
        undone.current() == before.current(),
        undone.past() == before.past(),
{
    assert(before.past().push(before.current()).drop_last() =~= before.past());
}

} // verus!
