//! A fixed-capacity record of the board state that each move overwrote.
use vstd::prelude::*;

verus! {

/// What one move overwrote: the cell, the previous last move, the miniboard's
/// index, status and packed move counts, and the packed win counts.
pub type HistoryEntry = ((u8, u8), (u8, u8), u8, u8, u16, u8);

/// Stores the `Board`'s history of moves
/// This enables undoing moves.
/// Uses separate arrays to track the row affected, and its index.
/// Snapshots the relevant board state immediately before `board.do_move` to surgically revert changes
#[derive(Debug, Clone)]
pub struct MoveHistory {
    i: u8,
    cell: [(u8, u8); 81],
    last_move: [(u8, u8); 81],
    miniboard_index: [u8; 81],
    miniboard_status: [u8; 81],
    miniboard_move_count: [u16; 81],  // both x/o player, and total counts
    xo_miniboard_win_count: [u8; 81],
}

impl MoveHistory {
    /// The entries recorded so far, oldest first. Slot 0 is never used: entry
    /// `k` is stored in slot `k + 1`.
    pub closed spec fn entries(&self) -> Seq<HistoryEntry> {
        Seq::new(
            self.i as nat,
            |k: int|
                (
                    self.cell[k + 1],
                    self.last_move[k + 1],
                    self.miniboard_index[k + 1],
                    self.miniboard_status[k + 1],
                    self.miniboard_move_count[k + 1],
                    self.xo_miniboard_win_count[k + 1],
                ),
        )
    }

    /// The record holds at most 80 entries.
    pub closed spec fn wf(&self) -> bool {
        self.i <= 80
    }

    pub fn new() -> (history: Self)
        ensures
            history.wf(),
            history.entries() == Seq::<HistoryEntry>::empty(),
    {
        let cell = [(0, 0); 81];
        let last_move = [(0, 0); 81];
        let miniboard_index = [0; 81];
        let miniboard_status = [0; 81];
        let miniboard_move_count = [0; 81];
        let xo_miniboard_win_count = [0; 81];

        let history = Self {
            i: 0,
            cell,
            last_move,
            miniboard_index,
            miniboard_status,
            miniboard_move_count,
            xo_miniboard_win_count,
        };
        assert(history.entries() =~= Seq::<HistoryEntry>::empty());
        history
    }

    /// Records one more entry.
    pub fn add(
        &mut self,
        cell: (u8, u8),
        last_move: (u8, u8),
        mb_index: u8,
        mb_status: u8,
        mb_move_count: u16,
        xo_mb_win_count: u8,
    )
        requires
            old(self).wf(),
            old(self).entries().len() < 80,
        ensures
            final(self).wf(),
            final(self).entries() == old(self).entries().push(
                (cell, last_move, mb_index, mb_status, mb_move_count, xo_mb_win_count),
            ),
    {
        self.i += 1;

        self.cell[self.i as usize] = cell;
        self.last_move[self.i as usize] = last_move;
        self.miniboard_index[self.i as usize] = mb_index;
        self.miniboard_status[self.i as usize] = mb_status;
        self.miniboard_move_count[self.i as usize] = mb_move_count;
        self.xo_miniboard_win_count[self.i as usize] = xo_mb_win_count;
        assert(self.entries() =~= old(self).entries().push(
            (cell, last_move, mb_index, mb_status, mb_move_count, xo_mb_win_count),
        ));
    }

    /// Takes back the newest entry, if there is one.
    pub fn pop(&mut self) -> (entry: Option<HistoryEntry>)
        requires
            old(self).wf(),
        ensures
            final(self).wf(),
            old(self).entries().len() == 0 ==> entry is None && final(self).entries() == old(
                self,
            ).entries(),
            old(self).entries().len() > 0 ==> entry == Some(old(self).entries().last())
                && final(self).entries() == old(self).entries().drop_last(),
    {
        let i = self.i;
        if i == 0 {
            None
        } else {
            self.i -= 1;
            assert(self.entries() =~= old(self).entries().drop_last());
            Some(
                (
                    self.cell[i as usize],
                    self.last_move[i as usize],
                    self.miniboard_index[i as usize],
                    self.miniboard_status[i as usize],
                    self.miniboard_move_count[i as usize],
                    self.xo_miniboard_win_count[i as usize],
                ),
            )
        }
    }

    /// Forgets every entry.
    pub fn reset(&mut self)
        requires
            old(self).wf(),
        ensures
            final(self).wf(),
            final(self).entries() == Seq::<HistoryEntry>::empty(),
    {
        self.i = 0;
        assert(self.entries() =~= Seq::<HistoryEntry>::empty());
    }
}

impl Default for MoveHistory {
    fn default() -> (history: Self)
        ensures
            history.wf(),
            history.entries() == Seq::<HistoryEntry>::empty(),
    {
        Self::new()
    }
}

/// Taking back the entry just recorded gives that entry and leaves the
/// record as it was before: `added` is `before` after `add`, and `popped` is
/// `added` after `pop`, each as its contract states.
pub proof fn lemma_pop_undoes_add(
    before: MoveHistory,
    added: MoveHistory,
    popped: MoveHistory,
    entry: HistoryEntry,
    result: Option<HistoryEntry>,
)
    requires
        added.entries() == before.entries().push(entry),
        added.entries().len() == 0 ==> result is None && popped.entries() == added.entries(),
        added.entries().len() > 0 ==> result == Some(added.entries().last())
            && popped.entries() == added.entries().drop_last(),
    ensures
        result == Some(entry),
        popped.entries() == before.entries(),
{
    assert(before.entries().push(entry).drop_last() =~= before.entries());
}

} // verus!
