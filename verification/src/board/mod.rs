pub mod bits;
pub mod flag;
pub mod rules;
pub mod iterator;
pub mod display;
pub mod move_history;
pub mod move_tracker;
pub mod wellformed;

use vstd::prelude::*;

use self::bits::{
    field, lemma_cells_in_low_bits, lemma_zero_shr, lemma_get_field, lemma_meta_write_keeps_cells,
    lemma_pack_field, lemma_pack_window, lemma_set_cell_bits, lemma_set_meta_bits,
    lemma_win_count_bits, lemma_window_cell,
};

verus! {

/// What a [`Board`] holds, as plain values: the nine packed rows, the last
/// move and the packed miniboard win counts.
///
/// Row `r` packs the cells of board row `r` in bits `0..18` (two bits per
/// column) and the metadata of miniboard `r` in bits `18..32`: its status
/// (2 bits at 18), the X move count (4 bits at 20), the O move count (4 bits
/// at 24) and the total move count (4 bits at 28).
/// The win-count byte holds the X win count in bits `0..3` and the O win
/// count in bits `3..6`.
pub struct BoardState {
    pub rows: Seq<u32>,
    pub last_move: (u8, u8),
    pub wins: u8,
}

impl BoardState {
    /// The state of a new board: every bit zero, last move `(0, 0)`.
    pub open spec fn initial() -> BoardState {
        BoardState { rows: Seq::new(9, |i: int| 0u32), last_move: (0, 0), wins: 0 }
    }

    pub open spec fn cell(self, row: int, column: int) -> u8 {
        field(self.rows[row], (column * 2) as u32, 3) as u8
    }

    pub open spec fn status(self, miniboard: int) -> u8 {
        field(self.rows[miniboard], 18, 3) as u8
    }

    /// Bit offset of a player's move count: 20 for X and 24 for O.
    pub open spec fn count_pos(player: u8) -> u32 {
        (20 + (player - 1) * 4) as u32
    }

    pub open spec fn move_count(self, miniboard: int, player: u8) -> u8 {
        field(self.rows[miniboard], Self::count_pos(player), 15) as u8
    }

    pub open spec fn total_move_count(self, miniboard: int) -> u8 {
        field(self.rows[miniboard], 28, 15) as u8
    }

    /// Bit offset of a player's win count: 0 for X and 3 for O.
    pub open spec fn win_pos(player: u8) -> u8 {
        ((player - 1) * 3) as u8
    }

    pub open spec fn win_count(self, player: u8) -> u8 {
        (self.wins >> Self::win_pos(player)) & 7
    }

    /// The cell of the last move.
    pub open spec fn last_cell(self) -> u8 {
        self.cell(self.last_move.0 as int, self.last_move.1 as int)
    }

    /// A row with the cell of `column` overwritten by `value`.
    pub open spec fn cell_written(row: u32, column: int, value: u8) -> u32 {
        (row & !(3u32 << (column * 2) as u32)) | ((value as u32) << (column * 2) as u32)
    }

    /// A row with the `size`-masked field at `pos` overwritten by `value`.
    pub open spec fn meta_written(row: u32, pos: u32, size: u8, value: u8) -> u32 {
        (row & !((size as u32) << pos)) | ((value as u32) << pos)
    }

    pub open spec fn with_cell(self, row: int, column: int, value: u8) -> BoardState {
        BoardState {
            rows: self.rows.update(row, Self::cell_written(self.rows[row], column, value)),
            last_move: self.last_move,
            wins: self.wins,
        }
    }

    pub open spec fn with_meta(self, miniboard: int, pos: u32, size: u8, value: u8) -> BoardState {
        BoardState {
            rows: self.rows.update(
                miniboard,
                Self::meta_written(self.rows[miniboard], pos, size, value),
            ),
            last_move: self.last_move,
            wins: self.wins,
        }
    }

    pub open spec fn with_status(self, miniboard: int, value: u8) -> BoardState {
        self.with_meta(miniboard, 18, 3, value)
    }

    pub open spec fn with_move_count(self, miniboard: int, player: u8, value: u8) -> BoardState {
        self.with_meta(miniboard, Self::count_pos(player), 15, value)
    }

    pub open spec fn with_total_move_count(self, miniboard: int, value: u8) -> BoardState {
        self.with_meta(miniboard, 28, 15, value)
    }

    pub open spec fn with_win_count(self, player: u8, value: u8) -> BoardState {
        BoardState {
            rows: self.rows,
            last_move: self.last_move,
            wins: (self.wins & !(7u8 << Self::win_pos(player))) | (value << Self::win_pos(
                player,
            )),
        }
    }

    pub open spec fn with_last_move(self, row: u8, column: u8) -> BoardState {
        BoardState { rows: self.rows, last_move: (row, column), wins: self.wins }
    }

    /// The cell at local row `row` and local column `column` of a miniboard.
    pub open spec fn mini_cell(self, miniboard: int, row: int, column: int) -> u8 {
        self.cell((miniboard / 3) * 3 + row, (miniboard % 3) * 3 + column)
    }

    /// `cells` packs the nine cells of `miniboard`, cell `(row, column)` at bit
    /// `(row * 3 + column) * 2`, and is zero above bit 18.
    pub open spec fn packs_miniboard(self, cells: u32, miniboard: int) -> bool {
        &&& cells >> 18 == 0
        &&& forall|r: int, c: int|
            0 <= r < 3 && 0 <= c < 3 ==> #[trigger] field(cells, ((r * 3 + c) * 2) as u32, 3)
                == self.mini_cell(miniboard, r, c) as u32
    }

    /// `statuses` packs the nine miniboard statuses, miniboard `m` at bit
    /// `2 * m`, and is zero above bit 18.
    pub open spec fn packs_statuses(self, statuses: u32) -> bool {
        &&& statuses >> 18 == 0
        &&& forall|m: int|
            0 <= m < 9 ==> #[trigger] field(statuses, (2 * m) as u32, 3) == self.status(m) as u32
    }

    /// The board right after `player` takes cell `(row, column)`, before its
    /// miniboard is settled: the cell holds `player`, it is the last move, and
    /// the player's and the total move counts of its miniboard are one higher.
    pub open spec fn placed(self, row: int, column: int, player: u8) -> BoardState {
        let miniboard = (row / 3) * 3 + column / 3;
        let s1 = self.with_cell(row, column, player).with_last_move(row as u8, column as u8);
        let s2 = s1.with_move_count(miniboard, player, (s1.move_count(miniboard, player) + 1) as u8);
        s2.with_total_move_count(miniboard, (s2.total_move_count(miniboard) + 1) as u8)
    }

    /// The board after `player` moves to `(row, column)`: placed, then its
    /// miniboard settled.
    pub open spec fn played(self, row: int, column: int, player: u8) -> BoardState {
        self.placed(row, column, player).settled((row / 3) * 3 + column / 3)
    }

    /// Every metadata field of miniboard `miniboard` is the same in `self` and `other`.
    pub open spec fn same_meta(self, other: BoardState, miniboard: int) -> bool {
        &&& self.status(miniboard) == other.status(miniboard)
        &&& self.move_count(miniboard, 1) == other.move_count(miniboard, 1)
        &&& self.move_count(miniboard, 2) == other.move_count(miniboard, 2)
        &&& self.total_move_count(miniboard) == other.total_move_count(miniboard)
    }
}

/// Writing a cell changes that cell to the value written and leaves every
/// other cell, every miniboard's metadata, the last move and the win counts
/// as they were.
pub proof fn lemma_with_cell(s: BoardState, row: int, column: int, value: u8)
    requires
        s.rows.len() == 9,
        0 <= row < 9,
        0 <= column < 9,
        value <= 3,
    ensures
        ({
            let t = s.with_cell(row, column, value);
            &&& t.rows.len() == 9
            &&& t.cell(row, column) == value
            &&& forall|r: int, c: int|
                0 <= r < 9 && 0 <= c < 9 && (r, c) != (row, column) ==> #[trigger] t.cell(r, c)
                    == s.cell(r, c)
            &&& forall|mb: int| 0 <= mb < 9 ==> #[trigger] t.same_meta(s, mb)
            &&& t.last_move == s.last_move
            &&& t.wins == s.wins
        }),
{
    let t = s.with_cell(row, column, value);
    let x = s.rows[row];
    lemma_set_cell_bits(x, value as u32, column as u32, 0);
    assert forall|r: int, c: int|
        0 <= r < 9 && 0 <= c < 9 && (r, c) != (row, column) implies #[trigger] t.cell(r, c)
        == s.cell(r, c) by {
        if r == row {
            lemma_set_cell_bits(x, value as u32, column as u32, c as u32);
        }
    }
    assert forall|mb: int| 0 <= mb < 9 implies #[trigger] t.same_meta(s, mb) by {
        if mb == row {
            lemma_set_cell_bits(x, value as u32, column as u32, 0);
        }
    }
}

/// Writing a metadata field of a miniboard (status, a player's move count or
/// the total move count) changes that field to the value written and leaves
/// every cell, every other field, the last move and the win counts as they were.
pub proof fn lemma_with_meta(s: BoardState, miniboard: int, pos: u32, size: u8, value: u8)
    requires
        s.rows.len() == 9,
        0 <= miniboard < 9,
        (pos == 18 && size == 3) || ((pos == 20 || pos == 24 || pos == 28) && size == 15),
        value <= size,
    ensures
        ({
            let t = s.with_meta(miniboard, pos, size, value);
            &&& t.rows.len() == 9
            &&& field(t.rows[miniboard], pos, size as u32) == value
            &&& forall|r: int, c: int| 0 <= r < 9 && 0 <= c < 9 ==> #[trigger] t.cell(r, c) == s.cell(r, c)
            &&& forall|mb: int| 0 <= mb < 9 && mb != miniboard ==> #[trigger] t.same_meta(s, mb)
            &&& pos != 18 ==> t.status(miniboard) == s.status(miniboard)
            &&& pos != 20 ==> t.move_count(miniboard, 1) == s.move_count(miniboard, 1)
            &&& pos != 24 ==> t.move_count(miniboard, 2) == s.move_count(miniboard, 2)
            &&& pos != 28 ==> t.total_move_count(miniboard) == s.total_move_count(miniboard)
            &&& t.last_move == s.last_move
            &&& t.wins == s.wins
        }),
{
    let t = s.with_meta(miniboard, pos, size, value);
    let x = s.rows[miniboard];
    lemma_set_meta_bits(x, value as u32, pos, size as u32);
    assert forall|r: int, c: int| 0 <= r < 9 && 0 <= c < 9 implies #[trigger] t.cell(r, c) == s.cell(r, c) by {
        if r == miniboard {
            lemma_cells_in_low_bits(t.rows[r], x, c as u32);
        }
    }
}

/// Writing any value into a metadata field of a miniboard leaves every cell,
/// the last move and the win counts as they were.
pub proof fn lemma_meta_keeps_cells(s: BoardState, miniboard: int, pos: u32, size: u8, value: u8)
    requires
        s.rows.len() == 9,
        0 <= miniboard < 9,
        18 <= pos < 32,
    ensures
        ({
            let t = s.with_meta(miniboard, pos, size, value);
            &&& t.rows.len() == 9
            &&& forall|r: int, c: int| 0 <= r < 9 && 0 <= c < 9 ==> #[trigger] t.cell(r, c) == s.cell(r, c)
            &&& t.last_move == s.last_move
            &&& t.wins == s.wins
        }),
{
    let t = s.with_meta(miniboard, pos, size, value);
    let x = s.rows[miniboard];
    lemma_meta_write_keeps_cells(x, value as u32, pos, size as u32);
    assert forall|r: int, c: int| 0 <= r < 9 && 0 <= c < 9 implies #[trigger] t.cell(r, c) == s.cell(r, c) by {
        if r == miniboard {
            lemma_cells_in_low_bits(t.rows[r], x, c as u32);
        }
    }
}

/// Writing a player's win count changes that count to the value written and
/// leaves the other player's count and every row as they were.
pub proof fn lemma_with_win_count(s: BoardState, player: u8, value: u8)
    requires
        player == 1 || player == 2,
        value <= 7,
    ensures
        ({
            let t = s.with_win_count(player, value);
            &&& t.win_count(player) == value
            &&& t.win_count((3 - player) as u8) == s.win_count((3 - player) as u8)
            &&& t.rows == s.rows
            &&& t.last_move == s.last_move
        }),
{
    lemma_win_count_bits(s.wins, value, BoardState::win_pos(player), BoardState::win_pos((3 - player) as u8));
}

/// `u32` board row format:
/// most significant bit <- -> least significant bit
/// meta data bits `31–18` -- cells `17–0`
/// `[14 bits meta data — 18 bits cell data]`
///     * `9` cells x `2` bits per cell = `18` bits
///     * meta data `[0000 — 0000 — 0000 — 00]`
///         * `4` bits move_count_total — move_count o `4` bits — move_count x `4` bits — miniboard_status `2` bits
/// xo_miniboard_win_count: `[00 — 000 — 000]` -> `[empty — O win count — X win count]`
#[derive(Debug, Clone, Copy, PartialEq, Eq)]
pub struct Board {
    pub main_board: [u32; 9],
    pub last_move: (u8, u8),
    pub xo_miniboard_win_count: u8,
}

impl View for Board {
    type V = BoardState;

    open spec fn view(&self) -> BoardState {
        BoardState {
            rows: self.main_board@,
            last_move: self.last_move,
            wins: self.xo_miniboard_win_count,
        }
    }
}

impl Board {
    /// Creates a new, empty `Board`.
    pub fn new() -> (board: Self)
        ensures
            board@ == BoardState::initial(),
    {
        let board = Board {
            main_board: [0; 9],
            last_move: (flag::NEW_GAME, flag::NEW_GAME),
            xo_miniboard_win_count: 0,
        };
        assert(board@.rows =~= BoardState::initial().rows);
        board
    }

    /// Resets and zeroes the state of Board as if it was just initialised.
    pub fn reset(&mut self)
        ensures
            final(self)@ == BoardState::initial(),
    {
        self.last_move = (flag::NEW_GAME, flag::NEW_GAME);
        self.main_board = [0; 9];
        self.xo_miniboard_win_count = 0;
        assert(self@.rows =~= BoardState::initial().rows);
    }

    /////* Cell Operations */////

    pub fn get_cell(&self, row: u8, column: u8) -> (cell: u8)
        requires
            row < 9,
            column < 9,
        ensures
            cell == self@.cell(row as int, column as int),
            cell <= 3,
    {
        let offset = column * 2;
        proof {
            lemma_get_field(self.main_board[row as int], offset as u32, 3);
        }
        ((self.main_board[row as usize] >> offset) & flag::CELL_MASK) as u8
    }

    pub fn set_cell(&mut self, row: u8, column: u8, value: u8)
        requires
            row < 9,
            column < 9,
        ensures
            final(self)@ == old(self)@.with_cell(row as int, column as int, value),
    {
        // clear bits
        let offset = column * 2;
        self.main_board[row as usize] &= !(flag::CELL_MASK << offset);

        // set bits
        self.main_board[row as usize] |= (value as u32) << offset;
        assert(self@.rows =~= old(self)@.with_cell(row as int, column as int, value).rows);
    }

    /////* Miniboard Meta Data */////

    /// Reads the `flag_len`-masked field at bit `flag_pos` of a miniboard's row.
    pub fn get_meta_data(&self, miniboard: u8, flag_pos: u8, flag_len: u8) -> (value: u8)
        requires
            miniboard < 9,
            flag_pos < 32,
        ensures
            value == ((self.main_board[miniboard as int] & ((flag_len as u32) << flag_pos))
                >> flag_pos) as u8,
    {
        let mask = (flag_len as u32) << flag_pos;
        ((self.main_board[miniboard as usize] & mask) >> flag_pos) as u8
    }

    /// Overwrites the `flag_size`-masked field at bit `flag_pos` of a miniboard's row.
    pub fn set_meta_data(&mut self, miniboard: u8, flag_pos: u8, flag_size: u8, value: u8)
        requires
            miniboard < 9,
            flag_pos < 32,
        ensures
            final(self)@ == old(self)@.with_meta(miniboard as int, flag_pos as u32, flag_size, value),
    {
        // clear the occupying bits
        let miniboard = miniboard as usize;
        let mask = (flag_size as u32) << flag_pos;
        self.main_board[miniboard] &= !mask;

        // set the cleared bits
        let mask = (value as u32) << flag_pos;
        self.main_board[miniboard] |= mask;
        assert(self@.rows =~= old(self)@.with_meta(miniboard as int, flag_pos as u32, flag_size, value).rows);
    }

    /// Returns the status of a `miniboard`.
    pub fn get_status_of(&self, miniboard: u8) -> (status: u8)
        requires
            miniboard < 9,
        ensures
            status == self@.status(miniboard as int),
            status <= 3,
    {
        proof {
            lemma_get_field(self.main_board[miniboard as int], 18, 3);
        }
        self.get_meta_data(miniboard, flag::MINIBOARD_STATUS_POS, flag::STATUS_LEN)
    }

    /// Sets the status of a `miniboard`.
    pub fn set_status_of(&mut self, miniboard: u8, value: u8)
        requires
            miniboard < 9,
            value <= flag::STATUS_DRAW,
        ensures
            final(self)@ == old(self)@.with_status(miniboard as int, value),
            final(self)@.status(miniboard as int) == value,
    {
        self.set_meta_data(miniboard, flag::MINIBOARD_STATUS_POS, flag::STATUS_LEN, value);
        proof {
            lemma_with_meta(old(self)@, miniboard as int, 18, 3, value);
        }
    }

    /// Returns the number of `miniboards` won by a `player`.
    pub fn get_miniboard_win_count_of(&self, player: u8) -> (count: u8)
        requires
            player == flag::X_PLAYER || player == flag::O_PLAYER,
        ensures
            count == self@.win_count(player),
            count <= 7,
    {
        let offset = (player - 1) * 3;
        let mask = 0b111 << offset;
        proof {
            lemma_win_count_bits(self.xo_miniboard_win_count, 0, offset, (3 - offset) as u8);
        }
        (self.xo_miniboard_win_count & mask) >> offset
    }

    /// Sets the number of `miniboards` won by a `player`.
    pub fn set_miniboard_win_count_of(&mut self, player: u8, value: u8)
        requires
            player == flag::X_PLAYER || player == flag::O_PLAYER,
            value <= 7,
        ensures
            final(self)@ == old(self)@.with_win_count(player, value),
            final(self)@.win_count(player) == value,
    {
        let offset = (player - 1) * 3;

        // clear bits
        let mask = 0b111 << offset;
        let mut win_count = self.xo_miniboard_win_count & !mask;

        // set bits
        win_count |= value << offset;
        self.xo_miniboard_win_count = win_count;
        proof {
            lemma_with_win_count(old(self)@, player, value);
        }
    }

    /// Returns the number of `moves` a player has made in a `miniboard`.
    pub fn get_player_move_count_of(&self, miniboard: u8, player: u8) -> (count: u8)
        requires
            miniboard < 9,
            player == flag::X_PLAYER || player == flag::O_PLAYER,
        ensures
            count == self@.move_count(miniboard as int, player),
            count <= 15,
    {
        // maps 1 => 20 and 2 => 24
        let player_flag = flag::MINIBOARD_MOVE_COUNT_X + (player - 1) * 4;
        proof {
            lemma_get_field(self.main_board[miniboard as int], player_flag as u32, 15);
        }
        self.get_meta_data(miniboard, player_flag, flag::MOVE_COUNT_BIT_SIZE)
    }

    /// Sets the number of `moves` a player has made in a `miniboard`.
    pub fn set_player_move_count_of(&mut self, miniboard: u8, value: u8, player: u8)
        requires
            miniboard < 9,
            player == flag::X_PLAYER || player == flag::O_PLAYER,
        ensures
            final(self)@ == old(self)@.with_move_count(miniboard as int, player, value),
    {
        // maps 1 => 20 and 2 => 24
        let player_flag = flag::MINIBOARD_MOVE_COUNT_X + (player - 1) * 4;
        self.set_meta_data(miniboard, player_flag, flag::MOVE_COUNT_BIT_SIZE, value);
    }

    /// Returns the total number of `moves` both `players` have made in a `miniboard`.
    pub fn get_total_move_count_of(&self, miniboard: u8) -> (count: u8)
        requires
            miniboard < 9,
        ensures
            count == self@.total_move_count(miniboard as int),
            count <= 15,
    {
        proof {
            lemma_get_field(self.main_board[miniboard as int], 28, 15);
        }
        self.get_meta_data(miniboard, flag::MINIBOARD_MOVE_COUNT_TOTAL, flag::MOVE_COUNT_BIT_SIZE)
    }

    /// Sets the total number of `moves` both `players` have made in a `miniboard`.
    pub fn set_total_move_count_of(&mut self, miniboard: u8, value: u8)
        requires
            miniboard < 9,
        ensures
            final(self)@ == old(self)@.with_total_move_count(miniboard as int, value),
    {
        self.set_meta_data(
            miniboard,
            flag::MINIBOARD_MOVE_COUNT_TOTAL,
            flag::MOVE_COUNT_BIT_SIZE,
            value,
        );
    }

    /// Applies the move without checking it with `self.is_valid_move`, then
    /// settles the status of the move's miniboard.
    pub fn do_move(&mut self, row: u8, column: u8, player: u8)
        requires
            row < 9,
            column < 9,
            player == flag::X_PLAYER || player == flag::O_PLAYER,
            old(self)@.move_count((row / 3) * 3 + column / 3, player) <= 9,
            old(self)@.placed(row as int, column as int, player).can_settle(
                (row / 3) * 3 + column / 3,
            ),
        ensures
            final(self)@ == old(self)@.played(row as int, column as int, player),
    {
        let miniboard = Self::move_miniboard(row, column);

        self.set_cell(row, column, player);
        self.last_move = (row, column);
        proof {
            lemma_with_cell(old(self)@, row as int, column as int, player);
        }

        let move_count = self.get_player_move_count_of(miniboard, player);

        self.set_player_move_count_of(miniboard, move_count + 1, player);
        let total = self.get_total_move_count_of(miniboard);
        self.set_total_move_count_of(miniboard, total + 1);
        let _ = self.calculate_miniboard_status(miniboard);
    }

    /// Returns the `miniboard` that `move` is in.
    pub fn move_miniboard(row: u8, column: u8) -> (miniboard: u8)
        requires
            row < 9,
            column < 9,
        ensures
            miniboard == (row / 3) * 3 + column / 3,
            miniboard < 9,
    {
        (row / 3) * 3 + column / 3
    }

    /// Returns a miniboard's cells as u32
    /// Offsets a cell by `(row * 3 + column) * 2`
    pub fn get_miniboard_cells(&self, miniboard: u8) -> (cells: u32)
        requires
            miniboard < 9,
        ensures
            self@.packs_miniboard(cells, miniboard as int),
    {
        let mut cells: u32 = 0;
        let (starting_row, starting_column) = (miniboard / 3 * 3, miniboard % 3 * 3);

        // do row by row, so
        // for miniboard 4 -> [(3,3) (3,4) (3,5)] [(4,3) (4,4) (4,5)] [(5,3) (5,4) (5,5)]
        // not cell by cell
        let col_offset = starting_column * 2;
        let columns_mask = 0b11_11_11u32 << col_offset;
        let mut row: u8 = 0;
        proof {
            lemma_zero_shr(0);
        }
        while row < 3
            invariant
                row <= 3,
                miniboard < 9,
                starting_row == miniboard / 3 * 3,
                starting_column == miniboard % 3 * 3,
                col_offset == starting_column * 2,
                columns_mask == 0b11_11_11u32 << col_offset,
                cells >> (6 * row) as u32 == 0,
                forall|r: int, c: int|
                    0 <= r < row && 0 <= c < 3 ==> #[trigger] field(
                        cells,
                        ((r * 3 + c) * 2) as u32,
                        3,
                    ) == self@.mini_cell(miniboard as int, r, c) as u32,
            decreases 3 - row,
        {
            let x = self.main_board[(starting_row + row) as usize];
            // * 2 to account for cell bit length of 2;
            let row_cells = (x & columns_mask) >> col_offset;
            let cell_mask_offset = (row * 3) * 2;
            let ghost old_cells = cells;
            proof {
                lemma_window_cell(x, col_offset as u32, 0);
            }
            cells |= row_cells << cell_mask_offset;
            proof {
                assert forall|r: int, c: int|
                    0 <= r < row + 1 && 0 <= c < 3 implies #[trigger] field(
                    cells,
                    ((r * 3 + c) * 2) as u32,
                    3,
                ) == self@.mini_cell(miniboard as int, r, c) as u32 by {
                    lemma_pack_window(old_cells, row_cells, row as u32, ((r * 3 + c) * 2) as u32, c as u32);
                    if r == row {
                        lemma_window_cell(x, col_offset as u32, c as u32);
                        lemma_get_field(x, (col_offset + 2 * c) as u32, 3);
                        assert(x == self@.rows[(miniboard / 3) * 3 + r]);
                        assert(field(cells, ((r * 3 + c) * 2) as u32, 3) == (row_cells >> (2 * c) as u32) & 3);
                        assert((row_cells >> (2 * c) as u32) & 3 == (x >> (col_offset + 2 * c) as u32) & 3);
                    } else {
                        assert(field(cells, ((r * 3 + c) * 2) as u32, 3) == field(old_cells, ((r * 3 + c) * 2) as u32, 3));
                    }
                }
                lemma_pack_window(old_cells, row_cells, row as u32, 0, 0);
            }
            row += 1;
        }
        cells
    }

    /// Returns the miniboard statuses and packs them into a `u32`
    /// starting with the least significant bit for miniboard `0`
    pub fn get_miniboard_statuses(&self) -> (statuses: u32)
        ensures
            self@.packs_statuses(statuses),
    {
        let mut statuses = 0u32;
        let mut mb: u8 = 0;
        proof {
            lemma_zero_shr(0);
        }
        while mb < 9
            invariant
                mb <= 9,
                statuses >> (2 * mb) as u32 == 0,
                forall|m: int|
                    0 <= m < mb ==> #[trigger] field(statuses, (2 * m) as u32, 3)
                        == self@.status(m) as u32,
            decreases 9 - mb,
        {
            let status = self.get_status_of(mb);
            let offset = mb * 2;
            let ghost old_statuses = statuses;
            statuses |= (status as u32) << offset;
            proof {
                assert forall|m: int| 0 <= m < mb + 1 implies #[trigger] field(statuses, (2 * m) as u32, 3)
                    == self@.status(m) as u32 by {
                    lemma_pack_field(old_statuses, status as u32, mb as u32, (2 * m) as u32);
                    if m == mb {
                        assert(statuses == old_statuses | ((status as u32) << (2 * mb) as u32));
                        assert(field(statuses, (2 * m) as u32, 3) == status as u32);
                    } else {
                        assert(field(statuses, (2 * m) as u32, 3) == field(old_statuses, (2 * m) as u32, 3));
                    }
                }
                lemma_pack_field(old_statuses, status as u32, mb as u32, 0);
            }
            mb += 1;
        }
        statuses
    }

    /// Returns an iterator over the miniboard statuses, miniboard `0` first.
    pub fn _get_miniboard_statuses_iter(&self) -> (iter: iterator::MiniboardStatusesIterator)
        ensures
            iter.wf(),
            iter.remaining() == Seq::new(9, |m: int| self@.status(m)),
    {
        let bitfield = self.get_miniboard_statuses();
        let iter = iterator::MiniboardStatusesIterator::new(bitfield);
        assert(iter.remaining() =~= Seq::new(9, |m: int| self@.status(m)));
        iter
    }

    /// Returns the miniboard number that the next move should be played in,
    /// typically based on the previous move.
    pub fn move_corresponding_miniboard(row: u8, column: u8) -> (miniboard: u8)
        ensures
            miniboard == column % 3 + (row % 3) * 3,
            miniboard < 9,
    {
        column % 3 + (row % 3 * 3)
    }
}

impl Default for Board {
    fn default() -> (board: Self)
        ensures
            board@ == BoardState::initial(),
    {
        Self::new()
    }
}

} // verus!
