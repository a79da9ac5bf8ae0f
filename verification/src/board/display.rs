//! What the board's text rendering reads: the cells of a row, how each
//! cell is drawn, and which rows and columns hold a valid move.
use vstd::prelude::*;

use super::{flag, Board, BoardState};
use super::rules::bit128;

verus! {

/// How a cell is drawn.
#[derive(Debug, Clone, Copy, PartialEq, Eq, Structural)]
pub enum CellGlyph {
    /// An empty cell that the next move may take.
    Playable,
    /// The cell of the last move, taken by `player`; `won` when its miniboard
    /// is won by `player`.
    LastMove { player: u8, won: bool },
    /// An empty cell of a miniboard won by `winner`.
    EmptyWon { winner: u8 },
    /// A cell taken by `player` in a miniboard won by `winner`, or in one that
    /// nobody has won when `winner` is zero.
    Taken { player: u8, winner: u8 },
    /// An empty cell of a miniboard that nobody has won.
    Empty,
    /// A cell holding a value that is neither X, O nor empty.
    Unknown,
}

impl BoardState {
    /// How cell `(row, column)` is drawn: an empty cell that a valid move may
    /// take first, then the last move, then by what the cell holds and who
    /// won its miniboard.
    pub open spec fn glyph(self, row: int, column: int) -> CellGlyph {
        let cell = self.cell(row, column);
        let status = self.status(Self::miniboard_of(row, column));
        let is_last = (row, column) == (self.last_move.0 as int, self.last_move.1 as int);
        let winner = if status == 1 || status == 2 {
            status
        } else {
            0
        };
        if cell == 0 && self.valid_move(row, column) {
            CellGlyph::Playable
        } else if (cell == 1 || cell == 2) && is_last {
            CellGlyph::LastMove { player: cell, won: status == cell }
        } else if cell == 0 {
            if winner != 0 {
                CellGlyph::EmptyWon { winner }
            } else {
                CellGlyph::Empty
            }
        } else if cell == 1 || cell == 2 {
            CellGlyph::Taken { player: cell, winner }
        } else {
            CellGlyph::Unknown
        }
    }
}

/// An empty cell that the next move may take is drawn as playable; the
/// last move, by X or O, as that player's highlighted mark, marked won when
/// its miniboard is that player's; an empty cell of a miniboard that X or O
/// has won is drawn on that winner's background, whoever the winner is; a
/// taken cell other than the last move is drawn as its player's mark on the
/// background of whoever won its miniboard, or on none.
pub proof fn lemma_glyph_follows_the_winner(s: BoardState, row: int, column: int)
    requires
        0 <= row < 9,
        0 <= column < 9,
    ensures
        ({
            let status = s.status(BoardState::miniboard_of(row, column));
            let cell = s.cell(row, column);
            &&& cell == 0 && s.valid_move(row, column) ==> s.glyph(row, column) == CellGlyph::Playable
            &&& (cell == 1 || cell == 2) && (row, column) == (s.last_move.0 as int, s.last_move.1 as int)
                ==> s.glyph(row, column) == (CellGlyph::LastMove { player: cell, won: status == cell })
            &&& cell == 0 && (status == 1 || status == 2) ==> s.glyph(row, column)
                == (CellGlyph::EmptyWon { winner: status })
            &&& (cell == 1 || cell == 2) && (row, column) != (s.last_move.0 as int, s.last_move.1 as int)
                ==> s.glyph(row, column) == (CellGlyph::Taken {
                player: cell,
                winner: if status == 1 || status == 2 { status } else { 0 },
            })
        }),
{
}

impl Board {
    /// How cell `(row, column)` is drawn.
    pub fn cell_glyph(&self, row: u8, column: u8) -> (glyph: CellGlyph)
        requires
            row < 9,
            column < 9,
            self@.last_move_on_board(),
        ensures
            glyph == self@.glyph(row as int, column as int),
    {
        let cell = self.get_cell(row, column);
        let status = self.get_status_of(Self::move_miniboard(row, column));
        let is_last = row == self.last_move.0 && column == self.last_move.1;
        let winner = if status == flag::STATUS_X_WIN || status == flag::STATUS_O_WIN {
            status
        } else {
            0
        };
        if cell == flag::EMPTY && self.is_valid_move(row, column) {
            CellGlyph::Playable
        } else if (cell == flag::X_PLAYER || cell == flag::O_PLAYER) && is_last {
            CellGlyph::LastMove { player: cell, won: status == cell }
        } else if cell == flag::EMPTY {
            if winner != 0 {
                CellGlyph::EmptyWon { winner }
            } else {
                CellGlyph::Empty
            }
        } else if cell == flag::X_PLAYER || cell == flag::O_PLAYER {
            CellGlyph::Taken { player: cell, winner }
        } else {
            CellGlyph::Unknown
        }
    }

    /// Whether `valid_moves` yields a move in row `row`.
    pub fn has_valid_move_in_row(&self, row: u8) -> (found: bool)
        requires
            row < 9,
            self@.last_move_on_board(),
        ensures
            found == exists|c: int| 0 <= c < 9 && #[trigger] self@.marked_move(row as int, c),
    {
        let bits = self.valid_moves_bitfield();
        let mut column: u8 = 0;
        while column < 9
            invariant
                row < 9,
                column <= 9,
                self@.marks_valid_moves(bits),
                forall|c: int| 0 <= c < column ==> !#[trigger] self@.marked_move(row as int, c),
            decreases 9 - column,
        {
            let pos = (row * 9 + column) as u128;
            if (bits >> pos) & 1 == 1 {
                assert(bit128(bits, row * 9 + column) == 1);
                assert(self@.marked_move(row as int, column as int));
                return true;
            }
            assert(bit128(bits, row * 9 + column) != 1);
            column += 1;
        }
        false
    }

    /// Whether `valid_moves` yields a move in column `column`.
    pub fn has_valid_move_in_column(&self, column: u8) -> (found: bool)
        requires
            column < 9,
            self@.last_move_on_board(),
        ensures
            found == exists|r: int| 0 <= r < 9 && #[trigger] self@.marked_move(r, column as int),
    {
        let bits = self.valid_moves_bitfield();
        let mut row: u8 = 0;
        while row < 9
            invariant
                column < 9,
                row <= 9,
                self@.marks_valid_moves(bits),
                forall|r: int| 0 <= r < row ==> !#[trigger] self@.marked_move(r, column as int),
            decreases 9 - row,
        {
            let pos = (row * 9 + column) as u128;
            if (bits >> pos) & 1 == 1 {
                assert(bit128(bits, row * 9 + column) == 1);
                assert(self@.marked_move(row as int, column as int));
                return true;
            }
            assert(bit128(bits, row * 9 + column) != 1);
            row += 1;
        }
        false
    }

    /// Create a mask where there are only 1s over the `18` bits for the u32 row
    /// with the remaining `14` being 0s to zero-out the row metadata.
    pub fn get_row_cells(&self, row: u8) -> (cells: u32)
        requires
            row < 9,
        ensures
            cells == self.main_board[row as int] & 0x3ffff,
    {
        let bit = 1u32 << 18;
        assert(bit == 0x40000) by (bit_vector)
            requires
                bit == 1u32 << 18,
        ;
        let mask = bit - 1;
        self.main_board[row as usize] & mask
    }
}

/// The character of decimal digit `d`.
pub open spec fn digit_char(d: nat) -> char {
    if d == 0 {
        '0'
    } else if d == 1 {
        '1'
    } else if d == 2 {
        '2'
    } else if d == 3 {
        '3'
    } else if d == 4 {
        '4'
    } else if d == 5 {
        '5'
    } else if d == 6 {
        '6'
    } else if d == 7 {
        '7'
    } else if d == 8 {
        '8'
    } else {
        '9'
    }
}

/// `n` written in decimal, most significant digit first, without leading
/// zeros.
pub open spec fn decimal(n: nat) -> Seq<char>
    decreases n,
{
    if n < 10 {
        seq![digit_char(n)]
    } else {
        decimal(n / 10) + seq![digit_char(n % 10)]
    }
}

/// The first `n` rows in decimal, each followed by a colon.
pub open spec fn rows_record(rows: Seq<u32>, n: nat) -> Seq<char>
    decreases n,
{
    if n == 0 {
        Seq::empty()
    } else {
        rows_record(rows, (n - 1) as nat) + decimal(rows[n - 1] as nat) + seq![':']
    }
}

impl BoardState {
    /// The board as text: its nine rows, the last move's row and column and
    /// the win-count byte, in decimal and separated by colons.
    pub open spec fn record(self) -> Seq<char> {
        rows_record(self.rows, 9) + decimal(self.last_move.0 as nat) + seq![':'] + decimal(
            self.last_move.1 as nat,
        ) + seq![':'] + decimal(self.wins as nat)
    }
}

/// The text of decimal digit `d`.
fn digit_text(d: u32) -> (text: &'static str)
    requires
        d < 10,
    ensures
        text@ == seq![digit_char(d as nat)],
{
    proof {
        reveal_strlit("0");
        reveal_strlit("1");
        reveal_strlit("2");
        reveal_strlit("3");
        reveal_strlit("4");
        reveal_strlit("5");
        reveal_strlit("6");
        reveal_strlit("7");
        reveal_strlit("8");
        reveal_strlit("9");
    }
    match d {
        0 => "0",
        1 => "1",
        2 => "2",
        3 => "3",
        4 => "4",
        5 => "5",
        6 => "6",
        7 => "7",
        8 => "8",
        _ => "9",
    }
}

/// Appends `n` in decimal.
fn push_decimal(out: &mut String, n: u32)
    ensures
        final(out)@ == old(out)@ + decimal(n as nat),
    decreases n,
{
    if n >= 10 {
        push_decimal(out, n / 10);
    }
    out.append(digit_text(n % 10));
    assert(final(out)@ =~= old(out)@ + decimal(n as nat));
}

impl Board {
    /// The board as text, as `String::from` gives it: each row, then the last
    /// move's row and column and the win-count byte, in decimal and separated
    /// by colons.
    pub fn to_record_string(&self) -> (text: String)
        ensures
            text@ == self@.record(),
    {
        let mut text = String::new();
        let mut i: usize = 0;
        while i < 9
            invariant
                i <= 9,
                text@ == rows_record(self@.rows, i as nat),
            decreases 9 - i,
        {
            push_decimal(&mut text, self.main_board[i]);
            text.append(":");
            proof {
                reveal_strlit(":");
            }
            i += 1;
        }
        push_decimal(&mut text, self.last_move.0 as u32);
        text.append(":");
        push_decimal(&mut text, self.last_move.1 as u32);
        text.append(":");
        push_decimal(&mut text, self.xo_miniboard_win_count as u32);
        proof {
            reveal_strlit(":");
        }
        text
    }
}

} // verus!
