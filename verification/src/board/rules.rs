//! The rules of the game: which moves are valid, when a miniboard is won or
//! drawn, and when the whole game is.
use vstd::prelude::*;

use super::bits::{field, lemma_line_equal, lemma_line_mask, lemma_or_bit128};
use super::flag;
use super::iterator::{moves_from, ValidMoveIterator};
use super::wellformed::{indicator, lemma_sum_ext, sum_to};
use super::{lemma_meta_keeps_cells, lemma_with_cell, Board, BoardState};

verus! {

/// The eight three-in-a-line patterns of a 3x3 grid as `(row, column)` triples:
/// three rows, three columns and the two diagonals.
pub const WINNING_LINES: [[(u8, u8); 3]; 8] = [
    [(0, 0), (0, 1), (0, 2)],
    [(1, 0), (1, 1), (1, 2)],
    [(2, 0), (2, 1), (2, 2)],
    [(0, 0), (1, 0), (2, 0)],
    [(0, 1), (1, 1), (2, 1)],
    [(0, 2), (1, 2), (2, 2)],
    [(0, 0), (1, 1), (2, 2)],
    [(0, 2), (1, 1), (2, 0)],
];

/// Row `row` and column `column` of the `k`-th point of winning line `line`.
pub open spec fn line_point(line: int, k: int) -> (int, int) {
    (WINNING_LINES[line][k].0 as int, WINNING_LINES[line][k].1 as int)
}

/// Bit `j` of a 128-bit field.
pub open spec fn bit128(bits: u128, j: int) -> u128 {
    (bits >> j as u128) & 1
}

/// Zero has no bit set, and a bit is zero or one.
pub proof fn lemma_zero_bits128()
    ensures
        0u128 >> 81u128 == 0,
        forall|j: int| 0 <= j < 128 ==> #[trigger] bit128(0u128, j) == 0,
{
    assert(forall|j: u128| j < 128 ==> (0u128 >> j) & 1 == 0) by (bit_vector);
    assert(0u128 >> 81u128 == 0) by (bit_vector);
}

proof fn lemma_bit128_bound(x: u128, j: u128)
    by (bit_vector)
    ensures
        (x >> j) & 1 <= 1,
{
}

/// A bitfield that marks the valid moves lists them in the same order.
pub proof fn lemma_marked_moves_from(s: BoardState, bits: u128, i: int)
    requires
        0 <= i,
        s.marks_valid_moves(bits),
    ensures
        moves_from(bits, i) == s.marked_moves_from(i),
    decreases 81 - i,
{
    if i < 81 {
        lemma_marked_moves_from(s, bits, i + 1);
        let r = i / 9;
        let c = i % 9;
        assert(r * 9 + c == i);
        assert(bit128(bits, r * 9 + c) <= 1) by {
            lemma_bit128_bound(bits, i as u128);
        }
    }
}

/// Every listed move is a marked move on the board.
pub proof fn lemma_marked_moves_are_marked(s: BoardState, i: int)
    ensures
        forall|k: int|
            0 <= k < s.marked_moves_from(i).len() ==> {
                let (r, c) = #[trigger] s.marked_moves_from(i)[k];
                &&& r < 9
                &&& c < 9
                &&& s.marked_move(r as int, c as int)
            },
    decreases 81 - i,
{
    if 0 <= i < 81 {
        lemma_marked_moves_are_marked(s, i + 1);
        let rest = s.marked_moves_from(i + 1);
        if s.marked_move(i / 9, i % 9) {
            assert forall|k: int| 0 <= k < s.marked_moves_from(i).len() implies {
                let (r, c) = #[trigger] s.marked_moves_from(i)[k];
                &&& r < 9
                &&& c < 9
                &&& s.marked_move(r as int, c as int)
            } by {
                if k > 0 {
                    assert(s.marked_moves_from(i)[k] == rest[k - 1]);
                }
            }
        }
    }
}

/// Every winning line is made of three distinct points of the 3x3 grid.
pub proof fn lemma_winning_lines_shape()
    ensures
        forall|i: int, k: int|
            0 <= i < 8 && 0 <= k < 3 ==> 0 <= #[trigger] line_point(i, k).0 < 3 && 0
                <= line_point(i, k).1 < 3,
        forall|i: int|
            0 <= i < 8 ==> #[trigger] line_point(i, 0) != line_point(i, 1) && line_point(i, 0)
                != line_point(i, 2) && line_point(i, 1) != line_point(i, 2),
{
}

impl BoardState {
    /// The last move lies on the board.
    pub open spec fn last_move_on_board(self) -> bool {
        self.last_move.0 < 9 && self.last_move.1 < 9
    }

    /// The miniboard that cell `(row, column)` lies in.
    pub open spec fn miniboard_of(row: int, column: int) -> int {
        (row / 3) * 3 + column / 3
    }

    /// The miniboard that a move to `(row, column)` sends the next player to.
    pub open spec fn corresponding_miniboard(row: int, column: int) -> int {
        column % 3 + (row % 3) * 3
    }

    /// No move has been made yet: the cell of the last move is empty.
    pub open spec fn is_first_move(self) -> bool {
        self.last_cell() == 0
    }

    /// A move to `(row, column)` is valid when its cell is empty and its
    /// miniboard contestable, and, once a move has been made, that miniboard
    /// is the one the last move sends to, or that one is decided.
    pub open spec fn valid_move(self, row: int, column: int) -> bool {
        if self.is_first_move() {
            self.status(Self::miniboard_of(row, column)) == 0 && self.cell(row, column) == 0
        } else {
            let miniboard = Self::miniboard_of(row, column);
            let corresponding = Self::corresponding_miniboard(
                self.last_move.0 as int,
                self.last_move.1 as int,
            );
            let empty = self.cell(row, column) == 0;
            if self.status(miniboard) != 0 {
                false
            } else if miniboard != corresponding {
                self.status(corresponding) != 0 && empty
            } else {
                empty
            }
        }
    }

    /// The moves that the valid-move bitfield marks: when the last move sends
    /// to a contestable miniboard, its empty cells; otherwise (and before the
    /// first move) every empty cell of a contestable miniboard.
    pub open spec fn marked_move(self, row: int, column: int) -> bool {
        let corresponding = Self::corresponding_miniboard(
            self.last_move.0 as int,
            self.last_move.1 as int,
        );
        if !self.is_first_move() && self.status(corresponding) == 0 {
            Self::miniboard_of(row, column) == corresponding && self.cell(row, column) == 0
        } else {
            self.status(Self::miniboard_of(row, column)) == 0 && self.cell(row, column) == 0
        }
    }

    /// `bits` has bit `row * 9 + column` set exactly for the marked moves, and
    /// no bit at or above 81.
    pub open spec fn marks_valid_moves(self, bits: u128) -> bool {
        &&& bits >> 81 == 0
        &&& forall|r: int, c: int|
            0 <= r < 9 && 0 <= c < 9 ==> (#[trigger] bit128(bits, r * 9 + c) == 1) == self.marked_move(r, c)
    }

    /// The marked moves `(j / 9, j % 9)` with `i <= j < 81`, in increasing
    /// order of `j`.
    pub open spec fn marked_moves_from(self, i: int) -> Seq<(u8, u8)>
        decreases 81 - i,
    {
        if i < 0 || i >= 81 {
            Seq::empty()
        } else if self.marked_move(i / 9, i % 9) {
            seq![((i / 9) as u8, (i % 9) as u8)] + self.marked_moves_from(i + 1)
        } else {
            self.marked_moves_from(i + 1)
        }
    }

    /// The marked moves in row-major order: the moves that `valid_moves` yields.
    pub open spec fn marked_moves(self) -> Seq<(u8, u8)> {
        self.marked_moves_from(0)
    }

    /// Winning line `line` of the big board passes through `miniboard`.
    pub open spec fn line_through(line: int, miniboard: int) -> bool {
        exists|k: int| 0 <= k < 3 && #[trigger] line_point(line, k) == (miniboard / 3, miniboard % 3)
    }

    /// `player` has won the three miniboards of winning line `line` of the big board.
    pub open spec fn board_line_held(self, line: int, player: u8) -> bool {
        &&& self.status(line_point(line, 0).0 * 3 + line_point(line, 0).1) == player
        &&& self.status(line_point(line, 1).0 * 3 + line_point(line, 1).1) == player
        &&& self.status(line_point(line, 2).0 * 3 + line_point(line, 2).1) == player
    }

    /// The game's status can be computed without a failed check: the last move
    /// is on the board and, if its miniboard is decided, was made by X or O.
    pub open spec fn can_score_game(self) -> bool {
        &&& self.last_move_on_board()
        &&& self.status(Self::miniboard_of(self.last_move.0 as int, self.last_move.1 as int)) != 0
            ==> (self.last_cell() == 1 || self.last_cell() == 2)
    }

    /// The status of the game: contestable while the last move's miniboard is;
    /// otherwise won by the last player when they have won more than six
    /// miniboards or a line of miniboards through the last one; otherwise
    /// contestable while any miniboard is, and drawn when none is.
    pub open spec fn game_status(self) -> u8 {
        let player = self.last_cell();
        let last = Self::miniboard_of(self.last_move.0 as int, self.last_move.1 as int);
        if self.status(last) == 0 {
            0
        } else if self.win_count(player) > 6 {
            player
        } else if exists|line: int|
            0 <= line < 8 && Self::line_through(line, last) && #[trigger] self.board_line_held(
                line,
                player,
            ) {
            player
        } else if exists|m: int| 0 <= m < 9 && #[trigger] self.status(m) == 0 {
            0
        } else {
            3
        }
    }

    /// `player` holds all three cells of winning line `line` in `miniboard`.
    pub open spec fn line_held(self, miniboard: int, line: int, player: u8) -> bool {
        &&& self.mini_cell(miniboard, line_point(line, 0).0, line_point(line, 0).1) == player
        &&& self.mini_cell(miniboard, line_point(line, 1).0, line_point(line, 1).1) == player
        &&& self.mini_cell(miniboard, line_point(line, 2).0, line_point(line, 2).1) == player
    }

    /// `player` holds a winning line in `miniboard`.
    pub open spec fn has_winning_line(self, miniboard: int, player: u8) -> bool {
        exists|line: int| 0 <= line < 8 && #[trigger] self.line_held(miniboard, line, player)
    }

    /// Settling `miniboard` can be done without a failed check: it is
    /// already decided, or the last move was made by X or O and winning the
    /// miniboard would not lift that player's win count past 7.
    pub open spec fn can_settle(self, miniboard: int) -> bool {
        self.status(miniboard) != 0 || {
            let player = self.last_cell();
            let count = self.move_count(miniboard, player);
            &&& self.last_move_on_board()
            &&& player == 1 || player == 2
            &&& !(3 <= count && (count > 6 || self.has_winning_line(miniboard, player))
                && self.win_count(player) == 7)
        }
    }

    /// Whether `miniboard` is decided once settled: it already was, or the last
    /// player has more than six cells in it, holds a winning line there with at
    /// least three cells, or all nine cells are taken.
    pub open spec fn settles(self, miniboard: int) -> bool {
        self.status(miniboard) != 0 || {
            let player = self.last_cell();
            let count = self.move_count(miniboard, player);
            3 <= count && (count > 6 || self.has_winning_line(miniboard, player)
                || self.total_move_count(miniboard) == 9)
        }
    }

    /// The board once `miniboard` is settled: a decided miniboard stays as it
    /// is; otherwise the last player wins it (and one more miniboard to their
    /// win count) outright with more than six cells in it or with a winning
    /// line, or nine moves there draw it; below three cells nothing changes.
    pub open spec fn settled(self, miniboard: int) -> BoardState {
        if self.status(miniboard) != 0 {
            self
        } else {
            let player = self.last_cell();
            let count = self.move_count(miniboard, player);
            if count < 3 {
                self
            } else if count > 6 || self.has_winning_line(miniboard, player) {
                self.with_status(miniboard, player).with_win_count(
                    player,
                    (self.win_count(player) + 1) as u8,
                )
            } else if self.total_move_count(miniboard) == 9 {
                self.with_status(miniboard, 3)
            } else {
                self
            }
        }
    }
}

/// Builds the eight winning lines of a 3x3 grid: the three rows, the three
/// columns, then the two diagonals.
pub fn build_winning_lines() -> (lines: [[(u8, u8); 3]; 8])
    ensures
        lines == WINNING_LINES,
{
    let mut row_line = [(0u8, 0u8); 9];
    let mut y = 0u8;
    while y < 3
        invariant
            y <= 3,
            forall|i: int| 0 <= i < 3 * y ==> #[trigger] row_line[i] == ((i / 3) as u8, (i % 3) as u8),
        decreases 3 - y,
    {
        let mut x = 0u8;
        while x < 3
            invariant
                y < 3,
                x <= 3,
                forall|i: int| 0 <= i < 3 * y + x ==> #[trigger] row_line[i] == ((i / 3) as u8, (i % 3) as u8),
            decreases 3 - x,
        {
            let i = (x + y * 3) as usize;
            row_line[i] = (y, x);
            x += 1;
        }
        y += 1;
    }

    let mut col_line = [(0u8, 0u8); 9];
    let mut y: usize = 0;
    while y < 9
        invariant
            y <= 9,
            forall|i: int| 0 <= i < 9 ==> #[trigger] row_line[i] == ((i / 3) as u8, (i % 3) as u8),
            forall|i: int| 0 <= i < y ==> #[trigger] col_line[i] == ((i % 3) as u8, (i / 3) as u8),
        decreases 9 - y,
    {
        let (row, col) = row_line[y];
        col_line[y] = (col, row);
        y += 1;
    }

    let diagonal_line: [(u8, u8); 6] = [(0, 0), (1, 1), (2, 2), (0, 2), (1, 1), (2, 0)];

    let mut winning_lines = [[(0u8, 0u8); 3]; 8];
    let mut y: usize = 0;
    while y < 3
        invariant
            y <= 3,
            forall|i: int| 0 <= i < 9 ==> #[trigger] row_line[i] == ((i / 3) as u8, (i % 3) as u8),
            forall|i: int| 0 <= i < 9 ==> #[trigger] col_line[i] == ((i % 3) as u8, (i / 3) as u8),
            forall|i: int| 0 <= i < y ==> #[trigger] winning_lines[i] == WINNING_LINES[i],
            forall|i: int| 3 <= i < 3 + y ==> #[trigger] winning_lines[i] == WINNING_LINES[i],
        decreases 3 - y,
    {
        let i = y * 3;
        winning_lines[y] = [row_line[i], row_line[i + 1], row_line[i + 2]];
        winning_lines[y + 3] = [col_line[i], col_line[i + 1], col_line[i + 2]];
        assert(winning_lines[y as int] =~= WINNING_LINES[y as int]);
        assert(winning_lines[y + 3] =~= WINNING_LINES[y + 3]);
        y += 1;
    }

    winning_lines[6] = [diagonal_line[0], diagonal_line[1], diagonal_line[2]];
    winning_lines[7] = [diagonal_line[3], diagonal_line[4], diagonal_line[5]];
    assert(winning_lines[6] =~= WINNING_LINES[6]);
    assert(winning_lines[7] =~= WINNING_LINES[7]);
    assert(winning_lines =~= WINNING_LINES);

    winning_lines
}

/// The index `row * 3 + column` of the `k`-th point of winning line `line`.
pub open spec fn line_index(line: int, k: int) -> int {
    line_point(line, k).0 * 3 + line_point(line, k).1
}

/// `held` marks all three points of winning line `line` of a 3x3 grid.
pub open spec fn grid_line_held(held: spec_fn(int) -> bool, line: int) -> bool {
    &&& held(line_index(line, 0))
    &&& held(line_index(line, 1))
    &&& held(line_index(line, 2))
}

/// Seven of the nine points of a 3x3 grid always take in a whole winning
/// line.
pub proof fn lemma_seven_points_hold_a_line(held: spec_fn(int) -> bool)
    requires
        sum_to(9, |k: int| indicator(held(k))) >= 7,
    ensures
        exists|line: int| 0 <= line < 8 && #[trigger] grid_line_held(held, line),
{
    reveal_with_fuel(sum_to, 10);
    assert(line_index(0, 0) == 0 && line_index(0, 1) == 1 && line_index(0, 2) == 2);
    assert(line_index(1, 0) == 3 && line_index(1, 1) == 4 && line_index(1, 2) == 5);
    assert(line_index(2, 0) == 6 && line_index(2, 1) == 7 && line_index(2, 2) == 8);
    assert(line_index(3, 0) == 0 && line_index(3, 1) == 3 && line_index(3, 2) == 6);
    assert(line_index(4, 0) == 1 && line_index(4, 1) == 4 && line_index(4, 2) == 7);
    assert(line_index(5, 0) == 2 && line_index(5, 1) == 5 && line_index(5, 2) == 8);
    assert(line_index(6, 0) == 0 && line_index(6, 1) == 4 && line_index(6, 2) == 8);
    assert(line_index(7, 0) == 2 && line_index(7, 1) == 4 && line_index(7, 2) == 6);
    if grid_line_held(held, 0) {
    } else if grid_line_held(held, 1) {
    } else if grid_line_held(held, 2) {
    } else if grid_line_held(held, 3) {
    } else if grid_line_held(held, 4) {
    } else if grid_line_held(held, 5) {
    } else if grid_line_held(held, 6) {
    } else if grid_line_held(held, 7) {
    } else {
        assert(false);
    }
}

/// Miniboards `a`, `b` and `c` are three distinct miniboards of one row,
/// one column or one diagonal of the big board.
pub open spec fn in_a_line(a: int, b: int, c: int) -> bool {
    &&& 0 <= a < 9 && 0 <= b < 9 && 0 <= c < 9
    &&& a != b && b != c && a != c
    &&& {
        ||| a / 3 == b / 3 && b / 3 == c / 3
        ||| a % 3 == b % 3 && b % 3 == c % 3
        ||| a % 4 == 0 && b % 4 == 0 && c % 4 == 0
        ||| (a == 2 || a == 4 || a == 6) && (b == 2 || b == 4 || b == 6) && (c == 2 || c == 4
            || c == 6)
    }
}

/// Winning the last of three miniboards in a line wins the game: when the
/// last move, by `player`, was made in miniboard `a` and `player` holds `a`
/// and the two other miniboards `b` and `c` of a row, column or diagonal,
/// the game is `player`'s, wherever `a` lies in that line.
pub proof fn lemma_line_of_miniboards_wins(s: BoardState, a: int, b: int, c: int, player: u8)
    requires
        player == 1 || player == 2,
        s.last_move_on_board(),
        s.last_cell() == player,
        BoardState::miniboard_of(s.last_move.0 as int, s.last_move.1 as int) == a,
        in_a_line(a, b, c),
        s.status(a) == player,
        s.status(b) == player,
        s.status(c) == player,
    ensures
        s.game_status() == player,
{
    assert(line_point(0, 0) == (0int, 0int) && line_point(0, 1) == (0int, 1int) && line_point(0, 2) == (0int, 2int));
    assert(line_point(1, 0) == (1int, 0int) && line_point(1, 1) == (1int, 1int) && line_point(1, 2) == (1int, 2int));
    assert(line_point(2, 0) == (2int, 0int) && line_point(2, 1) == (2int, 1int) && line_point(2, 2) == (2int, 2int));
    assert(line_point(3, 0) == (0int, 0int) && line_point(3, 1) == (1int, 0int) && line_point(3, 2) == (2int, 0int));
    assert(line_point(4, 0) == (0int, 1int) && line_point(4, 1) == (1int, 1int) && line_point(4, 2) == (2int, 1int));
    assert(line_point(5, 0) == (0int, 2int) && line_point(5, 1) == (1int, 2int) && line_point(5, 2) == (2int, 2int));
    assert(line_point(6, 0) == (0int, 0int) && line_point(6, 1) == (1int, 1int) && line_point(6, 2) == (2int, 2int));
    assert(line_point(7, 0) == (0int, 2int) && line_point(7, 1) == (1int, 1int) && line_point(7, 2) == (2int, 0int));
    if s.win_count(player) > 6 {
    } else {
        let held = |m: int| s.status(m) == player;
        let line: int = if a / 3 == b / 3 && b / 3 == c / 3 {
            a / 3
        } else if a % 3 == b % 3 && b % 3 == c % 3 {
            3 + a % 3
        } else if a % 4 == 0 && b % 4 == 0 && c % 4 == 0 {
            6
        } else {
            7
        };
        assert(0 <= line < 8);
        assert(line_point(line, 0).0 * 3 + line_point(line, 0).1 == a || line_point(line, 0).0 * 3
            + line_point(line, 0).1 == b || line_point(line, 0).0 * 3 + line_point(line, 0).1 == c);
        assert(line_point(line, 1).0 * 3 + line_point(line, 1).1 == a || line_point(line, 1).0 * 3
            + line_point(line, 1).1 == b || line_point(line, 1).0 * 3 + line_point(line, 1).1 == c);
        assert(line_point(line, 2).0 * 3 + line_point(line, 2).1 == a || line_point(line, 2).0 * 3
            + line_point(line, 2).1 == b || line_point(line, 2).0 * 3 + line_point(line, 2).1 == c);
        assert(s.board_line_held(line, player));
        let k: int = if line_point(line, 0) == (a / 3, a % 3) {
            0
        } else if line_point(line, 1) == (a / 3, a % 3) {
            1
        } else {
            2
        };
        assert(line_point(line, k) == (a / 3, a % 3));
        assert(BoardState::line_through(line, a));
    }
}

/// A player who has won at least seven miniboards holds a whole winning line
/// of them, so the game is theirs.
pub proof fn lemma_seven_miniboards_hold_a_line(s: BoardState, player: u8)
    requires
        sum_to(9, |m: int| indicator(s.status(m) == player)) >= 7,
    ensures
        exists|line: int| 0 <= line < 8 && #[trigger] s.board_line_held(line, player),
{
    let held = |m: int| s.status(m) == player;
    lemma_sum_ext(9, |m: int| indicator(held(m)), |m: int| indicator(s.status(m) == player));
    lemma_seven_points_hold_a_line(held);
    let line = choose|line: int| 0 <= line < 8 && #[trigger] grid_line_held(held, line);
    assert(s.board_line_held(line, player));
}

/// After `player` moves to `(row, column)`, that cell is the last move and
/// holds `player`, whatever the board held before.
pub proof fn lemma_played_last(s: BoardState, row: int, column: int, player: u8)
    requires
        s.rows.len() == 9,
        0 <= row < 9,
        0 <= column < 9,
        player == 1 || player == 2,
    ensures
        s.played(row, column, player).rows.len() == 9,
        s.played(row, column, player).last_move == (row as u8, column as u8),
        s.played(row, column, player).last_cell() == player,
{
    let mb = BoardState::miniboard_of(row, column);
    lemma_with_cell(s, row, column, player);
    let s1 = s.with_cell(row, column, player).with_last_move(row as u8, column as u8);
    assert(s1.cell(row, column) == player);
    let s2 = s1.with_move_count(mb, player, (s1.move_count(mb, player) + 1) as u8);
    lemma_meta_keeps_cells(s1, mb, BoardState::count_pos(player), 15, (s1.move_count(mb, player) + 1) as u8);
    let u = s2.with_total_move_count(mb, (s2.total_move_count(mb) + 1) as u8);
    lemma_meta_keeps_cells(s2, mb, 28, 15, (s2.total_move_count(mb) + 1) as u8);
    assert(u == s.placed(row, column, player));
    assert(u.cell(row, column) == player);
    lemma_meta_keeps_cells(u, mb, 18, 3, player);
    lemma_meta_keeps_cells(u, mb, 18, 3, 3);
    let v = u.with_status(mb, player);
    assert(v.cell(row, column) == player);
}

/// A move sends the opponent to the miniboard that corresponds to the cell
/// played: while that miniboard is contestable, the valid moves are its
/// empty cells; once it is won or drawn, they are the empty cells of every
/// contestable miniboard.
pub proof fn lemma_move_sends_to_corresponding(
    s: BoardState,
    row: int,
    column: int,
    player: u8,
    next_row: int,
    next_column: int,
)
    requires
        s.rows.len() == 9,
        0 <= row < 9,
        0 <= column < 9,
        player == 1 || player == 2,
        0 <= next_row < 9,
        0 <= next_column < 9,
    ensures
        ({
            let t = s.played(row, column, player);
            let sent_to = BoardState::corresponding_miniboard(row, column);
            let target = BoardState::miniboard_of(next_row, next_column);
            t.valid_move(next_row, next_column) == if t.status(sent_to) == 0 {
                target == sent_to && t.cell(next_row, next_column) == 0
            } else {
                t.status(target) == 0 && t.cell(next_row, next_column) == 0
            }
        }),
{
    lemma_played_last(s, row, column, player);
}

/// The valid-move bitfield marks exactly the moves that `is_valid_move`
/// accepts.
pub proof fn lemma_marked_iff_valid(s: BoardState, row: int, column: int)
    requires
        0 <= row < 9,
        0 <= column < 9,
    ensures
        s.marked_move(row, column) == s.valid_move(row, column),
{
}

/// On a new board every move is valid, and the bitfield marks every cell.
pub proof fn lemma_new_board_moves(row: int, column: int)
    requires
        0 <= row < 9,
        0 <= column < 9,
    ensures
        BoardState::initial().valid_move(row, column),
        BoardState::initial().marked_move(row, column),
{
    let s = BoardState::initial();
    lemma_zero_field(0);
    lemma_zero_field((column * 2) as u32);
    lemma_zero_field(18);
    assert(s.cell(row, column) == 0);
    assert(s.status(BoardState::miniboard_of(row, column)) == 0);
}

proof fn lemma_zero_field(pos: u32)
    by (bit_vector)
    ensures
        (0u32 >> pos) & 3 == 0,
{
}

impl Board {
    /// Returns if a `move` is `valid` or `invalid`
    /// validate moves by ensuring that invalidity if:
    /// * cell is occupied
    /// * miniboard is 'uncontestable' i.e. won by X or O, or drawn
    /// * miniboard coords don't correspond to last move
    /// * exception: corresponding board is uncontestable -- then we play anywhere else where a cells is
    ///   empty, and its board is contestable
    pub fn is_valid_move(&self, row: u8, column: u8) -> (valid: bool)
        requires
            row < 9,
            column < 9,
            self@.last_move_on_board(),
        ensures
            valid == self@.valid_move(row as int, column as int),
    {
        if self.is_first_move() {
            return self.get_status_of(Self::move_miniboard(row, column)) == flag::STATUS_CONTESTABLE
                && self.get_cell(row, column) == flag::EMPTY;
        }

        let (last_row, last_column) = self.last_move;
        let miniboard = Self::move_miniboard(row, column);
        let corresponding_miniboard = Self::move_corresponding_miniboard(last_row, last_column);

        let cell_is_empty = self.get_cell(row, column) == flag::EMPTY;

        if self.get_status_of(miniboard) != flag::STATUS_CONTESTABLE {
            return false;
        }

        // if the miniboard doesn't correspond with the last move...
        if miniboard != corresponding_miniboard {
            // and the corresponding miniboard is uncontestable, whereas the selected miniboard is
            // and the cell is empty, allow the exception
            if self.get_status_of(corresponding_miniboard) != flag::STATUS_CONTESTABLE
                && cell_is_empty
            {
                return true;
            }

            return false;
        }

        if !cell_is_empty {
            return false;
        }

        true
    }

    /// Generates a bitfield from the valid moves on the miniboards
    /// `1` == valid and `0` == invalid
    pub fn valid_moves_bitfield(&self) -> (bits: u128)
        requires
            self@.last_move_on_board(),
        ensures
            self@.marks_valid_moves(bits),
    {
        let mut moves_validity_bitfield = 0u128;

        // if corresponding is uncontestable, we fully validate the whole board
        // otherwise, we check for valid moves only in the corresponding miniboard
        let (last_row, last_column) = self.last_move;
        let corresponding_mb = Self::move_corresponding_miniboard(last_row, last_column);
        proof {
            lemma_zero_bits128();
        }

        if !self.is_first_move() && self.get_status_of(corresponding_mb) == flag::STATUS_CONTESTABLE
        {
            let (starting_row, starting_column) =
                (corresponding_mb / 3 * 3, corresponding_mb % 3 * 3);
            let mut row = starting_row;
            while row < starting_row + 3
                invariant
                    corresponding_mb < 9,
                    starting_row == corresponding_mb / 3 * 3,
                    starting_column == corresponding_mb % 3 * 3,
                    starting_row <= row <= starting_row + 3,
                    !self@.is_first_move(),
                    self@.status(corresponding_mb as int) == 0,
                    corresponding_mb == BoardState::corresponding_miniboard(self.last_move.0 as int, self.last_move.1 as int),
                    moves_validity_bitfield >> 81 == 0,
                    forall|r: int, c: int|
                        0 <= r < 9 && 0 <= c < 9 ==> (#[trigger] bit128(moves_validity_bitfield, r * 9 + c) == 1)
                            == (self@.marked_move(r, c) && r < row),
                decreases starting_row + 3 - row,
            {
                let mut column = starting_column;
                while column < starting_column + 3
                    invariant
                        corresponding_mb < 9,
                        starting_row == corresponding_mb / 3 * 3,
                        starting_column == corresponding_mb % 3 * 3,
                        starting_row <= row < starting_row + 3,
                        starting_column <= column <= starting_column + 3,
                        !self@.is_first_move(),
                        self@.status(corresponding_mb as int) == 0,
                        corresponding_mb == BoardState::corresponding_miniboard(self.last_move.0 as int, self.last_move.1 as int),
                        moves_validity_bitfield >> 81 == 0,
                        forall|r: int, c: int|
                            0 <= r < 9 && 0 <= c < 9 ==> (#[trigger] bit128(moves_validity_bitfield, r * 9 + c) == 1)
                                == (self@.marked_move(r, c) && (r < row || (r == row && c < column))),
                    decreases starting_column + 3 - column,
                {
                    let valid = self.get_cell(row, column) == flag::EMPTY;
                    let offset = (column + row * 9) as u128;
                    let ghost old_bits = moves_validity_bitfield;
                    let v = valid as u128;
                    moves_validity_bitfield |= v << offset;
                    proof {
                        assert forall|r: int, c: int|
                            0 <= r < 9 && 0 <= c < 9 implies (#[trigger] bit128(moves_validity_bitfield, r * 9 + c) == 1)
                                == (self@.marked_move(r, c) && (r < row || (r == row && c < column + 1))) by {
                            lemma_or_bit128(old_bits, v, offset as u128, (r * 9 + c) as u128);
                            if r == row && c == column {
                                assert(bit128(old_bits, r * 9 + c) != 1);
                                assert(bit128(old_bits, r * 9 + c) == 0);
                                assert(offset == r * 9 + c);
                                assert(bit128(moves_validity_bitfield, r * 9 + c) == v);
                                assert(valid == self@.marked_move(r, c));
                            } else {
                                assert(r * 9 + c != offset);
                                assert(bit128(moves_validity_bitfield, r * 9 + c) == bit128(old_bits, r * 9 + c));
                            }
                        }
                        lemma_or_bit128(old_bits, v, offset as u128, 0);
                    }
                    column += 1;
                }
                proof {
                    assert forall|r: int, c: int|
                        0 <= r < 9 && 0 <= c < 9 implies (#[trigger] bit128(moves_validity_bitfield, r * 9 + c) == 1)
                            == (self@.marked_move(r, c) && r < row + 1) by {
                        if self@.marked_move(r, c) && r == row {
                            assert(c < starting_column + 3);
                        }
                    }
                }
                row += 1;
            }
            moves_validity_bitfield
        } else {
            let mut row: u8 = 0;
            while row < 9
                invariant
                    row <= 9,
                    self@.is_first_move() || self@.status(corresponding_mb as int) != 0,
                    corresponding_mb == BoardState::corresponding_miniboard(self.last_move.0 as int, self.last_move.1 as int),
                    moves_validity_bitfield >> 81 == 0,
                    forall|r: int, c: int|
                        0 <= r < 9 && 0 <= c < 9 ==> (#[trigger] bit128(moves_validity_bitfield, r * 9 + c) == 1)
                            == (self@.marked_move(r, c) && r < row),
                decreases 9 - row,
            {
                let mut column: u8 = 0;
                while column < 9
                    invariant
                        row < 9,
                        column <= 9,
                        self@.is_first_move() || self@.status(corresponding_mb as int) != 0,
                        corresponding_mb == BoardState::corresponding_miniboard(self.last_move.0 as int, self.last_move.1 as int),
                        moves_validity_bitfield >> 81 == 0,
                        forall|r: int, c: int|
                            0 <= r < 9 && 0 <= c < 9 ==> (#[trigger] bit128(moves_validity_bitfield, r * 9 + c) == 1)
                                == (self@.marked_move(r, c) && (r < row || (r == row && c < column))),
                    decreases 9 - column,
                {
                    // We know the corresponding_mb is uncontestable/invalid
                    // so, only check for the other two rules; contestable miniboard and empty cell
                    let valid = self.get_status_of(Self::move_miniboard(row, column))
                        == flag::STATUS_CONTESTABLE
                        && self.get_cell(row, column) == flag::EMPTY;

                    let offset = (column + row * 9) as u128;
                    let ghost old_bits = moves_validity_bitfield;
                    let v = valid as u128;
                    moves_validity_bitfield |= v << offset;
                    proof {
                        assert forall|r: int, c: int|
                            0 <= r < 9 && 0 <= c < 9 implies (#[trigger] bit128(moves_validity_bitfield, r * 9 + c) == 1)
                                == (self@.marked_move(r, c) && (r < row || (r == row && c < column + 1))) by {
                            lemma_or_bit128(old_bits, v, offset as u128, (r * 9 + c) as u128);
                            if r == row && c == column {
                                assert(bit128(old_bits, r * 9 + c) != 1);
                                assert(bit128(old_bits, r * 9 + c) == 0);
                                assert(offset == r * 9 + c);
                                assert(bit128(moves_validity_bitfield, r * 9 + c) == v);
                                assert(valid == self@.marked_move(r, c));
                            } else {
                                assert(r * 9 + c != offset);
                                assert(bit128(moves_validity_bitfield, r * 9 + c) == bit128(old_bits, r * 9 + c));
                            }
                        }
                        lemma_or_bit128(old_bits, v, offset as u128, 0);
                    }
                    column += 1;
                }
                row += 1;
            }

            moves_validity_bitfield
        }
    }

    /// Determine if there's a winner with `flag::STATUS_X_WIN` or `flag::STATUS_O_WIN`
    /// or neither through `flag::STATUS_DRAW` or `flag::STATUS_CONTESTABLE`
    pub fn calculate_game_status(&self) -> (status: u8)
        requires
            self@.can_score_game(),
        ensures
            status == self@.game_status(),
    {
        let (row, column) = self.last_move;
        let last_player = self.get_cell(row, column);
        let last_miniboard = Self::move_miniboard(row, column);
        let mb_status = self.get_status_of(last_miniboard);

        // If the miniboard's status is won by the last move that was just made
        // then check for board winning lines intersecting that miniboard
        // otherwise, exit because the game's state cannot change
        if mb_status == flag::STATUS_CONTESTABLE {
            return flag::STATUS_CONTESTABLE;
        }

        // cheap check because it's logically impossible to not win if you win 7 miniboards
        if self.get_miniboard_win_count_of(last_player) > 6 {
            return last_player;
        }

        // get winning lines intersecting with the last move's miniboard
        let last_mb_coords = (last_miniboard / 3, last_miniboard % 3);
        proof {
            lemma_winning_lines_shape();
        }
        let mut i: usize = 0;
        while i < 8
            invariant
                i <= 8,
                last_miniboard < 9,
                last_miniboard as int == BoardState::miniboard_of(row as int, column as int),
                last_mb_coords == (last_miniboard / 3, last_miniboard % 3),
                (row, column) == self.last_move,
                last_player == self@.last_cell(),
                last_player == 1 || last_player == 2,
                forall|j: int|
                    0 <= j < i && BoardState::line_through(j, last_miniboard as int)
                        ==> !#[trigger] self@.board_line_held(j, last_player),
            decreases 8 - i,
        {
            let line = WINNING_LINES[i];
            let (mb_row, mb_column) = last_mb_coords;
            let contains = (line[0].0 == mb_row && line[0].1 == mb_column) || (line[1].0 == mb_row
                && line[1].1 == mb_column) || (line[2].0 == mb_row && line[2].1 == mb_column);
            if contains {
                let (r0, c0) = line[0];
                let (r1, c1) = line[1];
                let (r2, c2) = line[2];
                let s0 = self.get_status_of(c0 + r0 * 3);
                let s1 = self.get_status_of(c1 + r1 * 3);
                let s2 = self.get_status_of(c2 + r2 * 3);
                let o0 = (c0 + r0 * 3) * 2;
                let o1 = (c1 + r1 * 3) * 2;
                let o2 = (c2 + r2 * 3) * 2;
                let statusbits = ((s0 as u32) << o0) | ((s1 as u32) << o1) | ((s2 as u32) << o2);
                let xoline = ((last_player as u32) << o0) | ((last_player as u32) << o1) | ((
                last_player as u32) << o2);
                let won = statusbits == xoline;
                proof {
                    lemma_line_equal(
                        s0 as u32,
                        s1 as u32,
                        s2 as u32,
                        o0 as u32,
                        o1 as u32,
                        o2 as u32,
                        last_player as u32,
                    );
                    assert(won == self@.board_line_held(i as int, last_player));
                }
                if won {
                    assert(BoardState::line_through(i as int, last_miniboard as int)) by {
                        if line[0].0 == mb_row && line[0].1 == mb_column {
                            assert(line_point(i as int, 0) == (last_miniboard as int / 3, last_miniboard as int % 3));
                        } else if line[1].0 == mb_row && line[1].1 == mb_column {
                            assert(line_point(i as int, 1) == (last_miniboard as int / 3, last_miniboard as int % 3));
                        } else {
                            assert(line_point(i as int, 2) == (last_miniboard as int / 3, last_miniboard as int % 3));
                        }
                    }
                    return last_player;
                }
            } else {
                assert(!BoardState::line_through(i as int, last_miniboard as int));
            }
            i += 1;
        }

        // draw checking -- 1 contestable board suffices as a contestable game technically
        let mut miniboard: u8 = 0;
        let ghost last = last_miniboard as int;
        assert(!exists|line: int|
            0 <= line < 8 && BoardState::line_through(line, last) && #[trigger] self@.board_line_held(
                line,
                last_player,
            ));
        while miniboard < 9
            invariant
                miniboard <= 9,
                last == BoardState::miniboard_of(self.last_move.0 as int, self.last_move.1 as int),
                last_player == self@.last_cell(),
                self@.status(last) != 0,
                self@.win_count(last_player) <= 6,
                !exists|line: int|
                    0 <= line < 8 && BoardState::line_through(line, last) && #[trigger] self@.board_line_held(
                        line,
                        last_player,
                    ),
                forall|m: int| 0 <= m < miniboard ==> #[trigger] self@.status(m) != 0,
            decreases 9 - miniboard,
        {
            let status = self.get_status_of(miniboard);
            if status == flag::STATUS_CONTESTABLE {
                return flag::STATUS_CONTESTABLE;
            }
            miniboard += 1;
        }

        // otherwise, it's drawn.
        flag::STATUS_DRAW
    }

    /// Returns if the first move has yet to be made
    /// Simply checks if the latest move made was `empty`, i.e. not `X` or `O`
    pub fn is_first_move(&self) -> (first: bool)
        requires
            self@.last_move_on_board(),
        ensures
            first == self@.is_first_move(),
    {
        let (last_row, last_column) = self.last_move;
        let last_cell = self.get_cell(last_row, last_column);

        last_cell == flag::EMPTY
    }

    /// Returns an iterator yielding valid `moves` as `(row, column)`
    pub fn valid_moves(&self) -> (moves: ValidMoveIterator)
        requires
            self@.last_move_on_board(),
        ensures
            self@.marks_valid_moves(moves.bitfield),
            moves.remaining() == self@.marked_moves(),
    {
        let bitfield = self.valid_moves_bitfield();
        proof {
            lemma_marked_moves_from(self@, bitfield, 0);
        }

        ValidMoveIterator::new(bitfield)
    }

    /// Returns a `bool` with `true` indicating the miniboard's status isn't `flag::STATUS_CONTESTABLE`
    /// Checks and calculates the miniboard's status based on any winning lines
    /// Short-circuits and stops as soon as any winning line is found
    pub fn calculate_miniboard_status(&mut self, miniboard: u8) -> (settles: bool)
        requires
            miniboard < 9,
            old(self)@.can_settle(miniboard as int),
        ensures
            final(self)@ == old(self)@.settled(miniboard as int),
            settles == old(self)@.settles(miniboard as int),
    {
        // Don't recheck/recalculate winning lines for an uncontestable (won/lost/drawn) miniboard
        if self.get_status_of(miniboard) != flag::STATUS_CONTESTABLE {
            return true;
        }

        let last_player = self.get_cell(self.last_move.0, self.last_move.1);

        // early exit miniboards that cannot be won/lost/drawn yet.
        let player_move_count = self.get_player_move_count_of(miniboard, last_player);
        if player_move_count < 3 {
            return false;
        }

        // cheap check because logically you auto-win a miniboard if you win 7 moves in it
        if player_move_count > 6 {
            self.set_status_of(miniboard, last_player);
            let wins = self.get_miniboard_win_count_of(last_player);
            self.set_miniboard_win_count_of(last_player, wins + 1);
            return true;
        }

        // Compare winning-line pattern masked miniboard cells to X and O wonline pattern
        let cells = self.get_miniboard_cells(miniboard);
        let ghost start = self@;
        proof {
            lemma_winning_lines_shape();
        }
        let mut i: usize = 0;
        while i < 8
            invariant
                i <= 8,
                miniboard < 9,
                self@ == start,
                start == old(self)@,
                start.packs_miniboard(cells, miniboard as int),
                last_player == start.last_cell(),
                last_player == 1 || last_player == 2,
                3 <= player_move_count <= 6,
                player_move_count == start.move_count(miniboard as int, last_player),
                start.status(miniboard as int) == 0,
                start.can_settle(miniboard as int),
                forall|j: int| 0 <= j < i ==> !#[trigger] start.line_held(miniboard as int, j, last_player),
            decreases 8 - i,
        {
            let line = WINNING_LINES[i];
            let o0 = (line[0].0 * 3 + line[0].1) * 2;
            let o1 = (line[1].0 * 3 + line[1].1) * 2;
            let o2 = (line[2].0 * 3 + line[2].1) * 2;

            // Create a mask to later get the cells for that winning line
            // Mask in those cells but as if X or O occupied those cells
            let line_mask = (0b11u32 << o0) | (0b11u32 << o1) | (0b11u32 << o2);
            let xo_wonline = ((last_player as u32) << o0) | ((last_player as u32) << o1) | ((
            last_player as u32) << o2);

            // If a line's cells are all the same, a winning line is formed
            let masked_line = cells & line_mask;
            let xowin = masked_line == xo_wonline;
            proof {
                let (r0, c0) = line_point(i as int, 0);
                let (r1, c1) = line_point(i as int, 1);
                let (r2, c2) = line_point(i as int, 2);
                assert(field(cells, ((r0 * 3 + c0) * 2) as u32, 3) == start.mini_cell(miniboard as int, r0, c0) as u32);
                assert(field(cells, ((r1 * 3 + c1) * 2) as u32, 3) == start.mini_cell(miniboard as int, r1, c1) as u32);
                assert(field(cells, ((r2 * 3 + c2) * 2) as u32, 3) == start.mini_cell(miniboard as int, r2, c2) as u32);
                lemma_line_mask(cells, o0 as u32, o1 as u32, o2 as u32, last_player as u32);
                assert(xowin == start.line_held(miniboard as int, i as int, last_player));
            }
            let status = (xowin as u8) * last_player;

            // Short-circuit and return early if a winning line is matched
            if status > flag::STATUS_CONTESTABLE {
                self.set_status_of(miniboard, status);
                let wins = self.get_miniboard_win_count_of(last_player);
                self.set_miniboard_win_count_of(last_player, wins + 1);
                return true;
            }
            i += 1;
        }

        // Reaching here means no winning lines were found
        // So, we check for a draw -- otherwise, it's still contestable
        let move_count = self.get_total_move_count_of(miniboard);
        if move_count == 9 {
            self.set_status_of(miniboard, flag::STATUS_DRAW);
            return true;
        }

        false
    }
}

} // verus!
