//! The consistency of a board reached by play: every cell holds X, O or
//! nothing, each miniboard's move counts count its cells, and each win
//! count counts the miniboards won; and the weaker condition under which a
//! search may play on from a board.
use vstd::prelude::*;

use super::rules::{
    lemma_played_last,
    grid_line_held, lemma_seven_points_hold_a_line, lemma_winning_lines_shape, line_index, line_point,
};
use super::{flag, lemma_with_cell, lemma_with_meta, lemma_with_win_count, Board, BoardState};

verus! {

/// One for `true`, zero for `false`.
pub open spec fn indicator(b: bool) -> int {
    if b {
        1
    } else {
        0
    }
}

/// `f(0) + f(1) + ... + f(n - 1)`.
pub open spec fn sum_to(n: int, f: spec_fn(int) -> int) -> int
    decreases n,
{
    if n <= 0 {
        0
    } else {
        sum_to(n - 1, f) + f(n - 1)
    }
}

/// A sum reads its terms below `n` only.
pub proof fn lemma_sum_ext(n: int, f: spec_fn(int) -> int, g: spec_fn(int) -> int)
    requires
        forall|k: int| 0 <= k < n ==> #[trigger] f(k) == g(k),
    ensures
        sum_to(n, f) == sum_to(n, g),
    decreases n,
{
    if n > 0 {
        lemma_sum_ext(n - 1, f, g);
    }
}

/// Changing one term changes the sum by the same amount.
pub proof fn lemma_sum_change(n: int, f: spec_fn(int) -> int, g: spec_fn(int) -> int, k0: int)
    requires
        0 <= k0 < n,
        forall|k: int| 0 <= k < n && k != k0 ==> #[trigger] f(k) == g(k),
    ensures
        sum_to(n, g) == sum_to(n, f) - f(k0) + g(k0),
    decreases n,
{
    if n - 1 == k0 {
        lemma_sum_ext(n - 1, f, g);
    } else {
        lemma_sum_change(n - 1, f, g, k0);
    }
}

/// A sum of terms that each lie in `[lo, hi]` lies in `[n * lo, n * hi]`.
pub proof fn lemma_sum_bounds(n: int, f: spec_fn(int) -> int, lo: int, hi: int)
    requires
        0 <= n,
        forall|k: int| 0 <= k < n ==> lo <= #[trigger] f(k) <= hi,
    ensures
        n * lo <= sum_to(n, f) <= n * hi,
    decreases n,
{
    if n > 0 {
        lemma_sum_bounds(n - 1, f, lo, hi);
        assert((n - 1) * lo + lo == n * lo) by (nonlinear_arith);
        assert((n - 1) * hi + hi == n * hi) by (nonlinear_arith);
    }
}

/// A sum of terms that are never negative is never negative.
pub proof fn lemma_sum_nonneg(n: int, f: spec_fn(int) -> int)
    requires
        forall|k: int| 0 <= k < n ==> 0 <= #[trigger] f(k),
    ensures
        sum_to(n, f) >= 0,
    decreases n,
{
    if n > 0 {
        lemma_sum_nonneg(n - 1, f);
        assert(0 <= f(n - 1));
    }
}

/// A sum of terms that are never negative is at least any one of them.
pub proof fn lemma_sum_at_least_term(n: int, f: spec_fn(int) -> int, k0: int)
    requires
        0 <= k0 < n,
        forall|k: int| 0 <= k < n ==> 0 <= #[trigger] f(k),
    ensures
        sum_to(n, f) >= f(k0),
    decreases n,
{
    if k0 == n - 1 {
        lemma_sum_nonneg(n - 1, f);
    } else {
        lemma_sum_at_least_term(n - 1, f, k0);
        assert(0 <= f(n - 1));
    }
}

/// A sum of terms that are never negative is at least any two of them.
pub proof fn lemma_sum_at_least_two_terms(n: int, f: spec_fn(int) -> int, k1: int, k2: int)
    requires
        0 <= k1 < n,
        0 <= k2 < n,
        k1 != k2,
        forall|k: int| 0 <= k < n ==> 0 <= #[trigger] f(k),
    ensures
        sum_to(n, f) >= f(k1) + f(k2),
    decreases n,
{
    if k1 == n - 1 {
        lemma_sum_at_least_term(n - 1, f, k2);
    } else if k2 == n - 1 {
        lemma_sum_at_least_term(n - 1, f, k1);
    } else {
        lemma_sum_at_least_two_terms(n - 1, f, k1, k2);
        assert(0 <= f(n - 1));
    }
}

/// A sum of negated terms is the negated sum.
pub proof fn lemma_sum_neg(n: int, f: spec_fn(int) -> int, g: spec_fn(int) -> int)
    requires
        forall|k: int| 0 <= k < n ==> #[trigger] f(k) == -g(k),
    ensures
        sum_to(n, f) == -sum_to(n, g),
    decreases n,
{
    if n > 0 {
        lemma_sum_neg(n - 1, f, g);
        assert(f(n - 1) == -g(n - 1));
    }
}

/// Three sums add up term by term.
pub proof fn lemma_sum_add3(
    n: int,
    f: spec_fn(int) -> int,
    g: spec_fn(int) -> int,
    h: spec_fn(int) -> int,
    total: int,
)
    requires
        0 <= n,
        forall|k: int| 0 <= k < n ==> #[trigger] f(k) + g(k) + h(k) == total,
    ensures
        sum_to(n, f) + sum_to(n, g) + sum_to(n, h) == n * total,
    decreases n,
{
    if n > 0 {
        lemma_sum_add3(n - 1, f, g, h, total);
        assert(f(n - 1) + g(n - 1) + h(n - 1) == total);
        assert(sum_to(n, f) == sum_to(n - 1, f) + f(n - 1));
        assert(sum_to(n, g) == sum_to(n - 1, g) + g(n - 1));
        assert(sum_to(n, h) == sum_to(n - 1, h) + h(n - 1));
        assert((n - 1) * total + total == n * total) by (nonlinear_arith);
    } else {
        assert(n * total == 0) by (nonlinear_arith)
            requires
                n == 0,
        ;
    }
}

/// The cell at local index `k` (row `k / 3`, column `k % 3`) of a miniboard
/// is board cell `(row, column)` exactly when the miniboard is the one the
/// cell lies in and `k` is the cell's local index.
pub proof fn lemma_local_index(miniboard: int, k: int, row: int, column: int)
    requires
        0 <= miniboard < 9,
        0 <= k < 9,
        0 <= row < 9,
        0 <= column < 9,
    ensures
        ((miniboard / 3) * 3 + k / 3 == row && (miniboard % 3) * 3 + k % 3 == column) <==> (
        miniboard == BoardState::miniboard_of(row, column) && k == (row % 3) * 3 + column % 3),
{
}

impl BoardState {
    /// The number of cells of `miniboard` that hold `value`.
    pub open spec fn cells_holding(self, miniboard: int, value: u8) -> int {
        sum_to(9, |k: int| indicator(self.mini_cell(miniboard, k / 3, k % 3) == value))
    }

    /// The move counts of `miniboard` count its X and O cells, and its total
    /// count is their sum.
    pub open spec fn counts_match(self, miniboard: int) -> bool {
        &&& self.move_count(miniboard, 1) == self.cells_holding(miniboard, 1)
        &&& self.move_count(miniboard, 2) == self.cells_holding(miniboard, 2)
        &&& self.total_move_count(miniboard) == self.move_count(miniboard, 1) + self.move_count(
            miniboard,
            2,
        )
    }

    /// The number of miniboards whose status is `player`.
    pub open spec fn miniboards_won(self, player: u8) -> int {
        sum_to(9, |m: int| indicator(self.status(m) == player))
    }

    /// The board is one that play produces: nine rows, the last move on the
    /// board, every cell empty, X or O, every miniboard's counts matching
    /// its cells, and each player's win count the number of miniboards
    /// whose status is theirs.
    pub open spec fn consistent(self) -> bool {
        &&& self.rows.len() == 9
        &&& self.last_move_on_board()
        &&& forall|r: int, c: int| 0 <= r < 9 && 0 <= c < 9 ==> #[trigger] self.cell(r, c) <= 2
        &&& forall|m: int| 0 <= m < 9 ==> #[trigger] self.counts_match(m)
        &&& self.win_count(1) == self.miniboards_won(1)
        &&& self.win_count(2) == self.miniboards_won(2)
    }

    /// In each miniboard, neither player's move count nor the total move
    /// count exceeds the cells that are not empty: each of them plus the
    /// empty cells is at most nine.
    pub open spec fn counts_fit(self) -> bool {
        forall|m: int|
            0 <= m < 9 ==> {
                &&& self.move_count(m, 1) + #[trigger] self.cells_holding(m, 0) <= 9
                &&& self.move_count(m, 2) + self.cells_holding(m, 0) <= 9
                &&& self.total_move_count(m) + self.cells_holding(m, 0) <= 9
            }
    }

    /// A board that a search may play on from: nine rows, the last move on
    /// the board, the move counts fitting the cells taken, and neither player
    /// at seven won miniboards.
    pub open spec fn searchable(self) -> bool {
        &&& self.rows.len() == 9
        &&& self.last_move_on_board()
        &&& self.counts_fit()
        &&& self.win_count(1) <= 6
        &&& self.win_count(2) <= 6
    }

    /// A consistent board on which neither player has won seven miniboards:
    /// a search may play on from it.
    pub open spec fn ready_to_search(self) -> bool {
        &&& self.consistent()
        &&& self.win_count(1) <= 6
        &&& self.win_count(2) <= 6
    }
}

/// Boards whose miniboards have the same statuses have the same miniboards
/// won.
proof fn lemma_won_same(s: BoardState, t: BoardState, player: u8)
    requires
        forall|m: int| 0 <= m < 9 ==> #[trigger] t.status(m) == s.status(m),
    ensures
        t.miniboards_won(player) == s.miniboards_won(player),
{
    lemma_sum_ext(
        9,
        |m: int| indicator(s.status(m) == player),
        |m: int| indicator(t.status(m) == player),
    );
}

/// Deciding one contestable miniboard as `to` adds it to the miniboards won
/// by `to` and to no other player's.
proof fn lemma_won_change(s: BoardState, t: BoardState, miniboard: int, to: u8, player: u8)
    requires
        0 <= miniboard < 9,
        player != 0,
        s.status(miniboard) == 0,
        t.status(miniboard) == to,
        forall|m: int| 0 <= m < 9 && m != miniboard ==> #[trigger] t.status(m) == s.status(m),
    ensures
        t.miniboards_won(player) == s.miniboards_won(player) + indicator(to == player),
{
    lemma_sum_change(
        9,
        |m: int| indicator(s.status(m) == player),
        |m: int| indicator(t.status(m) == player),
        miniboard,
    );
}

/// A new board is consistent and ready to search.
pub proof fn lemma_initial_ready()
    ensures
        BoardState::initial().ready_to_search(),
{
    let s = BoardState::initial();
    assert(forall|pos: u32, mask: u32| (mask == 3 || mask == 15) ==> #[trigger] ((0u32 >> pos) & mask) == 0) by (bit_vector);
    assert(forall|k: u8| #[trigger] ((0u8 >> k) & 7) == 0) by (bit_vector);
    assert forall|m: int| 0 <= m < 9 implies #[trigger] s.counts_match(m) by {
        let f1 = |k: int| indicator(s.mini_cell(m, k / 3, k % 3) == 1u8);
        let f2 = |k: int| indicator(s.mini_cell(m, k / 3, k % 3) == 2u8);
        assert forall|k: int| 0 <= k < 9 implies #[trigger] f1(k) == 0 && f2(k) == 0 by {
            assert(s.rows[(m / 3) * 3 + k / 3] == 0);
        }
        lemma_sum_bounds(9, f1, 0, 0);
        lemma_sum_bounds(9, f2, 0, 0);
    }
    let w1 = |m: int| indicator(s.status(m) == 1u8);
    let w2 = |m: int| indicator(s.status(m) == 2u8);
    assert forall|m: int| 0 <= m < 9 implies #[trigger] w1(m) == 0 && w2(m) == 0 by {
        assert(s.rows[m] == 0);
    }
    lemma_sum_bounds(9, w1, 0, 0);
    lemma_sum_bounds(9, w2, 0, 0);
}

/// On a board whose move counts count the cells of `miniboard`, a player
/// with more than six moves there holds a winning line in it, so the
/// miniboard is theirs.
pub proof fn lemma_more_than_six_moves_hold_a_line(s: BoardState, miniboard: int, player: u8)
    requires
        0 <= miniboard < 9,
        player == 1 || player == 2,
        s.counts_match(miniboard),
        s.move_count(miniboard, player) > 6,
    ensures
        s.has_winning_line(miniboard, player),
{
    let held = |k: int| s.mini_cell(miniboard, k / 3, k % 3) == player;
    let f = |k: int| indicator(held(k));
    let g = |k: int| indicator(s.mini_cell(miniboard, k / 3, k % 3) == player);
    lemma_sum_ext(9, f, g);
    lemma_seven_points_hold_a_line(held);
    let line = choose|line: int| 0 <= line < 8 && #[trigger] grid_line_held(held, line);
    lemma_winning_lines_shape();
    assert(line_index(line, 0) / 3 == line_point(line, 0).0 && line_index(line, 0) % 3 == line_point(line, 0).1);
    assert(line_index(line, 1) / 3 == line_point(line, 1).0 && line_index(line, 1) % 3 == line_point(line, 1).1);
    assert(line_index(line, 2) / 3 == line_point(line, 2).0 && line_index(line, 2) % 3 == line_point(line, 2).1);
    assert(s.line_held(miniboard, line, player));
}

/// Cells holding nothing, X and O make up the nine cells of a consistent
/// board's miniboard.
proof fn lemma_cells_partition(s: BoardState, miniboard: int)
    requires
        s.consistent(),
        0 <= miniboard < 9,
    ensures
        s.cells_holding(miniboard, 0) + s.cells_holding(miniboard, 1) + s.cells_holding(
            miniboard,
            2,
        ) == 9,
{
    let f = |k: int| indicator(s.mini_cell(miniboard, k / 3, k % 3) == 0u8);
    let g = |k: int| indicator(s.mini_cell(miniboard, k / 3, k % 3) == 1u8);
    let h = |k: int| indicator(s.mini_cell(miniboard, k / 3, k % 3) == 2u8);
    assert forall|k: int| 0 <= k < 9 implies #[trigger] f(k) + g(k) + h(k) == 1 by {
        assert(s.cell((miniboard / 3) * 3 + k / 3, (miniboard % 3) * 3 + k % 3) <= 2);
    }
    lemma_sum_add3(9, f, g, h, 1);
}

/// The new board has the same cells as the old one, except `(row, column)`,
/// which holds `value`; the count of cells holding `v` changes accordingly in
/// the cell's miniboard and nowhere else.
proof fn lemma_cells_holding_after_write(
    s: BoardState,
    t: BoardState,
    row: int,
    column: int,
    value: u8,
    v: u8,
)
    requires
        0 <= row < 9,
        0 <= column < 9,
        t.cell(row, column) == value,
        forall|r: int, c: int|
            0 <= r < 9 && 0 <= c < 9 && (r, c) != (row, column) ==> #[trigger] t.cell(r, c)
                == s.cell(r, c),
    ensures
        forall|m: int|
            0 <= m < 9 && m != BoardState::miniboard_of(row, column) ==> #[trigger] t.cells_holding(
                m,
                v,
            ) == s.cells_holding(m, v),
        t.cells_holding(BoardState::miniboard_of(row, column), v) == s.cells_holding(
            BoardState::miniboard_of(row, column),
            v,
        ) - indicator(s.cell(row, column) == v) + indicator(value == v),
{
    let home = BoardState::miniboard_of(row, column);
    assert forall|m: int|
        0 <= m < 9 && m != home implies #[trigger] t.cells_holding(m, v) == s.cells_holding(
        m,
        v,
    ) by {
        let f = |k: int| indicator(s.mini_cell(m, k / 3, k % 3) == v);
        let g = |k: int| indicator(t.mini_cell(m, k / 3, k % 3) == v);
        assert forall|k: int| 0 <= k < 9 implies #[trigger] f(k) == g(k) by {
            lemma_local_index(m, k, row, column);
        }
        lemma_sum_ext(9, f, g);
    }
    let k0 = (row % 3) * 3 + column % 3;
    let f = |k: int| indicator(s.mini_cell(home, k / 3, k % 3) == v);
    let g = |k: int| indicator(t.mini_cell(home, k / 3, k % 3) == v);
    assert forall|k: int| 0 <= k < 9 && k != k0 implies #[trigger] f(k) == g(k) by {
        lemma_local_index(home, k, row, column);
    }
    lemma_local_index(home, k0, row, column);
    lemma_sum_change(9, f, g, k0);
}

/// A board that is ready to search is searchable: on a consistent board the
/// empty, X and O cells of a miniboard make up its nine cells, and its move
/// counts count the X and O cells.
pub proof fn lemma_ready_is_searchable(s: BoardState)
    requires
        s.ready_to_search(),
    ensures
        s.searchable(),
{
    assert forall|m: int| 0 <= m < 9 implies {
        &&& s.move_count(m, 1) + #[trigger] s.cells_holding(m, 0) <= 9
        &&& s.move_count(m, 2) + s.cells_holding(m, 0) <= 9
        &&& s.total_move_count(m) + s.cells_holding(m, 0) <= 9
    } by {
        lemma_cells_partition(s, m);
        assert(s.counts_match(m));
        lemma_sum_nonneg(9, |k: int| indicator(s.mini_cell(m, k / 3, k % 3) == 1u8));
        lemma_sum_nonneg(9, |k: int| indicator(s.mini_cell(m, k / 3, k % 3) == 2u8));
    }
}

/// Settling a miniboard changes no cell and no move count, nor the last
/// move.
proof fn lemma_settled_keeps_cells_and_counts(u: BoardState, mb: int)
    requires
        u.rows.len() == 9,
        0 <= mb < 9,
        u.can_settle(mb),
    ensures
        u.settled(mb).rows.len() == 9,
        u.settled(mb).last_move == u.last_move,
        forall|r: int, c: int| 0 <= r < 9 && 0 <= c < 9 ==> #[trigger] u.settled(mb).cell(r, c) == u.cell(r, c),
        forall|m: int|
            0 <= m < 9 ==> #[trigger] u.settled(mb).move_count(m, 1) == u.move_count(m, 1)
                && u.settled(mb).move_count(m, 2) == u.move_count(m, 2) && u.settled(
                mb,
            ).total_move_count(m) == u.total_move_count(m),
{
    let t = u.settled(mb);
    let player = u.last_cell();
    if u.status(mb) == 0 && u.move_count(mb, player) >= 3 {
        if u.move_count(mb, player) > 6 || u.has_winning_line(mb, player) {
            let v = u.with_status(mb, player);
            lemma_with_meta(u, mb, 18, 3, player);
            assert(t.rows == v.rows);
            assert forall|r: int, c: int| 0 <= r < 9 && 0 <= c < 9 implies #[trigger] t.cell(r, c) == u.cell(r, c) by {
                assert(v.cell(r, c) == u.cell(r, c));
            }
            assert forall|m: int| 0 <= m < 9 implies #[trigger] t.same_meta(v, m) by {}
            assert forall|m: int| 0 <= m < 9 && m != mb implies #[trigger] v.same_meta(u, m) by {}
        } else if u.total_move_count(mb) == 9 {
            lemma_with_meta(u, mb, 18, 3, 3);
            assert(forall|r: int, c: int| 0 <= r < 9 && 0 <= c < 9 ==> #[trigger] t.cell(r, c) == u.cell(r, c));
        }
    }
    assert(forall|r: int, c: int| 0 <= r < 9 && 0 <= c < 9 ==> #[trigger] t.cell(r, c) == u.cell(r, c));
    assert forall|m: int| 0 <= m < 9 implies #[trigger] t.move_count(m, 1) == u.move_count(m, 1)
        && t.move_count(m, 2) == u.move_count(m, 2) && t.total_move_count(m)
        == u.total_move_count(m) by {
        if m != mb && u.status(mb) == 0 && u.move_count(mb, player) >= 3 {
            assert(t.same_meta(u, m));
        }
    }
}

/// Playing an empty cell of a searchable board by X or O meets the checks
/// of `do_move`, makes the cell the last move and its player the last
/// player, keeps the move counts fitting the cells, and leaves the board
/// searchable whenever the game goes on.
pub proof fn lemma_play_keeps_searchable(s: BoardState, row: int, column: int, player: u8)
    requires
        s.searchable(),
        0 <= row < 9,
        0 <= column < 9,
        s.cell(row, column) == 0,
        player == 1 || player == 2,
    ensures
        s.move_count(BoardState::miniboard_of(row, column), player) <= 8,
        s.placed(row, column, player).can_settle(BoardState::miniboard_of(row, column)),
        s.played(row, column, player).rows.len() == 9,
        s.played(row, column, player).last_cell() == player,
        s.played(row, column, player).last_move == (row as u8, column as u8),
        s.played(row, column, player).can_score_game(),
        s.played(row, column, player).counts_fit(),
        s.played(row, column, player).game_status() == 0 ==> s.played(
            row,
            column,
            player,
        ).searchable(),
{
    let mb = BoardState::miniboard_of(row, column);
    let k0 = (row % 3) * 3 + column % 3;
    lemma_local_index(mb, k0, row, column);
    assert(s.cells_holding(mb, 0) >= 1) by {
        let f = |k: int| indicator(s.mini_cell(mb, k / 3, k % 3) == 0u8);
        assert forall|k: int| 0 <= k < 9 implies 0 <= #[trigger] f(k) by {}
        lemma_sum_at_least_term(9, f, k0);
    }
    assert(s.counts_fit());
    assert(s.move_count(mb, player) + s.cells_holding(mb, 0) <= 9);
    assert(s.total_move_count(mb) + s.cells_holding(mb, 0) <= 9);

    // placing the cell
    let s1 = s.with_cell(row, column, player).with_last_move(row as u8, column as u8);
    lemma_with_cell(s, row, column, player);
    let written = s.with_cell(row, column, player);
    assert(s1.rows == written.rows);
    assert(written.same_meta(s, mb));
    assert(s1.same_meta(s, mb));
    let count = s1.move_count(mb, player);
    let s2 = s1.with_move_count(mb, player, (count + 1) as u8);
    lemma_with_meta(s1, mb, BoardState::count_pos(player), 15, (count + 1) as u8);
    let total = s2.total_move_count(mb);
    let u = s2.with_total_move_count(mb, (total + 1) as u8);
    lemma_with_meta(s2, mb, 28, 15, (total + 1) as u8);
    assert(u == s.placed(row, column, player));
    assert forall|r: int, c: int|
        0 <= r < 9 && 0 <= c < 9 && (r, c) != (row, column) implies #[trigger] u.cell(r, c)
        == s.cell(r, c) by {
        assert(written.cell(r, c) == s.cell(r, c));
        assert(s1.cell(r, c) == s.cell(r, c));
        assert(s2.cell(r, c) == s1.cell(r, c));
    }
    assert(u.cell(row, column) == player);
    lemma_cells_holding_after_write(s, u, row, column, player, 0);
    assert forall|m: int| 0 <= m < 9 implies {
        &&& u.move_count(m, 1) + #[trigger] u.cells_holding(m, 0) <= 9
        &&& u.move_count(m, 2) + u.cells_holding(m, 0) <= 9
        &&& u.total_move_count(m) + u.cells_holding(m, 0) <= 9
    } by {
        assert(s.move_count(m, 1) + s.cells_holding(m, 0) <= 9);
        if m != mb {
            assert(written.same_meta(s, m));
            assert(s1.same_meta(s, m));
            assert(s2.same_meta(s1, m));
            assert(u.same_meta(s2, m));
        }
    }
    assert(u.last_cell() == player);
    assert(u.can_settle(mb));

    // settling the miniboard keeps the cells and the counts
    let t = u.settled(mb);
    assert(t == s.played(row, column, player));
    lemma_settled_keeps_cells_and_counts(u, mb);
    lemma_played_last(s, row, column, player);
    assert forall|m: int| 0 <= m < 9 implies {
        &&& t.move_count(m, 1) + #[trigger] t.cells_holding(m, 0) <= 9
        &&& t.move_count(m, 2) + t.cells_holding(m, 0) <= 9
        &&& t.total_move_count(m) + t.cells_holding(m, 0) <= 9
    } by {
        assert(u.move_count(m, 1) + u.cells_holding(m, 0) <= 9);
        let f = |k: int| indicator(u.mini_cell(m, k / 3, k % 3) == 0u8);
        let g = |k: int| indicator(t.mini_cell(m, k / 3, k % 3) == 0u8);
        lemma_sum_ext(9, f, g);
    }
    // a seventh win ends the game
    if u.status(mb) == 0 && u.move_count(mb, player) >= 3 && (u.move_count(mb, player) > 6
        || u.has_winning_line(mb, player)) {
        let v = u.with_status(mb, player);
        lemma_with_meta(u, mb, 18, 3, player);
        lemma_with_win_count(v, player, (u.win_count(player) + 1) as u8);
        assert(t.status(mb) == player);
    } else {
        assert(t.wins == u.wins);
    }
}

/// Playing an empty cell of a board that is ready to search keeps the board
/// consistent, meets the checks of `do_move`, makes the mover the last
/// player, lifts the mover's win count by at most one, leaves the other
/// player's alone, and leaves the board ready to search whenever the game
/// goes on.
pub proof fn lemma_play_keeps_consistent(s: BoardState, row: int, column: int, player: u8)
    requires
        s.ready_to_search(),
        0 <= row < 9,
        0 <= column < 9,
        s.cell(row, column) == 0,
        player == 1 || player == 2,
    ensures
        s.move_count(BoardState::miniboard_of(row, column), player) <= 8,
        s.placed(row, column, player).can_settle(BoardState::miniboard_of(row, column)),
        s.played(row, column, player).consistent(),
        s.played(row, column, player).last_cell() == player,
        s.played(row, column, player).last_move == (row as u8, column as u8),
        s.played(row, column, player).win_count((3 - player) as u8) == s.win_count(
            (3 - player) as u8,
        ),
        s.played(row, column, player).win_count(player) <= s.win_count(player) + 1,
        s.played(row, column, player).game_status() == 0 ==> s.played(
            row,
            column,
            player,
        ).ready_to_search(),
{
    let mb = BoardState::miniboard_of(row, column);
    let other = (3 - player) as u8;
    lemma_cells_partition(s, mb);
    assert(s.counts_match(mb));
    let k0 = (row % 3) * 3 + column % 3;
    lemma_local_index(mb, k0, row, column);
    // the empty cell counts among the empty cells of its miniboard
    assert(s.cells_holding(mb, 0) >= 1) by {
        let f = |k: int| indicator(s.mini_cell(mb, k / 3, k % 3) == 0u8);
        lemma_sum_at_least_term(9, f, k0);
    }

    // placing the cell
    let s1 = s.with_cell(row, column, player).with_last_move(row as u8, column as u8);
    lemma_with_cell(s, row, column, player);
    let written = s.with_cell(row, column, player);
    assert(s1.rows == written.rows);
    assert(written.same_meta(s, mb));
    assert(s1.same_meta(s, mb));
    let count = s1.move_count(mb, player);
    let s2 = s1.with_move_count(mb, player, (count + 1) as u8);
    lemma_with_meta(s1, mb, BoardState::count_pos(player), 15, (count + 1) as u8);
    let total = s2.total_move_count(mb);
    let u = s2.with_total_move_count(mb, (total + 1) as u8);
    lemma_with_meta(s2, mb, 28, 15, (total + 1) as u8);
    assert(u == s.placed(row, column, player));

    assert forall|r: int, c: int|
        0 <= r < 9 && 0 <= c < 9 && (r, c) != (row, column) implies #[trigger] u.cell(r, c)
        == s.cell(r, c) by {
        assert(written.cell(r, c) == s.cell(r, c));
        assert(s1.cell(r, c) == s.cell(r, c));
        assert(s2.cell(r, c) == s1.cell(r, c));
    }
    assert(u.cell(row, column) == player);
    lemma_cells_holding_after_write(s, u, row, column, player, 1);
    lemma_cells_holding_after_write(s, u, row, column, player, 2);

    assert forall|m: int| 0 <= m < 9 implies #[trigger] u.counts_match(m) by {
        assert(s.counts_match(m));
        if m != mb {
            assert(written.same_meta(s, m));
            assert(s1.same_meta(s, m));
            assert(s2.same_meta(s1, m));
            assert(u.same_meta(s2, m));
        }
    }
    assert forall|r: int, c: int| 0 <= r < 9 && 0 <= c < 9 implies #[trigger] u.cell(r, c) <= 2 by {
        if (r, c) != (row, column) {
            assert(s.cell(r, c) <= 2);
        }
    }
    assert forall|m: int| 0 <= m < 9 implies #[trigger] u.status(m) == s.status(m) by {
        if m != mb {
            assert(written.same_meta(s, m));
            assert(s1.same_meta(s, m));
            assert(s2.same_meta(s1, m));
            assert(u.same_meta(s2, m));
        }
    }
    lemma_won_same(s, u, 1);
    lemma_won_same(s, u, 2);
    assert(u.consistent());
    assert(u.last_cell() == player);
    assert(u.can_settle(mb));

    // settling the miniboard changes its status and the mover's win count only
    let t = u.settled(mb);
    assert(t == s.played(row, column, player));
    if u.status(mb) == 0 && u.move_count(mb, player) >= 3 {
        if u.move_count(mb, player) > 6 || u.has_winning_line(mb, player) {
            let v = u.with_status(mb, player);
            lemma_with_meta(u, mb, 18, 3, player);
            lemma_with_win_count(v, player, (u.win_count(player) + 1) as u8);
            assert(t.status(mb) == player);
            assert(t.rows == v.rows);
            assert forall|r: int, c: int| 0 <= r < 9 && 0 <= c < 9 implies #[trigger] t.cell(r, c) == u.cell(r, c) by {
                assert(v.cell(r, c) == u.cell(r, c));
            }
            assert forall|m: int| 0 <= m < 9 implies #[trigger] t.same_meta(v, m) by {}
        } else if u.total_move_count(mb) == 9 {
            lemma_with_meta(u, mb, 18, 3, 3);
            assert(forall|r: int, c: int| 0 <= r < 9 && 0 <= c < 9 ==> #[trigger] t.cell(r, c) == u.cell(r, c));
        }
    }
    assert(forall|r: int, c: int| 0 <= r < 9 && 0 <= c < 9 ==> #[trigger] t.cell(r, c) == u.cell(r, c));
    assert(forall|m: int| 0 <= m < 9 ==> #[trigger] t.move_count(m, 1) == u.move_count(m, 1) && t.move_count(m, 2) == u.move_count(m, 2) && t.total_move_count(m) == u.total_move_count(m));
    assert forall|m: int| 0 <= m < 9 implies #[trigger] t.counts_match(m) by {
        assert(u.counts_match(m));
        let f = |k: int| indicator(u.mini_cell(m, k / 3, k % 3) == 1u8);
        let g = |k: int| indicator(t.mini_cell(m, k / 3, k % 3) == 1u8);
        lemma_sum_ext(9, f, g);
        let f2 = |k: int| indicator(u.mini_cell(m, k / 3, k % 3) == 2u8);
        let g2 = |k: int| indicator(t.mini_cell(m, k / 3, k % 3) == 2u8);
        lemma_sum_ext(9, f2, g2);
    }
    assert forall|r: int, c: int| 0 <= r < 9 && 0 <= c < 9 implies #[trigger] t.cell(r, c) <= 2 by {
        assert(u.cell(r, c) <= 2);
    }
    // the win counts follow the statuses
    if u.status(mb) == 0 && u.move_count(mb, player) >= 3 && (u.move_count(mb, player) > 6
        || u.has_winning_line(mb, player)) {
        let v = u.with_status(mb, player);
        lemma_with_meta(u, mb, 18, 3, player);
        lemma_with_win_count(v, player, (u.win_count(player) + 1) as u8);
        assert forall|m: int| 0 <= m < 9 && m != mb implies #[trigger] t.status(m) == u.status(m) by {
            assert(v.same_meta(u, m));
        }
        lemma_won_change(u, t, mb, player, 1);
        lemma_won_change(u, t, mb, player, 2);
    } else if u.status(mb) == 0 && u.move_count(mb, player) >= 3 && u.total_move_count(mb) == 9 {
        lemma_with_meta(u, mb, 18, 3, 3);
        assert forall|m: int| 0 <= m < 9 && m != mb implies #[trigger] t.status(m) == u.status(m) by {
            assert(t.same_meta(u, m));
        }
        lemma_won_change(u, t, mb, 3, 1);
        lemma_won_change(u, t, mb, 3, 2);
    } else {
        assert(t == u);
    }
}


impl Board {
    /// Counts the empty cells of `miniboard`.
    fn count_empty_cells(&self, miniboard: u8) -> (empty: u8)
        requires
            miniboard < 9,
        ensures
            empty == self@.cells_holding(miniboard as int, 0),
            empty <= 9,
    {
        let ghost m = miniboard as int;
        let ghost f = |j: int| indicator(self@.mini_cell(m, j / 3, j % 3) == 0u8);
        let mut empty: u8 = 0;
        let mut k: u8 = 0;
        while k < 9
            invariant
                k <= 9,
                miniboard < 9,
                m == miniboard as int,
                f == (|j: int| indicator(self@.mini_cell(m, j / 3, j % 3) == 0u8)),
                empty == sum_to(k as int, f),
                empty <= k,
            decreases 9 - k,
        {
            let row = (miniboard / 3) * 3 + k / 3;
            let column = (miniboard % 3) * 3 + k % 3;
            let cell = self.get_cell(row, column);
            let ghost kk = k as int;
            assert(cell == self@.mini_cell(m, kk / 3, kk % 3));
            if cell == flag::EMPTY {
                empty += 1;
            }
            k += 1;
        }
        empty
    }

    /// Whether a search may play on from the board: the last move lies on
    /// the board, no move count of a miniboard exceeds its cells that are
    /// not empty, and neither player has won seven miniboards.
    pub fn is_searchable(&self) -> (searchable: bool)
        ensures
            searchable == self@.searchable(),
    {
        if self.last_move.0 >= 9 || self.last_move.1 >= 9 {
            return false;
        }
        if self.get_miniboard_win_count_of(flag::X_PLAYER) > 6
            || self.get_miniboard_win_count_of(flag::O_PLAYER) > 6 {
            return false;
        }
        let mut miniboard: u8 = 0;
        while miniboard < 9
            invariant
                miniboard <= 9,
                forall|m: int|
                    0 <= m < miniboard ==> {
                        &&& self@.move_count(m, 1) + #[trigger] self@.cells_holding(m, 0) <= 9
                        &&& self@.move_count(m, 2) + self@.cells_holding(m, 0) <= 9
                        &&& self@.total_move_count(m) + self@.cells_holding(m, 0) <= 9
                    },
            decreases 9 - miniboard,
        {
            let empty = self.count_empty_cells(miniboard);
            if self.get_player_move_count_of(miniboard, flag::X_PLAYER) + empty > 9
                || self.get_player_move_count_of(miniboard, flag::O_PLAYER) + empty > 9
                || self.get_total_move_count_of(miniboard) + empty > 9 {
                assert(!(self@.move_count(miniboard as int, 1) + self@.cells_holding(miniboard as int, 0) <= 9
                    && self@.move_count(miniboard as int, 2) + self@.cells_holding(miniboard as int, 0) <= 9
                    && self@.total_move_count(miniboard as int) + self@.cells_holding(miniboard as int, 0) <= 9));
                return false;
            }
            miniboard += 1;
        }
        true
    }

    /// Whether `player` may take the empty cell `(row, column)` by a valid
    /// move on a searchable board; such a move meets what `do_move`
    /// requires.
    pub fn is_safe_move(&self, row: u8, column: u8, player: u8) -> (safe: bool)
        ensures
            safe == (row < 9 && column < 9 && (player == flag::X_PLAYER || player
                == flag::O_PLAYER) && self@.searchable() && self@.cell(row as int, column as int)
                == 0 && self@.valid_move(row as int, column as int)),
            safe ==> self@.move_count((row / 3) * 3 + column / 3, player) <= 9
                && self@.placed(row as int, column as int, player).can_settle(
                (row / 3) * 3 + column / 3,
            ),
    {
        if row >= 9 || column >= 9 || !(player == flag::X_PLAYER || player == flag::O_PLAYER) {
            return false;
        }
        if !self.is_searchable() {
            return false;
        }
        if self.get_cell(row, column) != flag::EMPTY || !self.is_valid_move(row, column) {
            return false;
        }
        proof {
            lemma_play_keeps_searchable(self@, row as int, column as int, player);
        }
        true
    }
}

impl Board {
    /// The moves `player` has made, summed over the nine miniboards.
    pub fn moves_made_by(&self, player: u8) -> (count: u8)
        requires
            player == flag::X_PLAYER || player == flag::O_PLAYER,
        ensures
            count == sum_to(9, |m: int| self@.move_count(m, player) as int),
    {
        let ghost f = |m: int| self@.move_count(m, player) as int;
        let mut count: u8 = 0;
        let mut miniboard: u8 = 0;
        while miniboard < 9
            invariant
                miniboard <= 9,
                player == flag::X_PLAYER || player == flag::O_PLAYER,
                f == (|m: int| self@.move_count(m, player) as int),
                count == sum_to(miniboard as int, f),
                count <= 15 * miniboard,
            decreases 9 - miniboard,
        {
            count += self.get_player_move_count_of(miniboard, player);
            miniboard += 1;
        }
        count
    }
}

} // verus!
