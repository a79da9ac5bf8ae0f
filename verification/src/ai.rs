//! The computer player: a static evaluation of a board, and a minimax search
//! with alpha-beta pruning over it.
use rayon::iter::{ParallelBridge, ParallelIterator};
use vstd::prelude::*;

use crate::board::bits::{field, lemma_get_field};
use crate::board::flag;
use crate::board::rules::{
    lemma_marked_moves_are_marked, line_point, lemma_winning_lines_shape, WINNING_LINES,
};
use crate::board::wellformed::{
    indicator, lemma_sum_at_least_two_terms, lemma_sum_ext, lemma_play_keeps_searchable, lemma_sum_bounds, lemma_sum_neg, sum_to,
};
use crate::board::{Board, BoardState};

verus! {

// basic multiplier and weight adjustment for what is valued
pub const SCORE_UNIT: i16 = 10;
pub const MINIBOARD_WIN_COUNT: i16 = 24;
pub const CENTRE_MB_CONTROL: i16 = 25;
pub const CENTRE_CELL_CONTROL: i16 = 1;
pub const FREE_MOVE_CELL_SAME_MB: i16 = 3;
pub const UNCONTESTABLE_MB_POINTED_AT: i16 = 3;
pub const CONTINUOUS_MB_LINES: i16 = 3;
pub const BROKEN_MB_LINES: i16 = 2;
pub const CONTINUOUS_CELL_LINES: i16 = 2;
pub const BROKEN_CELL_LINES: i16 = 1;

/// Four times this puts a shape at bit 2 of each of the three six-bit
/// windows of a row's cells: the centre columns 1, 4 and 7.
const REP_UNIT: u32 = 4161;

/// The search depth used when a caller asks for depth zero.
pub const DEPTH: u8 = 5;

/// Winning lines composed into continuous and broken line patterns:
/// `[a, b, c]` becomes `[a, b, b, c, a, c]`, the two continuous pairs `(a, b)`
/// and `(b, c)` followed by the broken pair `(a, c)`.
pub const LINE_PATTERNS: [[(u8, u8); 6]; 8] = [
    [(0, 0), (0, 1), (0, 1), (0, 2), (0, 0), (0, 2)],
    [(1, 0), (1, 1), (1, 1), (1, 2), (1, 0), (1, 2)],
    [(2, 0), (2, 1), (2, 1), (2, 2), (2, 0), (2, 2)],
    [(0, 0), (1, 0), (1, 0), (2, 0), (0, 0), (2, 0)],
    [(0, 1), (1, 1), (1, 1), (2, 1), (0, 1), (2, 1)],
    [(0, 2), (1, 2), (1, 2), (2, 2), (0, 2), (2, 2)],
    [(0, 0), (1, 1), (1, 1), (2, 2), (0, 0), (2, 2)],
    [(0, 2), (1, 1), (1, 1), (2, 0), (0, 2), (2, 0)],
];

/// Each line pattern is its winning line's points in the order `a, b, b, c, a, c`.
proof fn lemma_line_patterns()
    ensures
        forall|i: int|
            0 <= i < 8 ==> {
                &&& #[trigger] LINE_PATTERNS[i][0] == WINNING_LINES[i][0]
                &&& LINE_PATTERNS[i][1] == WINNING_LINES[i][1]
                &&& LINE_PATTERNS[i][2] == WINNING_LINES[i][1]
                &&& LINE_PATTERNS[i][3] == WINNING_LINES[i][2]
                &&& LINE_PATTERNS[i][4] == WINNING_LINES[i][0]
                &&& LINE_PATTERNS[i][5] == WINNING_LINES[i][2]
            },
{
}

/// Plus one for the AI's value, minus one for the opponent's.
pub open spec fn owned(value: u8, ai: u8, opponent: u8) -> int {
    indicator(value == ai) - indicator(value == opponent)
}

/// The score of one line whose three points hold `v0`, `v1` and `v2`: each
/// pair of adjacent points held by one side counts `continuous` units for it,
/// and the two ends held by one side count `broken` units for it.
pub open spec fn line_value(
    v0: u8,
    v1: u8,
    v2: u8,
    ai: u8,
    opponent: u8,
    continuous: int,
    broken: int,
) -> int {
    let pairs = |p: u8| indicator(v0 == p && v1 == p) + indicator(v1 == p && v2 == p);
    let ends = |p: u8| indicator(v0 == p && v2 == p);
    (pairs(ai) - pairs(opponent)) * 10 * continuous + (ends(ai) - ends(opponent)) * 10 * broken
}

/// The score of six pattern values read as two continuous pairs, `(v0, v1)`
/// and `(v2, v3)`, and one broken pair `(v4, v5)`.
pub open spec fn pattern_value(
    v: [u8; 6],
    ai: u8,
    opponent: u8,
    continuous: int,
    broken: int,
) -> int {
    let pairs = |p: u8| indicator(v[0] == p && v[1] == p) + indicator(v[2] == p && v[3] == p);
    let ends = |p: u8| indicator(v[4] == p && v[5] == p);
    (pairs(ai) - pairs(opponent)) * 10 * continuous + (ends(ai) - ends(opponent)) * 10 * broken
}

/// Comparing packed patterns two cells at a time compares those cells.
proof fn lemma_pattern_bits(v0: u16, v1: u16, v2: u16, v3: u16, v4: u16, v5: u16, p: u16)
    by (bit_vector)
    requires
        v0 <= 3 && v1 <= 3 && v2 <= 3 && v3 <= 3 && v4 <= 3 && v5 <= 3 && p <= 3,
    ensures
        ((p | (p << 2) | (p << 4) | (p << 6) | (p << 8) | (p << 10)) & 0b1111u16 == (v0 | (v1 << 2)
            | (v2 << 4) | (v3 << 6) | (v4 << 8) | (v5 << 10)) & 0b1111u16) == (v0 == p && v1 == p),
        ((p | (p << 2) | (p << 4) | (p << 6) | (p << 8) | (p << 10)) & (0b1111u16 << 4) == (v0 | (v1
            << 2) | (v2 << 4) | (v3 << 6) | (v4 << 8) | (v5 << 10)) & (0b1111u16 << 4)) == (v2 == p
            && v3 == p),
        ((p | (p << 2) | (p << 4) | (p << 6) | (p << 8) | (p << 10)) & (0b1111u16 << 8) == (v0 | (v1
            << 2) | (v2 << 4) | (v3 << 6) | (v4 << 8) | (v5 << 10)) & (0b1111u16 << 8)) == (v4 == p
            && v5 == p),
{
}

impl BoardState {
    /// Miniboards won by the AI less those won by the opponent.
    pub open spec fn won_miniboards_score(self, ai: u8, opponent: u8) -> int {
        (self.win_count(ai) - self.win_count(opponent)) * 10 * 24
    }

    /// Holding the centre miniboard.
    pub open spec fn centre_miniboard_score(self, ai: u8, opponent: u8) -> int {
        owned(self.status(4), ai, opponent) * 10 * 25
    }

    /// The centre cells of the miniboards, cells `(3i + 1, 3j + 1)`, that carry
    /// the AI's bit less those that carry the opponent's.
    pub open spec fn centre_cells_score(self, ai: u8, opponent: u8) -> int {
        sum_to(
            3,
            |i: int|
                sum_to(
                    3,
                    |j: int|
                        indicator((self.cell(3 * i + 1, 3 * j + 1) & ai) != 0) - indicator(
                            (self.cell(3 * i + 1, 3 * j + 1) & opponent) != 0,
                        ),
                ) * 10,
        )
    }

    /// For each decided miniboard, the cells that send a player there: each
    /// counts against the side that holds it.
    pub open spec fn pointing_score(self, ai: u8, opponent: u8) -> int {
        sum_to(
            9,
            |mb: int|
                if self.status(mb) == 0 {
                    0
                } else {
                    sum_to(
                        9,
                        |k: int|
                            -owned(self.cell(mb / 3 + (k / 3) * 3, mb % 3 + (k % 3) * 3), ai, opponent)
                                * 10 * 3,
                    )
                },
        )
    }

    /// Near-won lines of cells within each miniboard where either side has
    /// at least two cells.
    pub open spec fn cell_lines_score(self, ai: u8, opponent: u8) -> int {
        sum_to(
            9,
            |mb: int|
                if self.move_count(mb, ai) >= 2 || self.move_count(mb, opponent) >= 2 {
                    sum_to(
                        8,
                        |l: int|
                            line_value(
                                self.mini_cell(mb, line_point(l, 0).0, line_point(l, 0).1),
                                self.mini_cell(mb, line_point(l, 1).0, line_point(l, 1).1),
                                self.mini_cell(mb, line_point(l, 2).0, line_point(l, 2).1),
                                ai,
                                opponent,
                                2,
                                1,
                            ),
                    )
                } else {
                    0
                },
        )
    }

    /// Near-won lines of miniboards on the big board.
    pub open spec fn miniboard_lines_score(self, ai: u8, opponent: u8) -> int {
        sum_to(
            8,
            |l: int|
                line_value(
                    self.status(line_point(l, 0).0 * 3 + line_point(l, 0).1),
                    self.status(line_point(l, 1).0 * 3 + line_point(l, 1).1),
                    self.status(line_point(l, 2).0 * 3 + line_point(l, 2).1),
                    ai,
                    opponent,
                    3,
                    2,
                ),
        )
    }

    /// The cells that send a player back to their own miniboard, cells
    /// `(4i, 4j)`.
    pub open spec fn free_cells_score(self, ai: u8, opponent: u8) -> int {
        sum_to(3, |i: int| sum_to(3, |j: int| owned(self.cell(4 * i, 4 * j), ai, opponent)) * 10 * 3)
    }

    /// The evaluation of an undecided game.
    pub open spec fn positional_score(self, ai: u8, opponent: u8) -> int {
        self.won_miniboards_score(ai, opponent) + self.centre_miniboard_score(ai, opponent)
            + self.centre_cells_score(ai, opponent) + self.pointing_score(ai, opponent)
            + self.cell_lines_score(ai, opponent) + self.miniboard_lines_score(ai, opponent)
            + self.free_cells_score(ai, opponent)
    }

    /// The evaluation of the board for the AI: the lowest score when the
    /// opponent has won, the highest when the AI has, zero for a drawn game,
    /// the positional score otherwise.
    pub open spec fn evaluation(self, ai: u8, opponent: u8) -> int {
        let status = self.game_status();
        if status == opponent {
            i16::MIN as int
        } else if status == ai {
            i16::MAX as int
        } else if status == 3 {
            0
        } else {
            self.positional_score(ai, opponent)
        }
    }
}

proof fn lemma_win_count_bound(w: u8, k: u8)
    by (bit_vector)
    ensures
        (w >> k) & 7 <= 7,
{
}

/// The positional score lies within 11920 points either way, and every
/// evaluation within the range of `i16`.
pub proof fn lemma_evaluation_bounds(s: BoardState, ai: u8, opponent: u8)
    ensures
        -11920 <= s.positional_score(ai, opponent) <= 11920,
        i16::MIN <= s.evaluation(ai, opponent) <= i16::MAX,
{
    lemma_win_count_bound(s.wins, BoardState::win_pos(ai));
    lemma_win_count_bound(s.wins, BoardState::win_pos(opponent));

    let centre_row = |i: int|
        sum_to(
            3,
            |j: int|
                indicator((s.cell(3 * i + 1, 3 * j + 1) & ai) != 0) - indicator(
                    (s.cell(3 * i + 1, 3 * j + 1) & opponent) != 0,
                ),
        ) * 10;
    assert forall|i: int| 0 <= i < 3 implies -30 <= #[trigger] centre_row(i) <= 30 by {
        lemma_sum_bounds(
            3,
            |j: int|
                indicator((s.cell(3 * i + 1, 3 * j + 1) & ai) != 0) - indicator(
                    (s.cell(3 * i + 1, 3 * j + 1) & opponent) != 0,
                ),
            -1,
            1,
        );
    }
    lemma_sum_bounds(3, centre_row, -30, 30);

    let pointing = |mb: int|
        if s.status(mb) == 0 {
            0
        } else {
            sum_to(9, |k: int| -owned(s.cell(mb / 3 + (k / 3) * 3, mb % 3 + (k % 3) * 3), ai, opponent) * 10 * 3)
        };
    assert forall|mb: int| 0 <= mb < 9 implies -270 <= #[trigger] pointing(mb) <= 270 by {
        lemma_sum_bounds(
            9,
            |k: int| -owned(s.cell(mb / 3 + (k / 3) * 3, mb % 3 + (k % 3) * 3), ai, opponent) * 10 * 3,
            -30,
            30,
        );
    }
    lemma_sum_bounds(9, pointing, -270, 270);

    let cell_lines = |mb: int|
        if s.move_count(mb, ai) >= 2 || s.move_count(mb, opponent) >= 2 {
            sum_to(8, |l: int| line_value(
                s.mini_cell(mb, line_point(l, 0).0, line_point(l, 0).1),
                s.mini_cell(mb, line_point(l, 1).0, line_point(l, 1).1),
                s.mini_cell(mb, line_point(l, 2).0, line_point(l, 2).1),
                ai, opponent, 2, 1))
        } else {
            0
        };
    assert forall|mb: int| 0 <= mb < 9 implies -720 <= #[trigger] cell_lines(mb) <= 720 by {
        let f = |l: int| line_value(
            s.mini_cell(mb, line_point(l, 0).0, line_point(l, 0).1),
            s.mini_cell(mb, line_point(l, 1).0, line_point(l, 1).1),
            s.mini_cell(mb, line_point(l, 2).0, line_point(l, 2).1),
            ai, opponent, 2, 1);
        assert forall|l: int| 0 <= l < 8 implies -90 <= #[trigger] f(l) <= 90 by {
            lemma_line_value_bounds(
                s.mini_cell(mb, line_point(l, 0).0, line_point(l, 0).1),
                s.mini_cell(mb, line_point(l, 1).0, line_point(l, 1).1),
                s.mini_cell(mb, line_point(l, 2).0, line_point(l, 2).1),
                ai, opponent, 2, 1);
        }
        lemma_sum_bounds(8, f, -90, 90);
    }
    lemma_sum_bounds(9, cell_lines, -720, 720);

    let mb_lines = |l: int|
        line_value(
            s.status(line_point(l, 0).0 * 3 + line_point(l, 0).1),
            s.status(line_point(l, 1).0 * 3 + line_point(l, 1).1),
            s.status(line_point(l, 2).0 * 3 + line_point(l, 2).1),
            ai,
            opponent,
            3,
            2,
        );
    assert forall|l: int| 0 <= l < 8 implies -90 <= #[trigger] mb_lines(l) <= 90 by {
        lemma_line_value_bounds(
            s.status(line_point(l, 0).0 * 3 + line_point(l, 0).1),
            s.status(line_point(l, 1).0 * 3 + line_point(l, 1).1),
            s.status(line_point(l, 2).0 * 3 + line_point(l, 2).1),
            ai, opponent, 3, 2);
    }
    lemma_sum_bounds(8, mb_lines, -90, 90);

    let free_row = |i: int| sum_to(3, |j: int| owned(s.cell(4 * i, 4 * j), ai, opponent)) * 10 * 3;
    assert forall|i: int| 0 <= i < 3 implies -90 <= #[trigger] free_row(i) <= 90 by {
        lemma_sum_bounds(3, |j: int| owned(s.cell(4 * i, 4 * j), ai, opponent), -1, 1);
    }
    lemma_sum_bounds(3, free_row, -90, 90);
}

#[derive(Debug, Clone, Copy)]
pub struct AI {
    ai_shape: u8,
    opponent_shape: u8,
}

impl AI {
    /// The opponent is X for an O AI and O for any other AI.
    #[verifier::type_invariant]
    spec fn shapes_paired(self) -> bool {
        if self.ai_shape == flag::O_PLAYER {
            self.opponent_shape == flag::X_PLAYER
        } else {
            self.opponent_shape == flag::O_PLAYER
        }
    }

    /// The shape the AI plays.
    pub closed spec fn shape(self) -> u8 {
        self.ai_shape
    }

    /// The shape its opponent plays.
    pub closed spec fn opponent(self) -> u8 {
        self.opponent_shape
    }

    /// Creates a new [`AI`] with either `X` or `O` shape
    /// representing `1` or `2`.
    pub fn new(ai_shape: u8) -> (ai: Self)
        ensures
            ai.shape() == ai_shape,
            ai.opponent() == if ai_shape == flag::O_PLAYER {
                flag::X_PLAYER
            } else {
                flag::O_PLAYER
            },
    {
        let opponent_shape = if ai_shape == flag::O_PLAYER {
            flag::X_PLAYER
        } else {
            flag::O_PLAYER
        };
        Self { ai_shape, opponent_shape }
    }

    /// The shape the AI plays.
    pub fn ai_shape(&self) -> (shape: u8)
        ensures
            shape == self.shape(),
    {
        self.ai_shape
    }
}

impl AI {
    /// Scores six pattern values: the two continuous pairs and the broken
    /// pair that the AI holds, less those that its opponent holds.
    fn pattern_score(&self, values: [u8; 6], continuous: i16, broken: i16) -> (score: i16)
        requires
            self.shape() == 1 || self.shape() == 2,
            forall|k: int| 0 <= k < 6 ==> #[trigger] values[k] <= 3,
            0 <= continuous <= 3,
            0 <= broken <= 3,
        ensures
            score == pattern_value(values, self.shape(), self.opponent(), continuous as int, broken as int),
            -90 <= score <= 90,
    {
        proof {
            use_type_invariant(self);
        }
        let (v0, v1, v2, v3, v4, v5) = (
            values[0] as u16,
            values[1] as u16,
            values[2] as u16,
            values[3] as u16,
            values[4] as u16,
            values[5] as u16,
        );
        let a = self.ai_shape as u16;
        let o = self.opponent_shape as u16;
        let pattern = v0 | (v1 << 2) | (v2 << 4) | (v3 << 6) | (v4 << 8) | (v5 << 10);
        let pattern_ai = a | (a << 2) | (a << 4) | (a << 6) | (a << 8) | (a << 10);
        let pattern_opp = o | (o << 2) | (o << 4) | (o << 6) | (o << 8) | (o << 10);
        proof {
            assert(values[0] <= 3 && values[1] <= 3 && values[2] <= 3 && values[3] <= 3
                && values[4] <= 3 && values[5] <= 3);
            lemma_pattern_bits(v0, v1, v2, v3, v4, v5, a);
            lemma_pattern_bits(v0, v1, v2, v3, v4, v5, o);
        }

        let ai_continous = ((pattern_ai & 0b1111u16 == pattern & 0b1111) as i16) + ((pattern_ai & (
        0b1111 << 4) == pattern & (0b1111u16 << 4)) as i16);

        let opp_continous = ((pattern_opp & 0b1111u16 == pattern & 0b1111) as i16) + ((pattern_opp
            & (0b1111u16 << 4) == pattern & (0b1111u16 << 4)) as i16);

        let ai_broken = ((pattern_ai & (0b1111u16 << 8)) == (pattern & (0b1111u16 << 8))) as i16;
        let opp_broken = ((pattern_opp & (0b1111u16 << 8)) == (pattern & (0b1111u16 << 8))) as i16;
        assert(-60 <= (ai_continous - opp_continous) * 10 * continuous <= 60) by (nonlinear_arith)
            requires
                -2 <= ai_continous - opp_continous <= 2,
                0 <= continuous <= 3,
        ;
        assert(-30 <= (ai_broken - opp_broken) * 10 * broken <= 30) by (nonlinear_arith)
            requires
                -1 <= ai_broken - opp_broken <= 1,
                0 <= broken <= 3,
        ;

        ((ai_continous - opp_continous) * SCORE_UNIT * continuous) + ((ai_broken - opp_broken)
            * SCORE_UNIT * broken)
    }
}

/// A line value lies within ninety points either way.
proof fn lemma_line_value_bounds(v0: u8, v1: u8, v2: u8, ai: u8, opponent: u8, continuous: int, broken: int)
    requires
        0 <= continuous <= 3,
        0 <= broken <= 3,
    ensures
        -90 <= line_value(v0, v1, v2, ai, opponent, continuous, broken) <= 90,
{
    let pairs = |p: u8| indicator(v0 == p && v1 == p) + indicator(v1 == p && v2 == p);
    let ends = |p: u8| indicator(v0 == p && v2 == p);
    assert(-2 <= pairs(ai) - pairs(opponent) <= 2);
    assert(-1 <= ends(ai) - ends(opponent) <= 1);
    assert(-60 <= (pairs(ai) - pairs(opponent)) * 10 * continuous <= 60) by (nonlinear_arith)
        requires
            -2 <= pairs(ai) - pairs(opponent) <= 2,
            0 <= continuous <= 3,
    ;
    assert(-30 <= (ends(ai) - ends(opponent)) * 10 * broken <= 30) by (nonlinear_arith)
        requires
            -1 <= ends(ai) - ends(opponent) <= 1,
            0 <= broken <= 3,
    ;
}

impl AI {
    /// Miniboards won by the AI less those won by the opponent.
    fn won_miniboards_term(&self, board: &Board) -> (score: i16)
        requires
            self.shape() == 1 || self.shape() == 2,
        ensures
            score == board@.won_miniboards_score(self.shape(), self.opponent()),
            -1680 <= score <= 1680,
    {
        proof {
            use_type_invariant(self);
        }
        ((board.get_miniboard_win_count_of(self.ai_shape) as i16)
            - (board.get_miniboard_win_count_of(self.opponent_shape)) as i16) * SCORE_UNIT
            * MINIBOARD_WIN_COUNT
    }

    /// Holding the centre miniboard.
    fn centre_miniboard_term(&self, board: &Board) -> (score: i16)
        ensures
            score == board@.centre_miniboard_score(self.shape(), self.opponent()),
            -250 <= score <= 250,
    {
        let centre_status = board.get_status_of(4);
        (((centre_status == self.ai_shape) as i16) - ((centre_status == self.opponent_shape)
            as i16)) * SCORE_UNIT * CENTRE_MB_CONTROL
    }

    /// Cells pointing to decided miniboards.
    fn pointing_term(&self, board: &Board) -> (score: i16)
        ensures
            score == board@.pointing_score(self.shape(), self.opponent()),
            -2430 <= score <= 2430,
    {
        let ghost a = self.shape();
        let ghost o = self.opponent();
        let ghost s = board@;
        let ghost outer = |mb: int|
            if s.status(mb) == 0 {
                0
            } else {
                sum_to(9, |k: int| -owned(s.cell(mb / 3 + (k / 3) * 3, mb % 3 + (k % 3) * 3), a, o) * 10 * 3)
            };
        let mut score: i16 = 0;
        let mut mb: u8 = 0;
        while mb < 9
            invariant
                mb <= 9,
                a == self.shape() && o == self.opponent() && s == board@,
                outer == (|mb: int|
                    if s.status(mb) == 0 {
                        0
                    } else {
                        sum_to(9, |k: int| -owned(s.cell(mb / 3 + (k / 3) * 3, mb % 3 + (k % 3) * 3), a, o) * 10 * 3)
                    }),
                score == sum_to(mb as int, outer),
                -270 * mb <= score <= 270 * mb,
            decreases 9 - mb,
        {
            if board.get_status_of(mb) != flag::STATUS_CONTESTABLE {
                let ghost inner = |k: int| -owned(s.cell(mb / 3 + (k / 3) * 3, mb % 3 + (k % 3) * 3), a, o) * 10 * 3;
                let (mb_row, mb_col) = (mb / 3, mb % 3);
                let mut mb_score: i16 = 0;
                let mut row: u8 = 0;
                while row < 3
                    invariant
                        row <= 3,
                        mb < 9,
                        mb_row == mb / 3 && mb_col == mb % 3,
                        a == self.shape() && o == self.opponent() && s == board@,
                        inner == (|k: int| -owned(s.cell(mb / 3 + (k / 3) * 3, mb % 3 + (k % 3) * 3), a, o) * 10 * 3),
                        mb_score == sum_to(3 * row as int, inner),
                        -90 * row <= mb_score <= 90 * row,
                    decreases 3 - row,
                {
                    let mut col: u8 = 0;
                    while col < 3
                        invariant
                            row < 3,
                            col <= 3,
                            mb < 9,
                            mb_row == mb / 3 && mb_col == mb % 3,
                            a == self.shape() && o == self.opponent() && s == board@,
                            inner == (|k: int| -owned(s.cell(mb / 3 + (k / 3) * 3, mb % 3 + (k % 3) * 3), a, o) * 10 * 3),
                            mb_score == sum_to(3 * row + col, inner),
                            -90 * row - 30 * col <= mb_score <= 90 * row + 30 * col,
                        decreases 3 - col,
                    {
                        let cell_state = board.get_cell(mb_row + row * 3, mb_col + col * 3);
                        let ai_pointing = cell_state == self.ai_shape;
                        let opp_pointing = cell_state == self.opponent_shape;
                        assert(inner(3 * row + col) == (opp_pointing as int - ai_pointing as int) * 30);
                        mb_score += (opp_pointing as i16 - ai_pointing as i16) * SCORE_UNIT
                            * UNCONTESTABLE_MB_POINTED_AT;
                        col += 1;
                    }
                    row += 1;
                }
                assert(outer(mb as int) == sum_to(9, inner));
                score += mb_score;
            }
            mb += 1;
        }
        score
    }

    /// Centre cells of the miniboards held by each side.
    fn centre_cells_term(&self, board: &Board) -> (score: i16)
        requires
            self.shape() == 1 || self.shape() == 2,
        ensures
            score == board@.centre_cells_score(self.shape(), self.opponent()),
            -90 <= score <= 90,
    {
        proof {
            use_type_invariant(self);
        }
        let ghost a = self.shape();
        let ghost o = self.opponent();
        let ghost s = board@;
        let ghost per_row = |i: int|
            sum_to(
                3,
                |j: int|
                    indicator((s.cell(3 * i + 1, 3 * j + 1) & a) != 0) - indicator(
                        (s.cell(3 * i + 1, 3 * j + 1) & o) != 0,
                    ),
            ) * 10;

        // Produces repeating 0b001100 across the 18-bit range
        let ai_shifted = (self.ai_shape as u32) << 2;
        let opp_shifted = (self.opponent_shape as u32) << 2;
        assert(ai_shifted == 4 * a && opp_shifted == 4 * o) by (bit_vector)
            requires
                a <= 2 && o <= 2,
                ai_shifted == (a as u32) << 2,
                opp_shifted == (o as u32) << 2,
        ;
        let ai_centre_cell_mask = REP_UNIT * ai_shifted;
        let opp_centre_cell_mask = REP_UNIT * opp_shifted;

        // row-by-row get the centre cell of each miniboard
        // then check if ai or opp
        let mut score: i16 = 0;
        let mut row: usize = 1;
        while row < 9
            invariant
                row % 3 == 1,
                row <= 10,
                a == self.shape() && o == self.opponent() && s == board@,
                a == 1 || a == 2,
                o == 3 - a,
                (a == 1 && ai_centre_cell_mask == 16644) || (a == 2 && ai_centre_cell_mask == 33288),
                (o == 1 && opp_centre_cell_mask == 16644) || (o == 2 && opp_centre_cell_mask == 33288),
                per_row == (|i: int|
                    sum_to(
                        3,
                        |j: int|
                            indicator((s.cell(3 * i + 1, 3 * j + 1) & a) != 0) - indicator(
                                (s.cell(3 * i + 1, 3 * j + 1) & o) != 0,
                            ),
                    ) * 10),
                score == sum_to((row / 3) as int, per_row),
                -30 * (row / 3) <= score <= 30 * (row / 3),
            decreases 10 - row,
        {
            let r = board.main_board[row];
            proof {
                lemma_centre_count(r, a, ai_centre_cell_mask);
                lemma_centre_count(r, o, opp_centre_cell_mask);
            }
            let aicnt = u32_count_ones(r & ai_centre_cell_mask) as i16;
            let oppcnt = u32_count_ones(r & opp_centre_cell_mask) as i16;
            proof {
                let i = (row / 3) as int;
                let fa = |j: int| indicator(((field(r, (2 * (3 * j + 1)) as u32, 3) as u8) & a) != 0);
                let fo = |j: int| indicator(((field(r, (2 * (3 * j + 1)) as u32, 3) as u8) & o) != 0);
                reveal_with_fuel(sum_to, 4);
                assert(per_row(i) == (sum_to(3, fa) - sum_to(3, fo)) * 10);
            }
            score += (aicnt - oppcnt) * SCORE_UNIT * CENTRE_CELL_CONTROL;
            row += 3;
        }
        score
    }

    /// Near-won lines of cells within the miniboards where either side has
    /// at least two cells.
    fn cell_lines_term(&self, board: &Board) -> (score: i16)
        requires
            self.shape() == 1 || self.shape() == 2,
        ensures
            score == board@.cell_lines_score(self.shape(), self.opponent()),
            -6480 <= score <= 6480,
    {
        proof {
            use_type_invariant(self);
            lemma_line_patterns();
            lemma_winning_lines_shape();
        }
        let ghost a = self.shape();
        let ghost o = self.opponent();
        let ghost s = board@;
        let mut score: i16 = 0;
        let mut miniboard: u8 = 0;
        while miniboard < 9
            invariant
                miniboard <= 9,
                a == self.shape() && o == self.opponent() && s == board@,
                a == 1 || a == 2,
                o == 3 - a,
                score == sum_to(miniboard as int, |mb: int|
                    if s.move_count(mb, a) >= 2 || s.move_count(mb, o) >= 2 {
                        sum_to(8, |l: int| line_value(
                            s.mini_cell(mb, line_point(l, 0).0, line_point(l, 0).1),
                            s.mini_cell(mb, line_point(l, 1).0, line_point(l, 1).1),
                            s.mini_cell(mb, line_point(l, 2).0, line_point(l, 2).1),
                            a, o, 2, 1))
                    } else {
                        0
                    }),
                -720 * miniboard <= score <= 720 * miniboard,
            decreases 9 - miniboard,
        {
            let ghost lines_here = |l: int| line_value(
                s.mini_cell(miniboard as int, line_point(l, 0).0, line_point(l, 0).1),
                s.mini_cell(miniboard as int, line_point(l, 1).0, line_point(l, 1).1),
                s.mini_cell(miniboard as int, line_point(l, 2).0, line_point(l, 2).1),
                a, o, 2, 1);
            if board.get_player_move_count_of(miniboard, self.ai_shape) >= 2
                || board.get_player_move_count_of(miniboard, self.opponent_shape) >= 2
            {
                let cells = board.get_miniboard_cells(miniboard);
                let mut mb_score: i16 = 0;
                let mut l: usize = 0;
                while l < 8
                    invariant
                        l <= 8,
                        miniboard < 9,
                        a == self.shape() && o == self.opponent() && s == board@,
                        a == 1 || a == 2,
                        s.packs_miniboard(cells, miniboard as int),
                        lines_here == (|l: int| line_value(
                            s.mini_cell(miniboard as int, line_point(l, 0).0, line_point(l, 0).1),
                            s.mini_cell(miniboard as int, line_point(l, 1).0, line_point(l, 1).1),
                            s.mini_cell(miniboard as int, line_point(l, 2).0, line_point(l, 2).1),
                            a, o, 2, 1)),
                        mb_score == sum_to(l as int, lines_here),
                        -90 * l <= mb_score <= 90 * l,
                    decreases 8 - l,
                {
                    let line = LINE_PATTERNS[l];
                    let mut values = [0u8; 6];
                    let mut i: usize = 0;
                    while i < 6
                        invariant
                            i <= 6,
                            l < 8,
                            miniboard < 9,
                            line == LINE_PATTERNS[l as int],
                            s == board@,
                            s.packs_miniboard(cells, miniboard as int),
                            forall|k: int|
                                0 <= k < i ==> #[trigger] values[k] == s.mini_cell(
                                    miniboard as int,
                                    line[k].0 as int,
                                    line[k].1 as int,
                                ) && values[k] <= 3,
                            forall|k: int| 0 <= k < 6 ==> #[trigger] values[k] <= 3,
                        decreases 6 - i,
                    {
                        let (row, column) = line[i];
                        let offset = (row * 3 + column) * 2;
                        proof {
                            lemma_get_field(cells, offset as u32, 3);
                            assert(field(cells, ((row * 3 + column) * 2) as u32, 3)
                                == s.mini_cell(miniboard as int, row as int, column as int) as u32);
                        }
                        values[i] = ((cells >> offset) & 0b11) as u8;
                        i += 1;
                    }
                    let line_score = self.pattern_score(values, CONTINUOUS_CELL_LINES, BROKEN_CELL_LINES);
                    proof {
                        assert(pattern_value(values, a, o, 2, 1) == lines_here(l as int));
                    }
                    mb_score += line_score;
                    l += 1;
                }
                score += mb_score;
            }
            miniboard += 1;
        }
        score
    }

    /// Near-won lines of miniboards on the big board.
    fn miniboard_lines_term(&self, board: &Board) -> (score: i16)
        requires
            self.shape() == 1 || self.shape() == 2,
        ensures
            score == board@.miniboard_lines_score(self.shape(), self.opponent()),
            -720 <= score <= 720,
    {
        proof {
            use_type_invariant(self);
            lemma_line_patterns();
            lemma_winning_lines_shape();
        }
        let ghost a = self.shape();
        let ghost o = self.opponent();
        let ghost s = board@;
        let ghost per_line = |l: int|
            line_value(
                s.status(line_point(l, 0).0 * 3 + line_point(l, 0).1),
                s.status(line_point(l, 1).0 * 3 + line_point(l, 1).1),
                s.status(line_point(l, 2).0 * 3 + line_point(l, 2).1),
                a,
                o,
                3,
                2,
            );
        let mbss = board.get_miniboard_statuses();
        let mut score: i16 = 0;
        let mut l: usize = 0;
        while l < 8
            invariant
                l <= 8,
                a == self.shape() && o == self.opponent() && s == board@,
                a == 1 || a == 2,
                s.packs_statuses(mbss),
                per_line == (|l: int|
                    line_value(
                        s.status(line_point(l, 0).0 * 3 + line_point(l, 0).1),
                        s.status(line_point(l, 1).0 * 3 + line_point(l, 1).1),
                        s.status(line_point(l, 2).0 * 3 + line_point(l, 2).1),
                        a,
                        o,
                        3,
                        2,
                    )),
                score == sum_to(l as int, per_line),
                -90 * l <= score <= 90 * l,
            decreases 8 - l,
        {
            let line = LINE_PATTERNS[l];
            let mut values = [0u8; 6];
            let mut i: usize = 0;
            while i < 6
                invariant
                    i <= 6,
                    l < 8,
                    line == LINE_PATTERNS[l as int],
                    s == board@,
                    s.packs_statuses(mbss),
                    forall|k: int|
                        0 <= k < i ==> #[trigger] values[k] == s.status(
                            line[k].1 as int + line[k].0 as int * 3,
                        ) && values[k] <= 3,
                    forall|k: int| 0 <= k < 6 ==> #[trigger] values[k] <= 3,
                decreases 6 - i,
            {
                let (row, column) = line[i];
                let miniboard = column + row * 3;
                proof {
                    lemma_get_field(mbss, (miniboard * 2) as u32, 3);
                    assert(field(mbss, (2 * miniboard) as u32, 3) == s.status(miniboard as int) as u32);
                }
                values[i] = ((mbss >> (miniboard * 2)) & 0b11) as u8;
                i += 1;
            }
            let line_score = self.pattern_score(values, CONTINUOUS_MB_LINES, BROKEN_MB_LINES);
            proof {
                assert(pattern_value(values, a, o, 3, 2) == per_line(l as int));
            }
            score += line_score;
            l += 1;
        }
        score
    }

    /// Free cells: the cells that send a player back to their own miniboard.
    fn free_cells_term(&self, board: &Board) -> (score: i16)
        ensures
            score == board@.free_cells_score(self.shape(), self.opponent()),
            -270 <= score <= 270,
    {
        let ghost a = self.shape();
        let ghost o = self.opponent();
        let ghost s = board@;
        let ghost per_row = |i: int| sum_to(3, |j: int| owned(s.cell(4 * i, 4 * j), a, o)) * 10 * 3;
        let mut score: i16 = 0;
        let mut row: usize = 0;
        while row < 9
            invariant
                row % 4 == 0,
                row <= 12,
                a == self.shape() && o == self.opponent() && s == board@,
                per_row == (|i: int| sum_to(3, |j: int| owned(s.cell(4 * i, 4 * j), a, o)) * 10 * 3),
                score == sum_to((row / 4) as int, per_row),
                -90 * (row / 4) <= score <= 90 * (row / 4),
            decreases 12 - row,
        {
            let r = board.main_board[row];
            proof {
                lemma_get_field(r, 0, 3);
                lemma_get_field(r, 8, 3);
                lemma_get_field(r, 16, 3);
                lemma_shift_zero(r);
            }
            let first = (r & 0b11) as u8;
            let middle = ((r >> 8) & 0b11) as u8;
            let end = ((r >> 16) & 0b11) as u8;
            // simplified from (row & (0b11 << dx)) >> dx, where dx == offset

            let ai_used_free = (((first == self.ai_shape) as u8) + ((middle == self.ai_shape) as u8)
                + ((end == self.ai_shape) as u8)) as i16;

            let opp_used_free = (((first == self.opponent_shape) as u8) + ((middle
                == self.opponent_shape) as u8) + ((end == self.opponent_shape) as u8)) as i16;

            proof {
                let i = (row / 4) as int;
                assert(s.cell(4 * i, 0) == first);
                assert(s.cell(4 * i, 4) == middle);
                assert(s.cell(4 * i, 8) == end);
                reveal_with_fuel(sum_to, 4);
                assert(per_row(i) == (ai_used_free - opp_used_free) * 30);
            }
            score += (ai_used_free - opp_used_free) * SCORE_UNIT * FREE_MOVE_CELL_SAME_MB;
            row += 4;
        }
        score
    }
}

/// The bits of `r` under the mask of the centre cells' low bits.
proof fn lemma_centre_bits_x(r: u32)
    by (bit_vector)
    ensures
        ((r & 16644u32) >> 0u32) & 1 == 0,
        ((r & 16644u32) >> 1u32) & 1 == 0,
        ((r & 16644u32) >> 2u32) & 1 == (r >> 2u32) & 1,
        ((r & 16644u32) >> 3u32) & 1 == 0,
        ((r & 16644u32) >> 4u32) & 1 == 0,
        ((r & 16644u32) >> 5u32) & 1 == 0,
        ((r & 16644u32) >> 6u32) & 1 == 0,
        ((r & 16644u32) >> 7u32) & 1 == 0,
        ((r & 16644u32) >> 8u32) & 1 == (r >> 8u32) & 1,
        ((r & 16644u32) >> 9u32) & 1 == 0,
        ((r & 16644u32) >> 10u32) & 1 == 0,
        ((r & 16644u32) >> 11u32) & 1 == 0,
        ((r & 16644u32) >> 12u32) & 1 == 0,
        ((r & 16644u32) >> 13u32) & 1 == 0,
        ((r & 16644u32) >> 14u32) & 1 == (r >> 14u32) & 1,
        ((r & 16644u32) >> 15u32) & 1 == 0,
        ((r & 16644u32) >> 16u32) & 1 == 0,
        ((r & 16644u32) >> 17u32) & 1 == 0,
        ((r & 16644u32) >> 18u32) & 1 == 0,
        ((r & 16644u32) >> 19u32) & 1 == 0,
        ((r & 16644u32) >> 20u32) & 1 == 0,
        ((r & 16644u32) >> 21u32) & 1 == 0,
        ((r & 16644u32) >> 22u32) & 1 == 0,
        ((r & 16644u32) >> 23u32) & 1 == 0,
        ((r & 16644u32) >> 24u32) & 1 == 0,
        ((r & 16644u32) >> 25u32) & 1 == 0,
        ((r & 16644u32) >> 26u32) & 1 == 0,
        ((r & 16644u32) >> 27u32) & 1 == 0,
        ((r & 16644u32) >> 28u32) & 1 == 0,
        ((r & 16644u32) >> 29u32) & 1 == 0,
        ((r & 16644u32) >> 30u32) & 1 == 0,
        ((r & 16644u32) >> 31u32) & 1 == 0,
        ((((r >> 2u32) & 3) as u8) & 1u8 != 0) == ((r >> 2u32) & 1 == 1),
        (r >> 2u32) & 1 <= 1,
        ((((r >> 8u32) & 3) as u8) & 1u8 != 0) == ((r >> 8u32) & 1 == 1),
        (r >> 8u32) & 1 <= 1,
        ((((r >> 14u32) & 3) as u8) & 1u8 != 0) == ((r >> 14u32) & 1 == 1),
        (r >> 14u32) & 1 <= 1,
{
}

/// The bits of `r` under the mask of the centre cells' high bits.
proof fn lemma_centre_bits_o(r: u32)
    by (bit_vector)
    ensures
        ((r & 33288u32) >> 0u32) & 1 == 0,
        ((r & 33288u32) >> 1u32) & 1 == 0,
        ((r & 33288u32) >> 2u32) & 1 == 0,
        ((r & 33288u32) >> 3u32) & 1 == (r >> 3u32) & 1,
        ((r & 33288u32) >> 4u32) & 1 == 0,
        ((r & 33288u32) >> 5u32) & 1 == 0,
        ((r & 33288u32) >> 6u32) & 1 == 0,
        ((r & 33288u32) >> 7u32) & 1 == 0,
        ((r & 33288u32) >> 8u32) & 1 == 0,
        ((r & 33288u32) >> 9u32) & 1 == (r >> 9u32) & 1,
        ((r & 33288u32) >> 10u32) & 1 == 0,
        ((r & 33288u32) >> 11u32) & 1 == 0,
        ((r & 33288u32) >> 12u32) & 1 == 0,
        ((r & 33288u32) >> 13u32) & 1 == 0,
        ((r & 33288u32) >> 14u32) & 1 == 0,
        ((r & 33288u32) >> 15u32) & 1 == (r >> 15u32) & 1,
        ((r & 33288u32) >> 16u32) & 1 == 0,
        ((r & 33288u32) >> 17u32) & 1 == 0,
        ((r & 33288u32) >> 18u32) & 1 == 0,
        ((r & 33288u32) >> 19u32) & 1 == 0,
        ((r & 33288u32) >> 20u32) & 1 == 0,
        ((r & 33288u32) >> 21u32) & 1 == 0,
        ((r & 33288u32) >> 22u32) & 1 == 0,
        ((r & 33288u32) >> 23u32) & 1 == 0,
        ((r & 33288u32) >> 24u32) & 1 == 0,
        ((r & 33288u32) >> 25u32) & 1 == 0,
        ((r & 33288u32) >> 26u32) & 1 == 0,
        ((r & 33288u32) >> 27u32) & 1 == 0,
        ((r & 33288u32) >> 28u32) & 1 == 0,
        ((r & 33288u32) >> 29u32) & 1 == 0,
        ((r & 33288u32) >> 30u32) & 1 == 0,
        ((r & 33288u32) >> 31u32) & 1 == 0,
        ((((r >> 2u32) & 3) as u8) & 2u8 != 0) == ((r >> 3u32) & 1 == 1),
        (r >> 3u32) & 1 <= 1,
        ((((r >> 8u32) & 3) as u8) & 2u8 != 0) == ((r >> 9u32) & 1 == 1),
        (r >> 9u32) & 1 <= 1,
        ((((r >> 14u32) & 3) as u8) & 2u8 != 0) == ((r >> 15u32) & 1 == 1),
        (r >> 15u32) & 1 <= 1,
{
}

/// The number of set bits of `x`.
pub open spec fn ones(x: u32) -> int {
    sum_to(32, |i: int| ((x >> i as u32) & 1) as int)
}

/// `std`'s `u32::count_ones`: the number of set bits of `x`, stated as the
/// sum of its 32 bits.
#[verifier::external_body]
fn u32_count_ones(x: u32) -> (count: u32)
    ensures
        count == ones(x),
{
    x.count_ones()
}

/// Counting the set bits of a row under the centre-cell mask of X or O counts
/// the centre cells (columns 1, 4 and 7) that carry that shape's bit.
proof fn lemma_centre_count(r: u32, shape: u8, mask: u32)
    requires
        (shape == 1 && mask == 16644) || (shape == 2 && mask == 33288),
    ensures
        ones(r & mask) == sum_to(
            3,
            |j: int| indicator(((field(r, (2 * (3 * j + 1)) as u32, 3) as u8) & shape) != 0),
        ),
        0 <= ones(r & mask) <= 3,
{
    reveal_with_fuel(sum_to, 33);
    if shape == 1 {
        lemma_centre_bits_x(r);
    } else {
        lemma_centre_bits_o(r);
    }
}

proof fn lemma_shift_zero(x: u32)
    by (bit_vector)
    ensures
        x >> 0 == x,
{
}

impl AI {
    /// Returns the evaluation of the board state. Used internally to inform good/bad moves
    /// Winning = `i16::MAX`, Drawing = 0, Losing = `i16::MIN`
    pub fn evaluate(&self, board: &Board) -> (score: i16)
        requires
            board@.can_score_game(),
            self.shape() == 1 || self.shape() == 2 || board@.game_status() == self.shape()
                || board@.game_status() == self.opponent(),
        ensures
            score == board@.evaluation(self.shape(), self.opponent()),
    {
        let game_status = board.calculate_game_status();
        if game_status == self.opponent_shape {
            return i16::MIN;
        } else if game_status == self.ai_shape {
            return i16::MAX;
        } else if game_status == flag::STATUS_DRAW {
            return 0;
        }

        let mut score: i16 = 0;

        /////* Miniboards won */////
        score += self.won_miniboards_term(board);

        /////* centre-control: board-wide and in individual miniboards */////
        score += self.centre_miniboard_term(board);
        score += self.centre_cells_term(board);

        /////* Pointing to uncontestable miniboards */////
        score += self.pointing_term(board);

        /////* Near-won cell miniboard patterns */////
        score += self.cell_lines_term(board);

        /////* Near-won miniboard patterns */////
        score += self.miniboard_lines_term(board);

        /////* Sending to free boards */////
        score += self.free_cells_term(board);

        score
    }
}

/// `score` is what a fail-soft alpha-beta search with window
/// `(alpha, beta)` may answer when the minimax value is `value`: exact inside
/// the window, an upper bound at or below `alpha`, a lower bound at or above
/// `beta`.
pub open spec fn fail_soft(score: int, value: int, alpha: int, beta: int) -> bool {
    &&& score <= alpha ==> value <= score
    &&& score >= beta ==> value >= score
    &&& alpha < score < beta ==> value == score
}

impl AI {
    /// The shape that moves at a maximising node (the AI) or a minimising one
    /// (its opponent).
    pub open spec fn mover(self, is_max: bool) -> u8 {
        if is_max {
            self.shape()
        } else {
            self.opponent()
        }
    }

    /// The minimax value of a board searched `depth` moves deep: its
    /// evaluation when the depth is spent or the game is decided, otherwise
    /// the best over its valid moves for the side to move.
    pub open spec fn minimax(self, s: BoardState, depth: nat, is_max: bool) -> int
        decreases depth, 0nat, 0nat,
    {
        if depth == 0 || s.game_status() != 0 {
            s.evaluation(self.shape(), self.opponent())
        } else {
            self.best_reply(s, s.marked_moves(), (depth - 1) as nat, is_max)
        }
    }

    /// The best minimax value, searched `depth` moves deep, of the boards
    /// that `moves` lead to from `s`: the largest for the AI, the smallest for
    /// its opponent; the lowest or the highest score when there is none.
    pub open spec fn best_reply(
        self,
        s: BoardState,
        moves: Seq<(u8, u8)>,
        depth: nat,
        is_max: bool,
    ) -> int
        decreases depth, 1nat, moves.len(),
    {
        if moves.len() == 0 {
            if is_max {
                i16::MIN as int
            } else {
                i16::MAX as int
            }
        } else {
            let before = self.best_reply(s, moves.drop_last(), depth, is_max);
            let last = moves.last();
            let child = self.minimax(
                s.played(last.0 as int, last.1 as int, self.mover(is_max)),
                depth,
                !is_max,
            );
            if is_max {
                if child > before {
                    child
                } else {
                    before
                }
            } else {
                if child < before {
                    child
                } else {
                    before
                }
            }
        }
    }

    /// Above depth zero, the minimax value of an undecided game is the best
    /// reply over its valid moves.
    proof fn lemma_minimax_unfold(self, s: BoardState, depth: nat, is_max: bool)
        requires
            depth > 0,
            s.game_status() == 0,
        ensures
            self.minimax(s, depth, is_max) == self.best_reply(s, s.marked_moves(), (depth - 1) as nat, is_max),
    {
    }

    /// The value for the search of the board after `mv`, played by the AI
    /// at its own nodes and by the opponent at the opponent's.
    pub open spec fn reply_value(self, s: BoardState, mv: (u8, u8), depth: nat, is_max: bool) -> int {
        if is_max {
            self.minimax(s.played(mv.0 as int, mv.1 as int, self.shape()), depth, false)
        } else {
            self.minimax(s.played(mv.0 as int, mv.1 as int, self.opponent()), depth, true)
        }
    }

    /// The best reply over `moves` is the largest (for the AI) or smallest
    /// (for its opponent) of the values of the boards after each move, the
    /// AI playing its own shape and the opponent the opponent's shape; the
    /// lowest or highest score when there is no move.
    proof fn lemma_best_reply_is_extreme(self, s: BoardState, moves: Seq<(u8, u8)>, depth: nat, is_max: bool)
        ensures
            forall|k: int|
                0 <= k < moves.len() ==> (is_max ==> self.best_reply(s, moves, depth, is_max)
                    >= self.minimax(
                    s.played((#[trigger] moves[k]).0 as int, moves[k].1 as int, self.shape()),
                    depth,
                    false,
                )) && (!is_max ==> self.best_reply(s, moves, depth, is_max) <= self.minimax(
                    s.played(moves[k].0 as int, moves[k].1 as int, self.opponent()),
                    depth,
                    true,
                )),
            moves.len() > 0 ==> exists|k: int|
                0 <= k < moves.len() && self.best_reply(s, moves, depth, is_max) == #[trigger] self.reply_value(s, moves[k], depth, is_max),
            forall|k: int|
                0 <= k < moves.len() ==> #[trigger] self.reply_value(s, moves[k], depth, is_max)
                    == if is_max {
                    self.minimax(s.played(moves[k].0 as int, moves[k].1 as int, self.shape()), depth, false)
                } else {
                    self.minimax(s.played(moves[k].0 as int, moves[k].1 as int, self.opponent()), depth, true)
                },
            moves.len() == 0 ==> self.best_reply(s, moves, depth, is_max) == if is_max {
                i16::MIN as int
            } else {
                i16::MAX as int
            },
        decreases moves.len(),
    {
        if moves.len() > 0 {
            let front = moves.drop_last();
            self.lemma_best_reply_is_extreme(s, front, depth, is_max);
            let n = moves.len() - 1;
            assert forall|k: int| 0 <= k < n implies #[trigger] moves[k] == front[k] by {}
            let last_value = self.reply_value(s, moves[n], depth, is_max);
            self.lemma_minimax_bounds(
                s.played(moves[n].0 as int, moves[n].1 as int, self.mover(is_max)),
                depth,
                !is_max,
            );
            if front.len() > 0 {
                let k = choose|k: int|
                    0 <= k < front.len() && self.best_reply(s, front, depth, is_max) == #[trigger] self.reply_value(s, front[k], depth, is_max);
                assert(moves[k] == front[k]);
                if self.best_reply(s, moves, depth, is_max) == last_value {
                    assert(self.best_reply(s, moves, depth, is_max) == self.reply_value(s, moves[n], depth, is_max));
                } else {
                    assert(self.best_reply(s, moves, depth, is_max) == self.reply_value(s, moves[k], depth, is_max));
                }
            } else {
                assert(self.best_reply(s, moves, depth, is_max) == self.reply_value(s, moves[n], depth, is_max));
            }
        }
    }

    /// The minimax value of an undecided game searched one move deeper is
    /// the best, for the side to move, of the values of the boards after its
    /// valid moves: for the AI the largest over the boards after its own
    /// moves, for its opponent the smallest over the boards after the
    /// opponent's moves; the lowest or highest score when there is no valid
    /// move.
    pub proof fn lemma_minimax_takes_the_best_move(self, s: BoardState, depth: nat)
        requires
            s.game_status() == 0,
        ensures
            forall|k: int|
                0 <= k < s.marked_moves().len() ==> self.minimax(s, depth + 1, true) >= self.minimax(
                    s.played((#[trigger] s.marked_moves()[k]).0 as int, s.marked_moves()[k].1 as int, self.shape()),
                    depth,
                    false,
                ) && self.minimax(s, depth + 1, false) <= self.minimax(
                    s.played(s.marked_moves()[k].0 as int, s.marked_moves()[k].1 as int, self.opponent()),
                    depth,
                    true,
                ),
            s.marked_moves().len() > 0 ==> (exists|k: int|
                0 <= k < s.marked_moves().len() && self.minimax(s, depth + 1, true) == self.minimax(
                    s.played((#[trigger] s.marked_moves()[k]).0 as int, s.marked_moves()[k].1 as int, self.shape()),
                    depth,
                    false,
                )) && (exists|k: int|
                0 <= k < s.marked_moves().len() && self.minimax(s, depth + 1, false) == self.minimax(
                    s.played((#[trigger] s.marked_moves()[k]).0 as int, s.marked_moves()[k].1 as int, self.opponent()),
                    depth,
                    true,
                )),
            s.marked_moves().len() == 0 ==> self.minimax(s, depth + 1, true) == i16::MIN as int
                && self.minimax(s, depth + 1, false) == i16::MAX as int,
    {
        let moves = s.marked_moves();
        self.lemma_minimax_unfold(s, depth + 1, true);
        self.lemma_minimax_unfold(s, depth + 1, false);
        self.lemma_best_reply_is_extreme(s, moves, depth, true);
        self.lemma_best_reply_is_extreme(s, moves, depth, false);
        if moves.len() > 0 {
            let k1 = choose|k: int|
                0 <= k < moves.len() && self.best_reply(s, moves, depth, true) == #[trigger] self.reply_value(s, moves[k], depth, true);
            assert(moves[k1] == s.marked_moves()[k1]);
            let k2 = choose|k: int|
                0 <= k < moves.len() && self.best_reply(s, moves, depth, false) == #[trigger] self.reply_value(s, moves[k], depth, false);
            assert(moves[k2] == s.marked_moves()[k2]);
        }
    }

    /// Every minimax value lies within the range of `i16`.
    pub proof fn lemma_minimax_bounds(self, s: BoardState, depth: nat, is_max: bool)
        ensures
            i16::MIN <= self.minimax(s, depth, is_max) <= i16::MAX,
        decreases depth, 0nat, 0nat,
    {
        if depth == 0 || s.game_status() != 0 {
            lemma_evaluation_bounds(s, self.shape(), self.opponent());
        } else {
            self.lemma_best_reply_bounds(s, s.marked_moves(), (depth - 1) as nat, is_max);
        }
    }

    /// Every best reply lies within the range of `i16`.
    pub proof fn lemma_best_reply_bounds(
        self,
        s: BoardState,
        moves: Seq<(u8, u8)>,
        depth: nat,
        is_max: bool,
    )
        ensures
            i16::MIN <= self.best_reply(s, moves, depth, is_max) <= i16::MAX,
        decreases depth, 1nat, moves.len(),
    {
        if moves.len() > 0 {
            self.lemma_best_reply_bounds(s, moves.drop_last(), depth, is_max);
            let last = moves.last();
            self.lemma_minimax_bounds(
                s.played(last.0 as int, last.1 as int, self.mover(is_max)),
                depth,
                !is_max,
            );
        }
    }

    /// The best reply over all the moves is at least (for the AI) or at most
    /// (for its opponent) the best reply over the first `k` of them.
    proof fn lemma_best_reply_prefix(
        self,
        s: BoardState,
        moves: Seq<(u8, u8)>,
        k: int,
        depth: nat,
        is_max: bool,
    )
        requires
            0 <= k <= moves.len(),
        ensures
            is_max ==> self.best_reply(s, moves, depth, is_max) >= self.best_reply(
                s,
                moves.take(k),
                depth,
                is_max,
            ),
            !is_max ==> self.best_reply(s, moves, depth, is_max) <= self.best_reply(
                s,
                moves.take(k),
                depth,
                is_max,
            ),
        decreases moves.len(),
    {
        if k == moves.len() {
            assert(moves.take(k) =~= moves);
        } else {
            self.lemma_best_reply_prefix(s, moves.drop_last(), k, depth, is_max);
            assert(moves.drop_last().take(k) =~= moves.take(k));
        }
    }

    /// Returns the evaluation of the current state after simulating moves till `depth`
    /// through `α-β pruning` variation of `minimax`.
    fn alphabeta_mm(&self, board: &mut Board, depth: u8, alpha: i16, beta: i16, is_max: bool) -> (score: i16)
        requires
            alpha < beta,
            self.shape() == 1 || self.shape() == 2,
            old(board)@.can_score_game(),
            old(board)@.counts_fit(),
            old(board)@.game_status() == 0 ==> old(board)@.searchable(),
        ensures
            *final(board) == *old(board),
            fail_soft(score as int, self.minimax(old(board)@, depth as nat, is_max), alpha as int, beta as int),
        decreases depth,
    {
        proof {
            use_type_invariant(self);
        }
        let ghost s = board@;
        if depth == 0 || board.calculate_game_status() != flag::STATUS_CONTESTABLE {
            return self.evaluate(board);
        }
        let ghost all = s.marked_moves();
        proof {
            lemma_marked_moves_are_marked(s, 0);
        }
        let ghost child_depth = (depth - 1) as nat;
        let mut moves = board.valid_moves();

        let ghost alpha_in = alpha;
        let ghost beta_in = beta;
        if is_max {
            let mut alpha = alpha;
            let mut score = i16::MIN;
            loop
                invariant_except_break
                    score < beta,
                    ({
                        let done = self.best_reply(s, all.take(all.len() - moves.remaining().len()), child_depth, true);
                        &&& score <= alpha_in ==> done <= score
                        &&& score > alpha_in ==> done == score
                    }),
                invariant
                    s == board@,
                    s.game_status() == 0,
                    child_depth == (depth - 1) as nat,
                    self.opponent() == 3 - self.shape(),
                    s.searchable(),
                    depth > 0,
                    self.shape() == 1 || self.shape() == 2,
                    all == s.marked_moves(),
                    forall|k: int|
                        0 <= k < all.len() ==> {
                            let (r, c) = #[trigger] all[k];
                            &&& r < 9
                            &&& c < 9
                            &&& s.marked_move(r as int, c as int)
                        },
                    moves.remaining().len() <= all.len(),
                    moves.remaining() == all.skip(all.len() - moves.remaining().len()),
                    alpha == (if score > alpha_in { score } else { alpha_in }),
                    alpha_in < beta,
                ensures
                    fail_soft(score as int, self.minimax(s, depth as nat, true), alpha_in as int, beta as int),
                decreases moves.remaining().len(),
            {
                let ghost k = all.len() - moves.remaining().len();
                let next = moves.next();
                match next {
                    None => {
                        assert(all.take(k) =~= all);
                        proof { self.lemma_minimax_unfold(s, depth as nat, is_max); }
                        break;
                    },
                    Some((row, column)) => {
                        assert(all[k] == (row, column)) by {
                            assert(moves.remaining() == all.skip(k + 1));
                        }
                        let mut child = board.clone();
                        assert(child == *board);
                        proof {
                            lemma_play_keeps_searchable(s, row as int, column as int, self.shape());
                        }
                        child.do_move(row, column, self.ai_shape);
                        let r = self.alphabeta_mm(&mut child, depth - 1, alpha, beta, false);
                        proof {
                            assert(all.take(k + 1).drop_last() =~= all.take(k));
                            assert(all.take(k + 1).last() == (row, column));
                            assert(moves.remaining() =~= all.skip(k + 1));
                            let v = self.minimax(s.played(row as int, column as int, self.shape()), child_depth, false);
                            let done = self.best_reply(s, all.take(k), child_depth, true);
                            assert(self.best_reply(s, all.take(k + 1), child_depth, true) == if v > done { v } else { done });
                            self.lemma_minimax_unfold(s, depth as nat, true);
                            if r >= beta {
                                self.lemma_best_reply_prefix(s, all, k + 1, child_depth, true);
                            }
                        }
                        score = if r > score { r } else { score };
                        alpha = if score > alpha { score } else { alpha };
                        if score >= beta {
                            break;
                        }
                    },
                }
            }
            score
        } else {
            let mut beta = beta;
            let mut score = i16::MAX;
            loop
                invariant_except_break
                    score > alpha,
                    ({
                        let done = self.best_reply(s, all.take(all.len() - moves.remaining().len()), child_depth, false);
                        &&& score >= beta_in ==> done >= score
                        &&& score < beta_in ==> done == score
                    }),
                invariant
                    s == board@,
                    s.game_status() == 0,
                    child_depth == (depth - 1) as nat,
                    self.opponent() == 3 - self.shape(),
                    s.searchable(),
                    depth > 0,
                    self.shape() == 1 || self.shape() == 2,
                    all == s.marked_moves(),
                    forall|k: int|
                        0 <= k < all.len() ==> {
                            let (r, c) = #[trigger] all[k];
                            &&& r < 9
                            &&& c < 9
                            &&& s.marked_move(r as int, c as int)
                        },
                    moves.remaining().len() <= all.len(),
                    moves.remaining() == all.skip(all.len() - moves.remaining().len()),
                    beta == (if score < beta_in { score } else { beta_in }),
                    alpha < beta_in,
                ensures
                    fail_soft(score as int, self.minimax(s, depth as nat, false), alpha as int, beta_in as int),
                decreases moves.remaining().len(),
            {
                let ghost k = all.len() - moves.remaining().len();
                let next = moves.next();
                match next {
                    None => {
                        assert(all.take(k) =~= all);
                        proof { self.lemma_minimax_unfold(s, depth as nat, is_max); }
                        break;
                    },
                    Some((row, column)) => {
                        assert(all[k] == (row, column)) by {
                            assert(moves.remaining() == all.skip(k + 1));
                        }
                        let mut child = board.clone();
                        assert(child == *board);
                        proof {
                            lemma_play_keeps_searchable(s, row as int, column as int, self.opponent());
                        }
                        child.do_move(row, column, self.opponent_shape);
                        let r = self.alphabeta_mm(&mut child, depth - 1, alpha, beta, true);
                        proof {
                            assert(all.take(k + 1).drop_last() =~= all.take(k));
                            assert(all.take(k + 1).last() == (row, column));
                            assert(moves.remaining() =~= all.skip(k + 1));
                            let v = self.minimax(s.played(row as int, column as int, self.opponent()), child_depth, true);
                            let done = self.best_reply(s, all.take(k), child_depth, false);
                            assert(self.best_reply(s, all.take(k + 1), child_depth, false) == if v < done { v } else { done });
                            self.lemma_minimax_unfold(s, depth as nat, false);
                            if r <= alpha {
                                self.lemma_best_reply_prefix(s, all, k + 1, child_depth, false);
                            }
                        }
                        score = if r < score { r } else { score };
                        beta = if score < beta { score } else { beta };
                        if score <= alpha {
                            break;
                        }
                    },
                }
            }
            score
        }
    }
}

impl AI {
    /// The minimax value, for the AI, of playing `mv` on `s` and searching
    /// `depth` more moves with its opponent to reply.
    pub open spec fn move_value(self, s: BoardState, mv: (u8, u8), depth: nat) -> int {
        self.minimax(s.played(mv.0 as int, mv.1 as int, self.shape()), depth, false)
    }

    /// Plays `mv` for the AI on a copy of the board and searches the replies
    /// `depth` moves deep with the full window.
    fn score_move(&self, board: &Board, mv: (u8, u8), depth: u8) -> (scored: (i16, (u8, u8)))
        requires
            self.shape() == 1 || self.shape() == 2,
            board@.searchable(),
            mv.0 < 9 && mv.1 < 9,
            board@.marked_move(mv.0 as int, mv.1 as int),
        ensures
            scored.1 == mv,
            scored.0 as int == self.move_value(board@, mv, depth as nat),
    {
        let (row, column) = mv;
        let mut board = board.clone();
        proof {
            lemma_play_keeps_searchable(board@, row as int, column as int, self.shape());
        }
        board.do_move(row, column, self.ai_shape);
        let ghost played = board@;
        let score = self.alphabeta_mm(&mut board, depth, i16::MIN, i16::MAX, false);
        proof {
            self.lemma_minimax_bounds(played, depth as nat, false);
        }
        (score, (row, column))
    }
}

/// `rayon`'s `par_bridge` and `max_by_key`: scores every move of `moves` on the
/// thread pool with [`AI::score_move`] and keeps one of the highest score.
/// The contract states what `max_by_key`'s source shows: `None` exactly when
/// there is no move, and otherwise one of the scored moves whose score no
/// other move's score exceeds. Which of several equal best moves comes back
/// depends on the threads and is left open.
#[verifier::external_body]
fn best_scored_move(ai: &AI, board: &Board, moves: Vec<(u8, u8)>, depth: u8) -> (best: Option<(i16, (u8, u8))>)
    requires
        ai.shape() == 1 || ai.shape() == 2,
        board@.searchable(),
        forall|k: int|
            0 <= k < moves.len() ==> {
                let (r, c) = #[trigger] moves@[k];
                r < 9 && c < 9 && board@.marked_move(r as int, c as int)
            },
    ensures
        best is None <==> moves@.len() == 0,
        best matches Some((score, mv)) ==> {
            &&& moves@.contains(mv)
            &&& score as int == ai.move_value(board@, mv, depth as nat)
            &&& forall|k: int|
                0 <= k < moves.len() ==> ai.move_value(board@, #[trigger] moves@[k], depth as nat)
                    <= score as int
        },
{
    moves.into_iter().par_bridge().map(|mv| ai.score_move(board, mv, depth)).max_by_key(
        |scored| scored.0,
    )
}

impl AI {
    /// `best` is what a search `depth` moves deep (five when `depth` is zero)
    /// may answer on `s`: one of the valid moves, with its minimax value, and
    /// no valid move has a higher one.
    pub open spec fn is_best_move(self, s: BoardState, depth: u8, best: (i16, (u8, u8))) -> bool {
        let depth = if depth > 0 { depth } else { DEPTH };
        &&& s.marked_moves().contains(best.1)
        &&& best.0 as int == self.move_value(s, best.1, (depth - 1) as nat)
        &&& forall|k: int|
            0 <= k < s.marked_moves().len() ==> self.move_value(
                s,
                #[trigger] s.marked_moves()[k],
                (depth - 1) as nat,
            ) <= best.0 as int
    }

    /// Generates a move in parallel at `depth` given the `Board` state:
    /// one of the valid moves with the best minimax value for the AI.
    pub fn calculate_move_par(&self, board: &Board, depth: u8) -> (best: (i16, (u8, u8)))
        requires
            self.shape() == 1 || self.shape() == 2,
            board@.searchable(),
            board@.marked_moves().len() > 0,
        ensures
            self.is_best_move(board@, depth, best),
    {
        let depth = if depth > 0 {
            depth
        } else {
            DEPTH
        };

        let ghost all = board@.marked_moves();
        proof {
            lemma_marked_moves_are_marked(board@, 0);
        }
        let mut valid = board.valid_moves();
        let mut moves: Vec<(u8, u8)> = Vec::new();
        loop
            invariant
                all == board@.marked_moves(),
                valid.remaining().len() <= all.len(),
                moves@ + valid.remaining() == all,
            ensures
                moves@ == all,
            decreases valid.remaining().len(),
        {
            let ghost before = valid.remaining();
            match valid.next() {
                Some(mv) => {
                    moves.push(mv);
                    assert(moves@ + valid.remaining() =~= all) by {
                        assert(before =~= seq![mv] + valid.remaining());
                    }
                },
                None => {
                    assert(moves@ =~= all);
                    break;
                },
            }
        }

        let bstmv = best_scored_move(self, board, moves, depth - 1);
        bstmv.expect("a move should've been selected")
    }
}

/// A player with fewer than two cells in a miniboard holds no two points
/// of a line there.
proof fn lemma_lone_cell_holds_no_pair(s: BoardState, mb: int, p: u8, l: int, i: int, j: int)
    requires
        0 <= mb < 9,
        0 <= l < 8,
        0 <= i < 3,
        0 <= j < 3,
        i != j,
        s.cells_holding(mb, p) < 2,
    ensures
        !(s.mini_cell(mb, line_point(l, i).0, line_point(l, i).1) == p && s.mini_cell(
            mb,
            line_point(l, j).0,
            line_point(l, j).1,
        ) == p),
{
    lemma_winning_lines_shape();
    let (ri, ci) = line_point(l, i);
    let (rj, cj) = line_point(l, j);
    let ki = ri * 3 + ci;
    let kj = rj * 3 + cj;
    assert(ki / 3 == ri && ki % 3 == ci);
    assert(kj / 3 == rj && kj % 3 == cj);
    assert(ki != kj);
    let f = |k: int| indicator(s.mini_cell(mb, k / 3, k % 3) == p);
    assert forall|k: int| 0 <= k < 9 implies 0 <= #[trigger] f(k) by {}
    lemma_sum_at_least_two_terms(9, f, ki, kj);
}

/// On a board whose move counts count its cells, the near-won cell lines
/// of every miniboard are scored: skipping the miniboards where neither side
/// has two cells leaves out only lines that score nothing, so a two in a
/// row counts as soon as it stands.
pub proof fn lemma_cell_lines_count_every_miniboard(s: BoardState, ai: u8, opponent: u8)
    requires
        ai == 1 && opponent == 2 || ai == 2 && opponent == 1,
        forall|m: int| 0 <= m < 9 ==> #[trigger] s.counts_match(m),
    ensures
        s.cell_lines_score(ai, opponent) == sum_to(
            9,
            |mb: int|
                sum_to(
                    8,
                    |l: int|
                        line_value(
                            s.mini_cell(mb, line_point(l, 0).0, line_point(l, 0).1),
                            s.mini_cell(mb, line_point(l, 1).0, line_point(l, 1).1),
                            s.mini_cell(mb, line_point(l, 2).0, line_point(l, 2).1),
                            ai,
                            opponent,
                            2,
                            1,
                        ),
                ),
        ),
{
    let lines = |mb: int|
        sum_to(
            8,
            |l: int|
                line_value(
                    s.mini_cell(mb, line_point(l, 0).0, line_point(l, 0).1),
                    s.mini_cell(mb, line_point(l, 1).0, line_point(l, 1).1),
                    s.mini_cell(mb, line_point(l, 2).0, line_point(l, 2).1),
                    ai,
                    opponent,
                    2,
                    1,
                ),
        );
    let filtered = |mb: int|
        if s.move_count(mb, ai) >= 2 || s.move_count(mb, opponent) >= 2 {
            lines(mb)
        } else {
            0
        };
    assert forall|mb: int| 0 <= mb < 9 implies #[trigger] filtered(mb) == lines(mb) by {
        if !(s.move_count(mb, ai) >= 2 || s.move_count(mb, opponent) >= 2) {
            assert(s.counts_match(mb));
            assert(s.cells_holding(mb, ai) < 2 && s.cells_holding(mb, opponent) < 2);
            let each = |l: int|
                line_value(
                    s.mini_cell(mb, line_point(l, 0).0, line_point(l, 0).1),
                    s.mini_cell(mb, line_point(l, 1).0, line_point(l, 1).1),
                    s.mini_cell(mb, line_point(l, 2).0, line_point(l, 2).1),
                    ai,
                    opponent,
                    2,
                    1,
                );
            assert forall|l: int| 0 <= l < 8 implies #[trigger] each(l) == 0 by {
                lemma_lone_cell_holds_no_pair(s, mb, ai, l, 0, 1);
                lemma_lone_cell_holds_no_pair(s, mb, ai, l, 1, 2);
                lemma_lone_cell_holds_no_pair(s, mb, ai, l, 0, 2);
                lemma_lone_cell_holds_no_pair(s, mb, opponent, l, 0, 1);
                lemma_lone_cell_holds_no_pair(s, mb, opponent, l, 1, 2);
                lemma_lone_cell_holds_no_pair(s, mb, opponent, l, 0, 2);
            }
            lemma_sum_bounds(8, each, 0, 0);
        }
    }
    lemma_sum_ext(9, filtered, lines);
    assert(filtered =~= (|mb: int|
            if s.move_count(mb, ai) >= 2 || s.move_count(mb, opponent) >= 2 {
                sum_to(
                        8,
                        |l: int|
                            line_value(
                                s.mini_cell(mb, line_point(l, 0).0, line_point(l, 0).1),
                                s.mini_cell(mb, line_point(l, 1).0, line_point(l, 1).1),
                                s.mini_cell(mb, line_point(l, 2).0, line_point(l, 2).1),
                                ai,
                                opponent,
                                2,
                                1,
                            ),
                    )
            } else {
                0
            }));
    assert(lines =~= (|mb: int| sum_to(
                        8,
                        |l: int|
                            line_value(
                                s.mini_cell(mb, line_point(l, 0).0, line_point(l, 0).1),
                                s.mini_cell(mb, line_point(l, 1).0, line_point(l, 1).1),
                                s.mini_cell(mb, line_point(l, 2).0, line_point(l, 2).1),
                                ai,
                                opponent,
                                2,
                                1,
                            ),
                    )));
}

/// The evaluation is zero-sum: swapping the AI and its opponent negates the
/// positional score, and a decided game scores the highest score for the
/// winner exactly when it scores the lowest for the loser.
pub proof fn lemma_evaluation_zero_sum(s: BoardState, ai: u8, opponent: u8)
    requires
        ai != opponent,
    ensures
        s.positional_score(ai, opponent) == -s.positional_score(opponent, ai),
        s.game_status() != ai && s.game_status() != opponent ==> s.evaluation(ai, opponent)
            == -s.evaluation(opponent, ai),
        s.game_status() == ai ==> s.evaluation(ai, opponent) == i16::MAX && s.evaluation(
            opponent,
            ai,
        ) == i16::MIN,
{
    let (a, o) = (ai, opponent);
    // centre cells
    let ga = |i: int| sum_to(3, |j: int| indicator((s.cell(3 * i + 1, 3 * j + 1) & a) != 0) - indicator((s.cell(3 * i + 1, 3 * j + 1) & o) != 0)) * 10;
    let go = |i: int| sum_to(3, |j: int| indicator((s.cell(3 * i + 1, 3 * j + 1) & o) != 0) - indicator((s.cell(3 * i + 1, 3 * j + 1) & a) != 0)) * 10;
    assert forall|i: int| 0 <= i < 3 implies #[trigger] ga(i) == -go(i) by {
        lemma_sum_neg(
            3,
            |j: int| indicator((s.cell(3 * i + 1, 3 * j + 1) & a) != 0) - indicator((s.cell(3 * i + 1, 3 * j + 1) & o) != 0),
            |j: int| indicator((s.cell(3 * i + 1, 3 * j + 1) & o) != 0) - indicator((s.cell(3 * i + 1, 3 * j + 1) & a) != 0),
        );
    }
    lemma_sum_neg(3, ga, go);
    // pointing cells
    let pa = |mb: int|
        if s.status(mb) == 0 {
            0
        } else {
            sum_to(9, |k: int| -owned(s.cell(mb / 3 + (k / 3) * 3, mb % 3 + (k % 3) * 3), a, o) * 10 * 3)
        };
    let po = |mb: int|
        if s.status(mb) == 0 {
            0
        } else {
            sum_to(9, |k: int| -owned(s.cell(mb / 3 + (k / 3) * 3, mb % 3 + (k % 3) * 3), o, a) * 10 * 3)
        };
    assert forall|mb: int| 0 <= mb < 9 implies #[trigger] pa(mb) == -po(mb) by {
        lemma_sum_neg(
            9,
            |k: int| -owned(s.cell(mb / 3 + (k / 3) * 3, mb % 3 + (k % 3) * 3), a, o) * 10 * 3,
            |k: int| -owned(s.cell(mb / 3 + (k / 3) * 3, mb % 3 + (k % 3) * 3), o, a) * 10 * 3,
        );
    }
    lemma_sum_neg(9, pa, po);
    // cell lines
    let ca = |mb: int|
        if s.move_count(mb, a) >= 2 || s.move_count(mb, o) >= 2 {
            sum_to(8, |l: int| line_value(
                s.mini_cell(mb, line_point(l, 0).0, line_point(l, 0).1),
                s.mini_cell(mb, line_point(l, 1).0, line_point(l, 1).1),
                s.mini_cell(mb, line_point(l, 2).0, line_point(l, 2).1),
                a, o, 2, 1))
        } else {
            0
        };
    let co = |mb: int|
        if s.move_count(mb, o) >= 2 || s.move_count(mb, a) >= 2 {
            sum_to(8, |l: int| line_value(
                s.mini_cell(mb, line_point(l, 0).0, line_point(l, 0).1),
                s.mini_cell(mb, line_point(l, 1).0, line_point(l, 1).1),
                s.mini_cell(mb, line_point(l, 2).0, line_point(l, 2).1),
                o, a, 2, 1))
        } else {
            0
        };
    assert forall|mb: int| 0 <= mb < 9 implies #[trigger] ca(mb) == -co(mb) by {
        lemma_sum_neg(
            8,
            |l: int| line_value(
                s.mini_cell(mb, line_point(l, 0).0, line_point(l, 0).1),
                s.mini_cell(mb, line_point(l, 1).0, line_point(l, 1).1),
                s.mini_cell(mb, line_point(l, 2).0, line_point(l, 2).1),
                a, o, 2, 1),
            |l: int| line_value(
                s.mini_cell(mb, line_point(l, 0).0, line_point(l, 0).1),
                s.mini_cell(mb, line_point(l, 1).0, line_point(l, 1).1),
                s.mini_cell(mb, line_point(l, 2).0, line_point(l, 2).1),
                o, a, 2, 1),
        );
    }
    lemma_sum_neg(9, ca, co);
    // miniboard lines
    lemma_sum_neg(
        8,
        |l: int| line_value(
            s.status(line_point(l, 0).0 * 3 + line_point(l, 0).1),
            s.status(line_point(l, 1).0 * 3 + line_point(l, 1).1),
            s.status(line_point(l, 2).0 * 3 + line_point(l, 2).1),
            a, o, 3, 2),
        |l: int| line_value(
            s.status(line_point(l, 0).0 * 3 + line_point(l, 0).1),
            s.status(line_point(l, 1).0 * 3 + line_point(l, 1).1),
            s.status(line_point(l, 2).0 * 3 + line_point(l, 2).1),
            o, a, 3, 2),
    );
    // free cells
    let fa = |i: int| sum_to(3, |j: int| owned(s.cell(4 * i, 4 * j), a, o)) * 10 * 3;
    let fo = |i: int| sum_to(3, |j: int| owned(s.cell(4 * i, 4 * j), o, a)) * 10 * 3;
    assert forall|i: int| 0 <= i < 3 implies #[trigger] fa(i) == -fo(i) by {
        lemma_sum_neg(3, |j: int| owned(s.cell(4 * i, 4 * j), a, o), |j: int| owned(s.cell(4 * i, 4 * j), o, a));
    }
    lemma_sum_neg(3, fa, fo);
}

/// With the full window, from the lowest to the highest score, a fail-soft
/// alpha-beta search answers the minimax value itself.
pub proof fn lemma_full_window_is_minimax(score: i16, value: int)
    requires
        fail_soft(score as int, value, i16::MIN as int, i16::MAX as int),
        i16::MIN <= value <= i16::MAX,
    ensures
        score as int == value,
{
}

impl Default for AI {
    fn default() -> (ai: Self)
        ensures
            ai.shape() == flag::O_PLAYER,
            ai.opponent() == flag::X_PLAYER,
    {
        Self::new(flag::O_PLAYER)
    }
}

} // verus!
