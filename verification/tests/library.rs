use ut3_oxide::ai::AI;
use ut3_oxide::board::display::CellGlyph;
use ut3_oxide::board::iterator::{MiniboardStatusesIterator, ValidMoveIterator};
use ut3_oxide::board::move_history::MoveHistory;
use ut3_oxide::board::move_tracker::TrackedBoard;
use ut3_oxide::board::rules::{build_winning_lines, WINNING_LINES};
use ut3_oxide::board::{flag, Board};
use ut3_oxide::command::{parse_command, Command};

#[test]
fn set_cell_then_get_cell() {
    let mut board = Board::new();
    board.set_cell(2, 7, flag::O_PLAYER);
    assert_eq!(board.get_cell(2, 7), flag::O_PLAYER);
    assert_eq!(board.main_board[2], 2 << 14);
    for row in 0..9 {
        for column in 0..9 {
            if (row, column) != (2, 7) {
                assert_eq!(board.get_cell(row, column), flag::EMPTY);
            }
        }
    }
    board.set_cell(2, 7, flag::X_PLAYER);
    assert_eq!(board.get_cell(2, 7), flag::X_PLAYER);
    assert_eq!(board.main_board[2], 1 << 14);
}

#[test]
fn metadata_fields_round_trip() {
    let mut board = Board::new();
    board.set_status_of(4, flag::STATUS_DRAW);
    board.set_player_move_count_of(4, 5, flag::X_PLAYER);
    board.set_total_move_count_of(4, 9);
    assert_eq!(board.get_status_of(4), flag::STATUS_DRAW);
    assert_eq!(board.get_player_move_count_of(4, flag::X_PLAYER), 5);
    assert_eq!(board.get_player_move_count_of(4, flag::O_PLAYER), 0);
    assert_eq!(board.get_total_move_count_of(4), 9);
    assert_eq!(board.main_board[4], (3 << 18) | (5 << 20) | (9 << 28));
    assert_eq!(board.get_meta_data(4, flag::MINIBOARD_MOVE_COUNT_X, flag::MOVE_COUNT_BIT_SIZE), 5);
    board.set_meta_data(4, flag::MINIBOARD_MOVE_COUNT_O, flag::MOVE_COUNT_BIT_SIZE, 7);
    assert_eq!(board.get_player_move_count_of(4, flag::O_PLAYER), 7);
    assert_eq!(board.get_status_of(3), flag::STATUS_CONTESTABLE);
}

#[test]
fn win_counts_are_kept_apart() {
    let mut board = Board::new();
    board.set_miniboard_win_count_of(flag::X_PLAYER, 5);
    board.set_miniboard_win_count_of(flag::O_PLAYER, 3);
    assert_eq!(board.get_miniboard_win_count_of(flag::X_PLAYER), 5);
    assert_eq!(board.get_miniboard_win_count_of(flag::O_PLAYER), 3);
    assert_eq!(board.xo_miniboard_win_count, 5 | (3 << 3));
    board.set_miniboard_win_count_of(flag::X_PLAYER, 1);
    assert_eq!(board.get_miniboard_win_count_of(flag::O_PLAYER), 3);
    assert_eq!(board.xo_miniboard_win_count, 1 | (3 << 3));
}

#[test]
fn reset_gives_a_new_board() {
    let mut board = Board::default();
    board.do_move(4, 4, flag::X_PLAYER);
    board.do_move(3, 3, flag::O_PLAYER);
    board.set_miniboard_win_count_of(flag::O_PLAYER, 2);
    board.reset();
    assert_eq!(board, Board::new());
    assert_eq!(board.last_move, (0, 0));
    assert_eq!(board.xo_miniboard_win_count, 0);
}

#[test]
fn miniboard_of_a_move_and_where_it_sends() {
    assert_eq!(Board::move_miniboard(4, 7), 5);
    assert_eq!(Board::move_miniboard(8, 8), 8);
    assert_eq!(Board::move_miniboard(0, 2), 0);
    assert_eq!(Board::move_corresponding_miniboard(4, 7), 4);
    assert_eq!(Board::move_corresponding_miniboard(8, 8), 8);
    assert_eq!(Board::move_corresponding_miniboard(0, 2), 2);
    assert_eq!(Board::move_corresponding_miniboard(5, 3), 6);
}

#[test]
fn every_move_is_valid_on_a_new_board() {
    let board = Board::new();
    assert!(board.is_first_move());
    for row in 0..9 {
        for column in 0..9 {
            assert!(board.is_valid_move(row, column));
        }
    }
    assert_eq!(board.valid_moves_bitfield(), (1u128 << 81) - 1);
}

#[test]
fn bitfield_marks_what_is_valid_move_accepts() {
    let mut board = Board::new();
    board.do_move(0, 4, flag::X_PLAYER);
    assert!(!board.is_first_move());
    let bits = board.valid_moves_bitfield();
    let mut count = 0;
    for row in 0..9u8 {
        for column in 0..9u8 {
            let marked = (bits >> (row * 9 + column)) & 1 == 1;
            assert_eq!(marked, board.is_valid_move(row, column), "{row} {column}");
            if marked {
                count += 1;
                assert_eq!(Board::move_miniboard(row, column), 1);
            }
        }
    }
    assert_eq!(count, 8);
}

#[test]
fn valid_move_iterator_yields_moves_in_order() {
    let mut moves = ValidMoveIterator::new((1u128 << 5) | (1u128 << 40) | (1u128 << 80));
    assert_eq!(moves.next(), Some((0, 5)));
    assert_eq!(moves.next(), Some((4, 4)));
    assert_eq!(moves.next(), Some((8, 8)));
    assert_eq!(moves.next(), None);
    assert_eq!(moves.next(), None);

    let mut beyond = ValidMoveIterator::new(1u128 << 100);
    assert_eq!(beyond.next(), None);
}

#[test]
fn valid_moves_follow_the_last_move() {
    let mut board = Board::new();
    board.do_move(4, 4, flag::X_PLAYER);
    let mut moves = board.valid_moves();
    let mut seen = Vec::new();
    while let Some(mv) = moves.next() {
        seen.push(mv);
    }
    assert_eq!(
        seen,
        vec![(3, 3), (3, 4), (3, 5), (4, 3), (4, 5), (5, 3), (5, 4), (5, 5)]
    );
}

#[test]
fn statuses_iterator_reads_two_bits_each() {
    let mut statuses = MiniboardStatusesIterator::new(1 | (2 << 2) | (3 << 4) | (1 << 16));
    let mut seen = Vec::new();
    while let Some(status) = statuses.next() {
        seen.push(status);
    }
    assert_eq!(seen, vec![1, 2, 3, 0, 0, 0, 0, 0, 1]);
    assert_eq!(statuses.next(), None);
}

#[test]
fn miniboard_cells_and_statuses_are_packed() {
    let mut board = Board::new();
    board.set_cell(3, 3, flag::X_PLAYER);
    board.set_cell(4, 4, flag::O_PLAYER);
    board.set_cell(5, 5, flag::X_PLAYER);
    assert_eq!(board.get_miniboard_cells(4), 1 | (2 << 8) | (1 << 16));
    assert_eq!(board.get_miniboard_cells(0), 0);

    board.set_status_of(0, flag::STATUS_O_WIN);
    board.set_status_of(4, flag::STATUS_O_WIN);
    board.set_status_of(8, flag::STATUS_X_WIN);
    assert_eq!(board.get_miniboard_statuses(), 2 | (2 << 8) | (1 << 16));
}

#[test]
fn a_line_of_three_wins_the_miniboard() {
    let mut board = Board::new();
    board.do_move(0, 0, flag::X_PLAYER);
    board.do_move(1, 1, flag::X_PLAYER);
    assert_eq!(board.get_status_of(0), flag::STATUS_CONTESTABLE);
    board.do_move(2, 2, flag::X_PLAYER);
    assert_eq!(board.get_status_of(0), flag::STATUS_X_WIN);
    assert_eq!(board.get_miniboard_win_count_of(flag::X_PLAYER), 1);
    assert_eq!(board.get_player_move_count_of(0, flag::X_PLAYER), 3);
    assert_eq!(board.get_total_move_count_of(0), 3);
    assert_eq!(board.calculate_game_status(), flag::STATUS_CONTESTABLE);
    assert!(board.calculate_miniboard_status(0));
    assert_eq!(board.get_miniboard_win_count_of(flag::X_PLAYER), 1);
}

#[test]
fn three_won_miniboards_in_a_line_win_the_game() {
    let mut board = Board::new();
    board.set_status_of(2, flag::STATUS_O_WIN);
    board.set_status_of(6, flag::STATUS_O_WIN);
    board.do_move(3, 3, flag::O_PLAYER);
    board.do_move(4, 4, flag::O_PLAYER);
    assert_eq!(board.calculate_game_status(), flag::STATUS_CONTESTABLE);
    board.do_move(5, 5, flag::O_PLAYER);
    assert_eq!(board.get_status_of(4), flag::STATUS_O_WIN);
    assert_eq!(board.calculate_game_status(), flag::STATUS_O_WIN);
}

#[test]
fn winning_lines_are_rows_columns_and_diagonals() {
    assert_eq!(build_winning_lines(), WINNING_LINES);
    assert_eq!(WINNING_LINES[0], [(0, 0), (0, 1), (0, 2)]);
    assert_eq!(WINNING_LINES[7], [(0, 2), (1, 1), (2, 0)]);
}

#[test]
fn pop_gives_back_what_add_recorded() {
    let mut history = MoveHistory::new();
    assert_eq!(history.pop(), None);
    history.add((4, 4), (0, 0), 4, 0, 0, 0);
    history.add((3, 3), (4, 4), 4, 0, 1, 0);
    assert_eq!(history.pop(), Some(((3, 3), (4, 4), 4, 0, 1, 0)));
    assert_eq!(history.pop(), Some(((4, 4), (0, 0), 4, 0, 0, 0)));
    assert_eq!(history.pop(), None);

    let mut history = MoveHistory::default();
    history.add((1, 2), (3, 4), 5, 1, 17, 9);
    history.reset();
    assert_eq!(history.pop(), None);
}

#[test]
fn undo_restores_the_board_before_the_move() {
    let mut game = TrackedBoard::new(Board::new());
    game.do_move(4, 4, flag::X_PLAYER);
    let after_first = game.board;
    game.do_move(3, 3, flag::O_PLAYER);
    assert!(game.undo_move());
    assert_eq!(game.board, after_first);
    assert!(game.undo_move());
    assert_eq!(game.board, Board::new());
    assert!(!game.undo_move());
    assert_eq!(game.board, Board::new());

    game.do_move(0, 0, flag::X_PLAYER);
    game.reset();
    assert_eq!(game.board, Board::new());
    assert!(!game.undo_move());
}

#[test]
fn evaluation_is_zero_sum() {
    let ai_x = AI::new(flag::X_PLAYER);
    let ai_o = AI::new(flag::O_PLAYER);
    let mut board = Board::new();
    assert_eq!(ai_x.evaluate(&board), 0);
    board.do_move(4, 4, flag::X_PLAYER);
    board.do_move(3, 3, flag::O_PLAYER);
    board.do_move(0, 0, flag::X_PLAYER);
    board.do_move(1, 1, flag::O_PLAYER);
    board.do_move(4, 3, flag::X_PLAYER);
    assert_eq!(ai_x.evaluate(&board), -ai_o.evaluate(&board));
    assert_ne!(ai_x.evaluate(&board), 0);
}

#[test]
fn one_ply_search_picks_the_best_evaluated_move() {
    let ai = AI::new(flag::X_PLAYER);
    let mut board = Board::new();
    board.do_move(4, 4, flag::O_PLAYER);
    let (score, (row, column)) = ai.calculate_move_par(&board, 1);
    assert!(board.is_valid_move(row, column));
    assert_eq!(board.get_cell(row, column), flag::EMPTY);

    let mut chosen = board;
    chosen.do_move(row, column, flag::X_PLAYER);
    assert_eq!(ai.evaluate(&chosen), score);

    let mut moves = board.valid_moves();
    while let Some((r, c)) = moves.next() {
        let mut after = board;
        after.do_move(r, c, flag::X_PLAYER);
        assert!(ai.evaluate(&after) <= score, "{r} {c}");
    }
}

#[test]
fn search_takes_a_winning_line() {
    // X holds two cells of miniboard 4 and is sent there; taking (5, 5)
    // wins it, which scores above every other move.
    let ai = AI::new(flag::X_PLAYER);
    let mut board = Board::new();
    board.do_move(3, 3, flag::X_PLAYER);
    board.do_move(1, 1, flag::O_PLAYER);
    board.do_move(4, 4, flag::X_PLAYER);
    board.do_move(1, 4, flag::O_PLAYER);
    let (_, best) = ai.calculate_move_par(&board, 1);
    assert_eq!(best, (5, 5));
}

#[test]
fn commands_read_from_a_line() {
    assert_eq!(parse_command(b"u", false), Command::Undo);
    assert_eq!(parse_command(b"r", true), Command::Reset);
    assert_eq!(parse_command(b"q", false), Command::Quit);
    assert_eq!(parse_command(b"47", false), Command::Move(4, 7));
    assert_eq!(parse_command(b"00", false), Command::Move(0, 0));
    assert_eq!(parse_command(b"88", false), Command::Move(8, 8));
    assert_eq!(parse_command(b"47", true), Command::Invalid);
    assert_eq!(parse_command(b"49", false), Command::Invalid);
    assert_eq!(parse_command(b"94", false), Command::Invalid);
    assert_eq!(parse_command(b"4", false), Command::Invalid);
    assert_eq!(parse_command(b"478", false), Command::Invalid);
    assert_eq!(parse_command(b"", false), Command::Invalid);
    assert_eq!(parse_command(b"h", false), Command::Hint);
    assert_eq!(parse_command(b"h", true), Command::Hint);
    assert_eq!(parse_command(b"x", false), Command::Invalid);
    assert_eq!(parse_command(b"uu", false), Command::Invalid);
}

#[test]
fn glyphs_follow_cells_statuses_and_the_last_move() {
    let mut board = Board::new();
    assert_eq!(board.cell_glyph(0, 0), CellGlyph::Playable);

    board.do_move(4, 4, flag::X_PLAYER);
    assert_eq!(board.cell_glyph(4, 4), CellGlyph::LastMove { player: 1, won: false });
    assert_eq!(board.cell_glyph(3, 3), CellGlyph::Playable);
    assert_eq!(board.cell_glyph(0, 0), CellGlyph::Empty);

    board.set_status_of(0, flag::STATUS_O_WIN);
    assert_eq!(board.cell_glyph(0, 0), CellGlyph::EmptyWon { winner: 2 });
    board.set_cell(1, 1, flag::X_PLAYER);
    assert_eq!(board.cell_glyph(1, 1), CellGlyph::Taken { player: 1, winner: 2 });
    board.set_cell(8, 7, flag::O_PLAYER);
    assert_eq!(board.cell_glyph(8, 7), CellGlyph::Taken { player: 2, winner: 0 });
    board.set_cell(8, 8, 3);
    assert_eq!(board.cell_glyph(8, 8), CellGlyph::Unknown);

    board.do_move(3, 3, flag::X_PLAYER);
    board.do_move(5, 5, flag::X_PLAYER);
    assert_eq!(board.get_status_of(4), flag::STATUS_X_WIN);
    assert_eq!(board.cell_glyph(5, 5), CellGlyph::LastMove { player: 1, won: true });
    assert_eq!(board.cell_glyph(4, 4), CellGlyph::Taken { player: 1, winner: 1 });
}

#[test]
fn rows_and_columns_with_a_valid_move() {
    let mut board = Board::new();
    for line in 0..9 {
        assert!(board.has_valid_move_in_row(line));
        assert!(board.has_valid_move_in_column(line));
    }
    board.do_move(4, 4, flag::X_PLAYER);
    for line in 0..9 {
        let expected = (3..6).contains(&line);
        assert_eq!(board.has_valid_move_in_row(line), expected, "row {line}");
        assert_eq!(board.has_valid_move_in_column(line), expected, "column {line}");
    }
}

#[test]
fn searchable_boards_fit_their_counts() {
    let mut board = Board::new();
    assert!(board.is_searchable());
    board.do_move(4, 4, flag::X_PLAYER);
    board.do_move(3, 3, flag::O_PLAYER);
    assert!(board.is_searchable());

    // a mark placed without a move leaves the counts fitting
    let mut stray = board;
    stray.set_cell(0, 0, flag::X_PLAYER);
    assert!(stray.is_searchable());

    let mut miscounted = board;
    miscounted.set_total_move_count_of(4, 5);
    assert!(!miscounted.is_searchable());

    let mut overcounted = board;
    // miniboard 4 has seven empty cells: a count of two fits, three does not
    overcounted.set_player_move_count_of(4, 2, flag::O_PLAYER);
    assert!(overcounted.is_searchable());
    overcounted.set_player_move_count_of(4, 3, flag::O_PLAYER);
    assert!(!overcounted.is_searchable());

    let mut many_wins = board;
    many_wins.set_miniboard_win_count_of(flag::O_PLAYER, 7);
    assert!(!many_wins.is_searchable());

    let mut off_board = board;
    off_board.last_move = (9, 0);
    assert!(!off_board.is_searchable());
}

#[test]
fn search_runs_on_a_board_with_a_stray_mark() {
    let mut board = Board::new();
    board.set_cell(4, 4, flag::X_PLAYER);
    assert!(board.is_searchable());
    let ai = AI::new(flag::O_PLAYER);
    let (score, (row, column)) = ai.calculate_move_par(&board, 1);
    assert!(board.is_valid_move(row, column));
    assert_ne!((row, column), (4, 4));
    let mut after = board;
    after.do_move(row, column, flag::O_PLAYER);
    assert_eq!(ai.evaluate(&after), score);
}

#[test]
fn safe_moves_are_valid_empty_cells_of_a_searchable_board() {
    let mut board = Board::new();
    assert!(board.is_safe_move(4, 4, flag::X_PLAYER));
    assert!(!board.is_safe_move(4, 4, 3));
    assert!(!board.is_safe_move(9, 0, flag::X_PLAYER));
    board.do_move(4, 4, flag::X_PLAYER);
    assert!(!board.is_safe_move(4, 4, flag::O_PLAYER));
    assert!(!board.is_safe_move(0, 0, flag::O_PLAYER));
    assert!(board.is_safe_move(3, 3, flag::O_PLAYER));
}

#[test]
fn moves_made_by_each_player() {
    let mut board = Board::new();
    board.do_move(4, 4, flag::X_PLAYER);
    board.do_move(3, 3, flag::O_PLAYER);
    board.do_move(0, 0, flag::X_PLAYER);
    assert_eq!(board.moves_made_by(flag::X_PLAYER), 2);
    assert_eq!(board.moves_made_by(flag::O_PLAYER), 1);
}

#[test]
fn row_cells_leave_out_the_metadata() {
    let mut board = Board::new();
    board.set_status_of(2, flag::STATUS_DRAW);
    board.set_cell(2, 8, flag::X_PLAYER);
    assert_eq!(board.get_row_cells(2), 1 << 16);
    assert_eq!(board.main_board[2] >> 18, 3);
}

#[test]
fn ai_shapes_are_paired() {
    assert_eq!(AI::new(flag::X_PLAYER).ai_shape(), flag::X_PLAYER);
    assert_eq!(AI::new(flag::O_PLAYER).ai_shape(), flag::O_PLAYER);
    assert_eq!(AI::default().ai_shape(), flag::O_PLAYER);
}

#[test]
fn seven_cells_of_a_miniboard_hold_a_line() {
    for first_gap in 0..9u8 {
        for second_gap in (first_gap + 1)..9u8 {
            let mut board = Board::new();
            let mut last = (0, 0);
            for k in 0..9u8 {
                if k != first_gap && k != second_gap {
                    board.set_cell(k / 3, k % 3, flag::X_PLAYER);
                    last = (k / 3, k % 3);
                }
            }
            board.set_player_move_count_of(0, 7, flag::X_PLAYER);
            board.set_total_move_count_of(0, 7);
            board.last_move = last;
            assert!(board.calculate_miniboard_status(0));
            assert_eq!(board.get_status_of(0), flag::STATUS_X_WIN);

            let cells = board.get_miniboard_cells(0);
            let held = WINNING_LINES.iter().any(|line| {
                line.iter().all(|&(r, c)| (cells >> ((r * 3 + c) * 2)) & 3 == 1)
            });
            assert!(held, "gaps {first_gap} {second_gap}");
        }
    }
}

#[test]
fn seven_won_miniboards_hold_a_line() {
    for first_gap in 0..9u8 {
        for second_gap in (first_gap + 1)..9u8 {
            let mut board = Board::new();
            let mut last = 0;
            for m in 0..9u8 {
                if m != first_gap && m != second_gap {
                    board.set_status_of(m, flag::STATUS_O_WIN);
                    last = m;
                }
            }
            let (row, column) = ((last / 3) * 3, (last % 3) * 3);
            board.set_cell(row, column, flag::O_PLAYER);
            board.last_move = (row, column);
            board.set_miniboard_win_count_of(flag::O_PLAYER, 7);
            assert_eq!(board.calculate_game_status(), flag::STATUS_O_WIN);

            let statuses = board.get_miniboard_statuses();
            let held = WINNING_LINES.iter().any(|line| {
                line.iter().all(|&(r, c)| (statuses >> ((r * 3 + c) * 2)) & 3 == 2)
            });
            assert!(held, "gaps {first_gap} {second_gap}");
        }
    }
}

#[test]
fn a_move_sends_the_opponent_to_its_miniboard() {
    let mut board = Board::new();
    board.do_move(0, 5, flag::X_PLAYER);
    let sent_to = Board::move_corresponding_miniboard(0, 5);
    assert_eq!(sent_to, 2);
    for row in 0..9 {
        for column in 0..9 {
            let expected = Board::move_miniboard(row, column) == sent_to
                && board.get_cell(row, column) == flag::EMPTY;
            assert_eq!(board.is_valid_move(row, column), expected, "{row} {column}");
        }
    }

    // sent to a decided miniboard: any empty cell of a contestable one
    board.set_status_of(2, flag::STATUS_X_WIN);
    board.set_status_of(7, flag::STATUS_DRAW);
    for row in 0..9 {
        for column in 0..9 {
            let miniboard = Board::move_miniboard(row, column);
            let expected = board.get_status_of(miniboard) == flag::STATUS_CONTESTABLE
                && board.get_cell(row, column) == flag::EMPTY;
            assert_eq!(board.is_valid_move(row, column), expected, "{row} {column}");
        }
    }
}

#[test]
fn record_string_lists_rows_last_move_and_wins() {
    let mut board = Board::new();
    assert_eq!(board.to_record_string(), "0:0:0:0:0:0:0:0:0:0:0:0");
    board.do_move(4, 4, flag::X_PLAYER);
    assert_eq!(board.to_record_string(), "0:0:0:0:269484288:0:0:0:0:4:4:0");
    board.main_board[0] = u32::MAX;
    board.xo_miniboard_win_count = 13;
    assert_eq!(board.to_record_string(), "4294967295:0:0:0:269484288:0:0:0:0:4:4:13");
}
