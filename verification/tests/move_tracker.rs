use ut3_oxide::board::move_tracker::TrackedBoard;
use ut3_oxide::board::{flag, Board};

#[test]
fn move_tracker_undo_move() {
    let board = Board::default();
    let mut tracked_board = TrackedBoard::new(board);

    // ensure undo on the first move doesn't err
    tracked_board.undo_move();
    tracked_board.undo_move();

    /* 2 moves: same row, but 2 miniboards of 4 and 5 */
    tracked_board.do_move(4, 4, 2);
    tracked_board.do_move(4, 8, 2);
    assert_eq!(tracked_board.board.main_board[4], 0b00010001000000_100000001000000000);
    assert_eq!(tracked_board.board.main_board[5], 0b10001000000 << 18);

    // partially equivalent to
    assert_eq!(tracked_board.board.get_player_move_count_of(4, 2), 1);
    assert_eq!(tracked_board.board.get_player_move_count_of(5, 2), 1);

    tracked_board.undo_move();
    assert_eq!(tracked_board.board.main_board[4], 0b00010001000000_000000001000000000);
    assert_eq!(tracked_board.board.main_board[5], 0b0);

    tracked_board.undo_move();
    assert_eq!(tracked_board.board.main_board[4], 0b0);

    // multiple moves: different rows and miniboards
    /* undo winning move and continue */
    tracked_board.board.set_status_of(0, 1);
    tracked_board.board.set_status_of(1, 1);

    tracked_board.do_move(2, 6, 1);
    tracked_board.do_move(2, 7, 1);
    tracked_board.do_move(2, 8, 1);

    assert_eq!(tracked_board.board.get_status_of(0), 1);
    assert_eq!(tracked_board.board.get_status_of(1), 1);
    assert_eq!(tracked_board.board.get_status_of(2), 1);

    assert_eq!(tracked_board.board.get_player_move_count_of(2, 1), 3);
    assert_eq!(tracked_board.board.get_total_move_count_of(2), 3);
    assert_eq!(tracked_board.board.calculate_game_status(), flag::STATUS_X_WIN);

    let wincount_before = tracked_board.board.get_miniboard_win_count_of(1);

    tracked_board.undo_move();

    assert_eq!(tracked_board.board.calculate_game_status(), flag::STATUS_CONTESTABLE);
    assert_eq!(tracked_board.board.get_miniboard_win_count_of(1), wincount_before - 1);
    assert_eq!(tracked_board.board.get_status_of(2), 0);
    assert_eq!(tracked_board.board.get_total_move_count_of(2), 2);
    assert_eq!(tracked_board.board.get_player_move_count_of(2, 1), 2);

    /* interlaced do/undo moves */
    tracked_board.reset();

    tracked_board.do_move(7, 0, 2);
    assert_eq!(tracked_board.board.get_cell(7, 0), 2);
    tracked_board.undo_move();
    assert_eq!(tracked_board.board.get_cell(7, 0), 0);

    tracked_board.do_move(7, 0, 1);
    tracked_board.do_move(7, 1, 1);
    tracked_board.do_move(7, 2, 1);
    tracked_board.undo_move();

    tracked_board.do_move(7, 1, 2);
    tracked_board.do_move(7, 0, 2);
    tracked_board.do_move(7, 2, 2);
    assert_eq!(tracked_board.board.get_status_of(6), 2);

    tracked_board.undo_move();
    tracked_board.do_move(8, 0, 1);
    tracked_board.do_move(8, 1, 1);
    tracked_board.do_move(8, 2, 1);
    assert_eq!(tracked_board.board.get_status_of(6), 1);

    // full
    tracked_board.reset();
    tracked_board.do_move(3, 0, 1);
    tracked_board.do_move(3, 1, 1);
    tracked_board.do_move(3, 2, 1);

    tracked_board.do_move(3, 3, 1);
    tracked_board.do_move(3, 4, 1);
    tracked_board.do_move(3, 5, 1);

    tracked_board.do_move(3, 6, 1);
    tracked_board.do_move(3, 7, 1);
    tracked_board.do_move(3, 8, 1);
    assert_eq!(tracked_board.board.calculate_game_status(), flag::STATUS_X_WIN);

    tracked_board.undo_move();
    assert_eq!(tracked_board.board.calculate_game_status(), flag::STATUS_CONTESTABLE);

    for _ in 0..8 {
        tracked_board.undo_move();
    }

    assert!(tracked_board.board.is_first_move());
    assert_eq!(tracked_board.board.last_move, (0, 0));
    assert_eq!(tracked_board.board.xo_miniboard_win_count, 0);
    assert_eq!(tracked_board.board.main_board.iter().sum::<u32>(), 0);

    // try undoing more than moves have been made
    tracked_board.undo_move();
    tracked_board.undo_move();
    tracked_board.undo_move();
    assert_eq!(tracked_board.board.main_board.iter().sum::<u32>(), 0);

    // then make moves again
    tracked_board.do_move(8, 8, 2);
    tracked_board.do_move(8, 7, 2);
    tracked_board.do_move(8, 6, 2);
    assert_eq!(tracked_board.board.get_status_of(8), 2);
}
