use ut3_oxide::ai::{
    AI, BROKEN_CELL_LINES, BROKEN_MB_LINES, CENTRE_CELL_CONTROL, CENTRE_MB_CONTROL,
    CONTINUOUS_CELL_LINES, CONTINUOUS_MB_LINES, FREE_MOVE_CELL_SAME_MB, MINIBOARD_WIN_COUNT,
    SCORE_UNIT, UNCONTESTABLE_MB_POINTED_AT,
};
use ut3_oxide::board::{flag, Board};

fn show_mb_statuses(board: &Board) {
    let mut statuses = board._get_miniboard_statuses_iter();
    let mut line = String::new();
    let mut i = 0;
    while let Some(mb) = statuses.next() {
        if i % 3 == 0 {
            println!("{line}");
            line = String::from("|");
        }
        line.push_str(&format!(" {mb} |"));
        i += 1;
    }
    println!("{line}");
}

#[test]
fn ai_evaluate() {
    let ai = AI::new(flag::O_PLAYER);
    let mut board = Board::default();
    board.do_move(3, 0, 2);

    let score = ai.evaluate(&board);
    assert_eq!(score, 0);

    // winning the centre cell and miniboard
    board.do_move(3, 3, 2);
    board.do_move(4, 4, 2);
    board.do_move(5, 5, 2);
    let _ = board.calculate_game_status();
    let score = ai.evaluate(&board);
    assert_eq!(
        score,
        SCORE_UNIT * MINIBOARD_WIN_COUNT
            + SCORE_UNIT * CENTRE_MB_CONTROL
            + SCORE_UNIT * CENTRE_CELL_CONTROL
            + SCORE_UNIT * CONTINUOUS_CELL_LINES * 2
            + SCORE_UNIT * BROKEN_CELL_LINES
            + SCORE_UNIT * FREE_MOVE_CELL_SAME_MB
            - SCORE_UNIT * UNCONTESTABLE_MB_POINTED_AT
    );
    board.reset();

    // losing the centre cell and miniboard
    board.do_move(3, 3, 1);
    board.do_move(4, 4, 1);
    board.do_move(5, 5, 1);
    let _ = board.calculate_game_status();
    let score = ai.evaluate(&board);
    assert_eq!(
        score,
        -SCORE_UNIT * CENTRE_MB_CONTROL
            - SCORE_UNIT * CENTRE_CELL_CONTROL
            - SCORE_UNIT * MINIBOARD_WIN_COUNT
            - SCORE_UNIT * CONTINUOUS_CELL_LINES * 2
            - SCORE_UNIT * BROKEN_CELL_LINES
            - SCORE_UNIT * FREE_MOVE_CELL_SAME_MB
            + SCORE_UNIT * UNCONTESTABLE_MB_POINTED_AT
    );
    board.reset();

    // winning/losing miniboards
    board.do_move(2, 6, 2);
    board.do_move(2, 7, 2);
    board.do_move(2, 8, 2);

    board.do_move(3, 6, 2);
    board.do_move(3, 7, 2);
    board.do_move(3, 8, 2);

    board.do_move(3, 0, 1);
    board.do_move(3, 1, 1);
    board.do_move(3, 2, 1);

    let score = ai.evaluate(&board);
    assert_eq!(
        score,
        SCORE_UNIT * MINIBOARD_WIN_COUNT // 2 - 1
            + SCORE_UNIT * CONTINUOUS_MB_LINES
            + SCORE_UNIT * CONTINUOUS_CELL_LINES * (4 - 2)
            + SCORE_UNIT * BROKEN_CELL_LINES, // 2 - 1
    );

    board.reset();

    // near won/lost continous/unconnected lines
    println!("continuous_line test");
    board.do_move(3, 1, 2);
    board.set_status_of(5, 2);
    board.set_status_of(8, 2);

    board.set_status_of(0, 2);
    board.set_status_of(3, 2);

    show_mb_statuses(&board);

    let score = ai.evaluate(&board);
    assert_eq!(score, SCORE_UNIT * CONTINUOUS_MB_LINES * 2 + SCORE_UNIT * BROKEN_MB_LINES * 2);

    board.reset();
    board.do_move(1, 0, 2);
    board.set_status_of(0, 2);
    board.set_status_of(6, 2);

    board.set_status_of(1, 1);
    board.set_status_of(7, 1);

    board.set_status_of(2, 2);
    board.set_status_of(8, 2);

    show_mb_statuses(&board);
    let score = ai.evaluate(&board);

    assert_eq!(score, SCORE_UNIT * BROKEN_MB_LINES * 5); // 6 - 1

    board.reset();
    // pointing to uncontestable miniboards
    board.set_status_of(3, 1);
    board.set_status_of(5, 2);

    board.do_move(2, 0, 2);
    board.do_move(7, 0, 2);
    board.do_move(2, 3, 1);

    assert_eq!(ai.evaluate(&board), (1 - 2) * SCORE_UNIT * UNCONTESTABLE_MB_POINTED_AT);
}
