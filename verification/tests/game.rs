use ut3_oxide::ai::AI;
use ut3_oxide::board::iterator::ValidMoveIterator;
use ut3_oxide::board::{flag, Board};
use ut3_oxide::command::Command;
use ut3_oxide::game::{ai_match_turn, ai_reply, game_step, hint_move, AiMatch, GameState, StepAction};

#[test]
fn a_drawn_game_evaluates_to_zero() {
    let ai = AI::new(flag::O_PLAYER);
    let mut board = Board::default();
    for m in 0..9 {
        board.set_status_of(m, flag::STATUS_DRAW);
    }
    board.do_move(4, 4, flag::O_PLAYER);
    assert_eq!(board.calculate_game_status(), flag::STATUS_DRAW);
    assert_eq!(ai.evaluate(&board), 0);
    assert_eq!(AI::new(flag::X_PLAYER).evaluate(&board), 0);
}

#[test]
fn seven_cells_win_the_miniboard_and_count_as_a_win() {
    let mut board = Board::default();
    board.do_move(0, 0, 1);
    board.do_move(0, 1, 1);
    board.do_move(1, 0, 1);
    board.do_move(1, 2, 1);
    board.do_move(2, 1, 1);
    board.do_move(2, 2, 1);
    board.do_move(1, 1, 2);
    board.do_move(0, 2, 1);
    assert_eq!(board.get_player_move_count_of(0, flag::X_PLAYER), 7);
    assert_eq!(board.get_status_of(0), flag::STATUS_X_WIN);
    assert_eq!(board.get_miniboard_win_count_of(flag::X_PLAYER), 1);
    assert_eq!(board.get_miniboard_win_count_of(flag::O_PLAYER), 0);
    assert!(board.is_searchable());
}

#[test]
fn win_counts_follow_the_statuses_in_play() {
    let mut board = Board::default();
    let moves = [(0, 0), (0, 1), (0, 2), (3, 3), (4, 4), (5, 5), (6, 0), (7, 0), (8, 0)];
    for (i, &(row, column)) in moves.iter().enumerate() {
        let player = if i < 6 { flag::X_PLAYER } else { flag::O_PLAYER };
        board.do_move(row, column, player);
        for p in [flag::X_PLAYER, flag::O_PLAYER] {
            let won = (0..9).filter(|&m| board.get_status_of(m) == p).count() as u8;
            assert_eq!(board.get_miniboard_win_count_of(p), won);
        }
    }
    assert_eq!(board.get_miniboard_win_count_of(flag::X_PLAYER), 2);
    assert_eq!(board.get_miniboard_win_count_of(flag::O_PLAYER), 1);
    assert!(board.is_searchable());
}

#[test]
fn an_occupied_cell_is_not_valid_before_the_first_move() {
    let mut board = Board::default();
    board.set_cell(5, 5, flag::O_PLAYER);
    board.set_status_of(0, flag::STATUS_X_WIN);
    assert!(board.is_first_move());
    assert!(!board.is_valid_move(5, 5));
    assert!(!board.is_valid_move(1, 1));
    assert!(board.is_valid_move(4, 4));
    let bits = board.valid_moves_bitfield();
    assert_eq!((bits >> (5 * 9 + 5)) & 1, 0);
    assert_eq!((bits >> 10) & 1, 0);
    assert_eq!((bits >> (4 * 9 + 4)) & 1, 1);
}

#[test]
fn next_clears_the_bit_it_yields() {
    let mut moves = ValidMoveIterator::new((1u128 << 12) | (1u128 << 30) | (1u128 << 90));
    assert_eq!(moves.next(), Some((1, 3)));
    assert_eq!(moves.bitfield, (1u128 << 30) | (1u128 << 90));
    assert_eq!(moves.next(), Some((3, 3)));
    assert_eq!(moves.bitfield, 1u128 << 90);
    assert_eq!(moves.next(), None);
    assert_eq!(moves.bitfield, 1u128 << 90);
}

#[test]
fn players_take_turns_and_undo_and_reset() {
    let mut game = GameState::new(false);
    assert_eq!(game_step(&mut game, Command::Move(4, 4)), StepAction::Played(4, 4));
    assert_eq!(game.turn, 1);
    assert_eq!(game.undoable.board.get_cell(4, 4), flag::X_PLAYER);
    // O must answer in miniboard 4
    assert_eq!(game_step(&mut game, Command::Move(0, 0)), StepAction::Invalid);
    assert_eq!(game.turn, 1);
    assert_eq!(game_step(&mut game, Command::Move(3, 3)), StepAction::Played(3, 3));
    assert_eq!(game.undoable.board.get_cell(3, 3), flag::O_PLAYER);
    assert_eq!(game.turn, 2);

    assert_eq!(game_step(&mut game, Command::Hint), StepAction::Invalid);
    assert_eq!(game_step(&mut game, Command::Invalid), StepAction::Invalid);
    assert_eq!(game_step(&mut game, Command::Quit), StepAction::Quit);
    assert_eq!(game.turn, 2);

    assert_eq!(game_step(&mut game, Command::Undo), StepAction::Undone { asked: 1, done: 1 });
    assert_eq!(game.turn, 1);
    assert_eq!(game.undoable.board.get_cell(3, 3), flag::EMPTY);
    assert_eq!(game_step(&mut game, Command::Reset), StepAction::Reset);
    assert_eq!(game.turn, 0);
    assert_eq!(game.undoable.board, Board::new());
    assert_eq!(game_step(&mut game, Command::Undo), StepAction::Undone { asked: 1, done: 0 });
    assert_eq!(game.turn, 0);
}

#[test]
fn a_finished_game_takes_no_moves_until_undone() {
    let mut game = GameState::new(false);
    game.undoable.board.set_status_of(3, flag::STATUS_X_WIN);
    game.undoable.board.set_status_of(5, flag::STATUS_X_WIN);
    game.undoable.board.set_miniboard_win_count_of(flag::X_PLAYER, 2);
    for &(row, column, player) in [(4, 3, 1u8), (1, 1, 2), (4, 4, 1), (1, 4, 2)].iter() {
        game.undoable.do_move(row, column, player);
    }
    game.turn = 4;
    assert_eq!(game_step(&mut game, Command::Move(4, 5)), StepAction::Played(4, 5));
    assert!(game.game_over);
    assert_eq!(game.undoable.board.calculate_game_status(), flag::STATUS_X_WIN);
    assert_eq!(game_step(&mut game, Command::Move(1, 1)), StepAction::Invalid);
    assert_eq!(game_step(&mut game, Command::Undo), StepAction::Undone { asked: 1, done: 1 });
    assert!(!game.game_over);
    assert_eq!(game.turn, 4);
}

#[test]
fn against_the_ai_undo_takes_back_both_moves() {
    let mut game = GameState::new(true);
    assert_eq!(game_step(&mut game, Command::Hint), StepAction::Hint);
    let (_, hint) = hint_move(&game, &AI::new(flag::X_PLAYER), 1);
    assert!(game.undoable.board.is_valid_move(hint.0, hint.1));

    assert_eq!(game_step(&mut game, Command::Move(4, 4)), StepAction::Played(4, 4));
    let ai = AI::new(flag::O_PLAYER);
    let before = game.undoable.board;
    let (score, (row, column)) = ai_reply(&mut game, &ai, 1);
    assert!(before.is_valid_move(row, column));
    assert_eq!(game.undoable.board.get_cell(row, column), flag::O_PLAYER);
    assert_eq!(game.turn, 2);
    assert_eq!(ai.evaluate(&game.undoable.board), score);

    assert_eq!(game_step(&mut game, Command::Undo), StepAction::Undone { asked: 2, done: 2 });
    assert_eq!(game.turn, 0);
    assert_eq!(game.undoable.board, Board::new());
}

#[test]
fn an_ai_match_tallies_each_game_and_starts_over() {
    let mut ai_match = AiMatch::new();
    let mut games = 0;
    while games < 2 {
        let turns = ai_match.turns;
        let x_turn = turns % 2 == 0;
        let before = ai_match.board;
        let game_over = ai_match_turn(&mut ai_match, 1, 1);
        assert_eq!(ai_match.turns, turns + 1);
        let (row, column) = ai_match.shown.last_move;
        assert!(before.is_valid_move(row, column));
        let mover = if x_turn { flag::X_PLAYER } else { flag::O_PLAYER };
        assert_eq!(ai_match.shown.get_cell(row, column), mover);
        assert_eq!(game_over, ai_match.shown.calculate_game_status() != flag::STATUS_CONTESTABLE);
        if game_over {
            games += 1;
            assert_eq!(ai_match.board, Board::new());
            assert_eq!(ai_match.x_wins + ai_match.o_wins + ai_match.draws, games);
        } else {
            assert_eq!(ai_match.board, ai_match.shown);
        }
    }
}
