use ut3_oxide::ai::AI;
use ut3_oxide::board::{flag, Board};

#[test]
fn any_move_is_valid_on_a_default_board() {
    let board = Board::default();
    assert!(board.is_valid_move(4, 4));
}

#[test]
fn bitfield_after_a_first_move() {
    let mut board = Board::default();
    assert_eq!(board.valid_moves_bitfield(), (1 << 81) - 1);
    board.do_move(3, 3, 2);
    assert_eq!(board.valid_moves_bitfield(), 0b111000000111000000111);
}

#[test]
fn a_decided_miniboard_stays_decided() {
    let mut board = Board::default();
    board.set_status_of(4, 2);
    assert!(board.calculate_miniboard_status(4));
    assert_eq!(board.get_status_of(4), 2);
}

#[test]
fn a_won_miniboard_completes_a_line_of_miniboards() {
    let mut board = Board::default();
    board.do_move(4, 3, 1);
    board.do_move(4, 4, 1);
    board.do_move(4, 5, 1);
    board.set_status_of(3, 1);
    board.set_status_of(5, 1);
    assert_eq!(board.calculate_game_status(), 1);
}

#[test]
fn reset_empties_the_cells() {
    let mut board = Board::default();
    board.do_move(4, 4, 1);
    assert_eq!(board.get_cell(4, 4), 1);
    board.reset();
    assert_eq!(board.get_cell(4, 4), 0);
}

#[test]
fn do_move_takes_the_cell() {
    let mut board = Board::default();
    board.do_move(4, 4, 2);
    assert_eq!(board.get_cell(4, 4), 2);
}

#[test]
fn miniboard_examples() {
    assert_eq!(Board::move_miniboard(7, 6), 8);
    assert_eq!(Board::move_corresponding_miniboard(1, 7), 4);
}

#[test]
fn miniboard_cells_example() {
    let mut board = Board::default();
    board.do_move(0, 0, 1);
    board.do_move(0, 1, 2);
    board.do_move(0, 2, 1);
    assert_eq!(board.get_miniboard_cells(0), 0b000000_000000_011001);
}

#[test]
fn miniboard_statuses_example() {
    let mut board = Board::default();
    board.set_status_of(1, 1);
    board.set_status_of(4, 1);
    board.set_status_of(8, 2);
    assert_eq!(board.get_miniboard_statuses(), 0b100000_000100_000100);
}

#[test]
fn ai_plays_a_valid_move_at_depth_five() {
    let mut board = Board::default();
    let aio = AI::default();
    let (_eval, (row, column)) = aio.calculate_move_par(&board, 5);
    assert!(board.is_valid_move(row, column));
    board.do_move(row, column, flag::O_PLAYER);
    assert_eq!(board.get_cell(row, column), flag::O_PLAYER);
}
