//! The bit layout of a board row and the values that its fields take.
use vstd::prelude::*;

verus! {

pub const CELL_LEN: u8 = 2;
pub const CELL_MASK: u32 = 3;

pub const MINIBOARD_STATUS_POS: u8 = 18;
pub const STATUS_LEN: u8 = 3;
pub const STATUS_CONTESTABLE: u8 = 0;
pub const STATUS_X_WIN: u8 = 1;
pub const STATUS_O_WIN: u8 = 2;
pub const STATUS_DRAW: u8 = 3;

pub const MINIBOARD_MOVE_COUNT_X: u8 = 20;
pub const MINIBOARD_MOVE_COUNT_O: u8 = 24;
pub const MINIBOARD_MOVE_COUNT_TOTAL: u8 = 28;
pub const MOVE_COUNT_BIT_SIZE: u8 = 15;

pub const NEW_GAME: u8 = 0;

pub const EMPTY: u8 = 0;
pub const X_PLAYER: u8 = 1;
pub const O_PLAYER: u8 = 2;

} // verus!
