pub mod board;
pub mod ai;
pub mod command;
pub mod game;
