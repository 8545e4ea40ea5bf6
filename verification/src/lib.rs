//! Game logic of a minesweeper board: tile states, the board model, mine
//! placement, neighbour counts, the reveal cascade and the game state machine.

pub mod board;
pub mod game;
pub mod grid;
pub mod init;
pub mod pointer_handling;
pub mod reset;
pub mod tile_states;
