pub mod board;
pub mod game;
pub mod minimax;
pub mod moves;
pub mod state;

pub use board::{Board, Player, Square, CELLS, HEIGHT, WIDTH};
pub use game::play_first_moves;
pub use minimax::minimax;
pub use moves::{legal_moves, Move, Successor};
pub use state::{pass_turn, State};
