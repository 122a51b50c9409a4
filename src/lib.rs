pub mod board;
pub mod engine;
pub mod laws;
pub mod partition;
pub mod render;

pub use engine::{is_position_eligible_for_queen, make_solver, BoardSolution, Solver};
pub use partition::{setup, Solutions};
