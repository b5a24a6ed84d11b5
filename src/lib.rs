//! Conway's Game of Life on the `i32` grid, and a validator that decides
//! whether an observed sequence of states follows the rule, allowing cells
//! that appear against it if they are justified a fixed number of steps
//! later.

pub mod life;
pub mod validator;

pub use life::GameOfLife;
pub use validator::{SequenceStatus, SequenceValidator};
