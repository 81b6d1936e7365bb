//! A 2048 sliding-tile engine: a grid of cells, a four-direction
//! compaction-and-merge move, random tile spawning and win/loss detection.

pub mod cell;
pub mod line;
pub mod state;
pub mod spawn;
pub mod laws;
pub mod turn;

pub use cell::{Cell, Direction};
pub use state::State;
pub use turn::Turn;
