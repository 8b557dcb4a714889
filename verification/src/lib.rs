//! Rules engine for a grid-based mine-detection puzzle.
//!
//! The engine owns the board state: it places hidden mines (excluding the
//! first-clicked cell and its neighbours), computes adjacency hints, reveals
//! cells with a cascading flood fill over zero-hint regions, tracks flags,
//! and decides win or loss. Rendering and input capture are left to a host
//! layer, which talks to the engine through plain integers.

pub mod adjacency;
pub mod board;
pub mod cell;
pub mod counting;
pub mod flood;
pub mod placement;
pub mod rng;
pub mod state;

pub use board::Board;
pub use board::ConfigError;
pub use cell::Cell;
pub use state::BoardState;
