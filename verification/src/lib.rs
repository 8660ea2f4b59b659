//! A verified interpreter for a minimal bit-tape language.

pub mod brackets;
pub mod model;
pub mod state;

pub use model::RunError;
pub use state::State;
