//! A Connect Four engine: immutable game states, the move that takes one
//! state to the next, and the text forms of a state.
pub mod game;
pub mod piece;
pub mod rules;
pub mod text;

pub use game::{ActionError, ActionResult, Connect4Game};
pub use piece::{Cell, Player};
pub use text::Connect4ParseError;
