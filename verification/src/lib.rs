//! A Texas Hold'em equity engine.
//!
//! Given a player's two hole cards and the community cards revealed so far,
//! the engine enumerates every candidate opponent hand and every completion
//! of the board, ranks the seven-card hands, and reports for each candidate
//! hand how many board completions the player wins and loses.

pub mod types;
pub mod evaluator;
pub mod solve;
pub mod preflop;
pub mod boundary;
pub mod signal;
pub mod timer;
