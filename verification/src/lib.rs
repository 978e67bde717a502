//! A solver for a two-player, perfect-information card-stacking game: the
//! position model with its legal moves and their inverses, a compact
//! combinatorial encoding of positions, a retrograde solver that classifies
//! every reachable position as a win for one side or a draw, a persisted
//! cache of those outcomes, and move-selection policies built on top.

pub mod cache;
pub mod chance;
pub mod codec;
pub mod preds;
pub mod state;
pub mod strategy;
