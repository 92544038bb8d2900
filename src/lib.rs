//! A search engine for a two-sided 2048: the Slider shifts and merges tiles, the Placer
//! puts a new tile into an empty cell.
//!
//! - `grid`: exponent grids, line merging, slides, placement, the dead-grid test and the
//!   static estimate.
//! - `symmetry`: the eight symmetries of the square and the representative of a class.
//! - `ai`: negamax with alpha-beta pruning over a transposition table keyed by
//!   representative grid and split into turn buckets.
//! - `state`: the rules on tile values, with the score.
//! - `random`, `human`: the other players' decisions.

pub mod ai;
pub mod grid;
pub mod human;
pub mod random;
pub mod state;
pub mod symmetry;
