//! Ant-colony search for a knight's tour of the chess board.
//!
//! Ants walk the graph of knight moves without entering a square twice. Each
//! move carries a pheromone level that steers later ants: moves of long walks
//! are reinforced, and all levels decay once per cycle.
//!
//! Pheromone levels, rates and random draws are fixed-point numbers held in
//! integers, so that every formula of the search is stated and proved exactly.

pub mod board;
pub mod pheromone;
pub mod graph;
pub mod choice;
pub mod walk;
mod random;
pub mod ant;
pub mod colony;
