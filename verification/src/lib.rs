//! Approximate 0/1 knapsack by a randomized, band-limited dynamic program.
//!
//! The items are visited in a random order. After `i` of `n` items only the
//! capacities inside a window around `i / n` of the whole capacity are kept,
//! so the table the classical algorithm fills shrinks to a narrow band. The
//! answer is always a packing that fits; it is not always the best one.

pub mod band;
pub mod frontier;
pub mod item;
pub mod optimum;
pub mod parse;
pub mod solver;
