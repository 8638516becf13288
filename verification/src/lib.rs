//! A verified core for a two-dimensional n-body simulation: a region-splitting
//! quadtree spatial index, a bottom-up mass-aggregation pass over it, and a
//! Barnes-Hut force approximation with an exact pairwise fallback.
//!
//! All quantities are scaled integers: callers pick a unit (for example
//! thousandths of a pixel) and convert at the boundary. Every algorithm here
//! is exact integer arithmetic, so every contract pins the result down to the
//! last unit.

pub mod arith;
pub mod barnes_hut;
pub mod quadtree;
pub mod render;
pub mod state;
pub mod utils;
