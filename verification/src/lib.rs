//! Hexagonal battlefield core: exact cube-coordinate arithmetic, a symmetric
//! adjacency graph with insertion-order invariants, a terrain/river map that
//! keeps the graph consistent with hex geometry, and a node-weighted
//! shortest-path search over that graph.

#![verifier::loop_isolation(false)]

pub mod board;
pub mod errors;
pub mod graph;
pub mod hexagons;
pub mod systems;
pub mod units;
