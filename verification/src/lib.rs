//! A solver core for square edge-matching puzzles: tiles carry one pattern
//! label on each of their four sides and may be placed in four rotations.
//! The library builds a wildcard adjacency index over a tile catalog, fills
//! an N x N grid by backtracking so that touching sides agree, and assembles
//! disjoint 2x2 clusters ("mega tiles") whose aggregate borders are driven
//! towards a global conjugate-pair balance.

pub mod builder;
pub mod counts;
pub mod index;
pub mod render;
pub mod solver;
pub mod tile;
pub mod trackers;
