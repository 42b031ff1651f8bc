//! Minimum-weight triangulation of a convex polygon, by exhaustive search with
//! pruning, by dynamic programming and by a greedy ear-cutting heuristic.
//!
//! Coordinates are fixed-point integers (`SCALE` units per unit of length) and a
//! chord weighs the floor of its Euclidean length in those units.

pub mod polygon;
pub mod seq_facts;
pub mod triangulation;
pub mod decomposition;
pub mod dynamic;
pub mod lower_bound;
pub mod greedy;
pub mod backtracking;
pub mod convex;
pub mod symmetry;
