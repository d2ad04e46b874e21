//! Verified algorithms: a shortest-path engine (Dijkstra) over any graph
//! that lists its weighted edges, with a grid maze as such a graph; sorting;
//! fractions; classic integer algorithms; a linear congruential generator
//! and the Fisher–Yates shuffle; the eight-queens problem.

pub mod classics;
pub mod frontier;
pub mod graphs_mazes;
pub mod hex;
pub mod misc;
pub mod probabilities;
pub mod rational;
pub mod search_proofs;
pub mod sorting;
pub mod sorting_variants;
