//! Shortest paths across a grid whose obstacles evolve under a Life-like rule: a mover
//! takes one orthogonal step per generation and may never stand on a live cell.
//!
//! - `automaton`: the dense engine (a grid of cell states) and its evolution rule.
//! - `sparse_automaton`: the same rule over a set of live coordinates.
//! - `path_finder`: move generation, the generation caches, the time-extended A*
//!   search and a depth-first baseline.

pub mod automaton;
pub mod path_finder;
pub mod sparse_automaton;
