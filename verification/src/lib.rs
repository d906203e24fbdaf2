//! An incremental computation engine: a demand-driven dependency graph (DDG)
//! over mutable input cells, with change propagation, memoization and a
//! firewall pattern, together with two applications whose scoring functions
//! are expressed as DDGs: 2-opt local search for the traveling salesman
//! problem and a local-search graph-coloring heuristic.

pub mod diagnostics;
pub mod engine;
pub mod errors;
pub mod graph;
pub mod graph_coloring;
pub mod graph_coloring_comp;
pub mod input_nodes;
pub mod tsp;
pub mod tsp_comp;
