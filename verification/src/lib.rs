//! Greedy tree-decomposition construction for CNF formulas.
//!
//! The crate builds the primal graph of a formula (variables are vertices,
//! co-occurrence in a clause is an edge), eliminates vertices greedily under a
//! selectable heuristic with a lazily revalidated bucket queue, assembles the
//! bags into a tree and compresses redundant bags.  Auxiliary types describe
//! the surrounding model-counting pipeline: variable restrictions mined from
//! sampled solutions, the sampler configuration and the exact-counter choice.

pub mod buckets;
pub mod counter;
pub mod counting;
pub mod graph;
pub mod heuristic;
pub mod restriction;
pub mod sampler;
pub mod tree_decomposition;
