//! Assignment of ranks (layers) to nodes.
pub mod util;
pub mod feasible_tree;
pub mod network_simplex;
pub mod tree_walk;
pub mod components;
pub mod topological;
pub mod ranker;
pub mod cut_law;
