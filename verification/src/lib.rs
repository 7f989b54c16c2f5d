//! Layered ("Sugiyama style") layout of directed graphs: the combinatorial
//! core.  Ranking, cycle breaking, layer matrices, crossing counts and
//! ordering are verified here; coordinates are computed by the caller.
#![allow(unused_imports)]

pub mod types;
pub mod index_map;
pub mod graph;
pub mod util;
pub mod search;
pub mod nesting;
pub mod counters;
pub mod order;
pub mod rank;
pub mod acyclic;
pub mod layout;
pub mod position;

