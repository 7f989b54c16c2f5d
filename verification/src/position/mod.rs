//! Coordinate assignment: the combinatorial parts of Brandes-Köpf.
pub mod bk;
pub mod align;
