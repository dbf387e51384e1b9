//! A Hamiltonian-path finder over small graphs.
//!
//! Graphs are built from named adjacency lists, optionally restricted to a
//! subset of node names, and stored in a compact indexed form: each node gets
//! a dense index, and its neighbour set is a bitmask over those indices. The
//! search is a recursive backtracking walk that tracks the visited set in a
//! single machine word.

pub mod bits;
pub mod bitset;
pub mod graph;
mod imap;
pub mod search;

pub use bitset::BitSet;
pub use graph::{Graph, GraphBuilder, GraphError, Node};
pub use search::find_hamiltonian;
