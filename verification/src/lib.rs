//! Shortest paths on road graphs: plain Dijkstra searches, contraction
//! hierarchies (preprocessing and bidirectional queries), and the
//! bookkeeping structures they share.

mod bitset;

pub use bitset::BitSet;
mod graph;
pub mod paths;
mod min_queue;
pub mod order;
mod dijkstra;
mod ch;
pub mod hierarchy;
pub mod climb;
pub mod contraction;
pub mod levels;
pub mod bypass;
pub mod round_law;
pub mod selection;
mod parallel;
pub mod text;
mod fmi;
pub mod working_graph;
pub mod components;
pub mod level_graph;
pub mod permutation;
pub mod export;

pub use graph::{Edge, EdgeCounter, Graph, Node};
pub use dijkstra::{Dijkstra, Distance};
pub use min_queue::MinQueue;
pub use ch::{Shortcut, CH};
pub use fmi::{parse_fmi, parse_input_pairs, parse_queries, EdgeRecord, FmiError, FmiGraph, NodeRecord};
