//! Degrees of separation in a directed graph.
//!
//! The graph is given as a list of edges between `u32` node identifiers.
//! [`parse::parse_edges`] reads such a list from text,
//! [`graph::adjacency_list`] turns it into an adjacency structure,
//! [`search::bfs`] computes the distance from one source to every node it
//! reaches, [`average::bfs_all_nodes`] derives the average distance from each
//! source, and [`separation::avg_degrees_of_separation`] the graph-wide
//! average.
//!
//! Every contract is stated over a mathematical model of the graph: a
//! `Map<u32, Seq<u32>>` from a node to its out-neighbours, and walks as
//! sequences of nodes. Averages are kept as exact fractions.

pub mod average;
pub mod graph;
pub mod parse;
pub mod search;
pub mod separation;

pub use average::{average_distance, bfs_all_nodes, AvgDistance};
pub use graph::adjacency_list;
pub use parse::{parse_edges, parse_line, parse_node, LineError, ParseError};
pub use search::{bfs, traverse, Traversal};
pub use separation::{avg_degrees_of_separation, defined_averages, GraphAverage};
