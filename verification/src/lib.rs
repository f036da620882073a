//! An in-memory directed-graph library with weighted arcs.
//!
//! Vertices carry caller-supplied payloads and are addressed by stable
//! [`VertexId`] handles. Arcs are directed, carry signed 64-bit weights, and
//! may form self-loops or parallel edges. On top of the storage layer the
//! library offers weighted breadth-first and depth-first traversals, cycle
//! detection, topological ordering and longest-path computation over acyclic
//! graphs, and an undirected wrapper that mirrors every edge.

mod graph;
mod longest;
mod order;
mod reach;
mod sort;
mod traverse;
mod undirected;

pub use graph::Arc;
pub use graph::DirectedGraph;
pub use graph::GraphError;
pub use graph::Vertex;
pub use graph::VertexId;
pub use order::TopologicalIter;
pub use traverse::BFDirectedGraphIter;
pub use traverse::DFDirectedGraphIter;
pub use undirected::UndirectedGraph;

pub use longest::attained;
pub use longest::fully_relaxed;
pub use longest::sat_add_spec;
pub use order::appears;
pub use order::count_white;
pub use order::dfs_all;
pub use order::dfs_run;
pub use order::finish_order_spec;
pub use order::frame_ok;
pub use order::frame_pending;
pub use order::frames_pending;
pub use order::is_topological_order;
pub use order::Color;
pub use order::Frame;
pub use reach::graph_cyclic;
pub use reach::graph_edge;
pub use reach::graph_reach;
pub use reach::is_path;
pub use sort::insert_sorted;
pub use sort::sort_arcs;
pub use sort::sorted_by_weight;
pub use traverse::count_unvisited;
pub use traverse::is_traversal_of;
pub use traverse::traversal_spec;
pub use traverse::traverse_spec;
