//! Directed and undirected graphs over plain integer vertices.
pub mod digraph;
pub mod biconnected;
pub mod ugraph;
