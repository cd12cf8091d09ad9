pub mod header;
pub mod include_graph;
