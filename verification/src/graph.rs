//! Graphs over syntax trees: control flow within a function, calls between
//! functions.

pub mod call_graph_builder;
pub mod cfg_builder;
pub mod representation;
