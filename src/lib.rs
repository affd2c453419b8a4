//! Dependency graph of a store-path closure: parsing of the drawn tree text,
//! level assignment, annotation and rendering of the graph.

pub mod graph;
pub mod parse;
pub mod annotate;
pub mod text;
pub mod layout;
pub mod export;
