pub mod domain;
pub mod graph;
pub mod graph_model;
pub mod network;
pub mod ticker;
