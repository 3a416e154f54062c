pub mod codec;
pub mod graph;
pub mod text;

pub use crate::graph::{EdgeHalf, Graph, GraphError, Node};
