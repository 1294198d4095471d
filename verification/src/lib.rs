pub mod arena;
pub mod comp_graph;
pub mod coords;
pub mod edge;
pub mod engine;
pub mod inferred_shape;
pub mod node;
pub mod position;
pub mod shape;
pub mod slice;
pub mod stride;
pub mod tensor;
pub mod vararray;
