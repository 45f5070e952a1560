//! Node-based terrain generation: the node graph, its evaluation order and
//! the registry of GPU resources that nodes hand to each other.

pub mod terrain;
