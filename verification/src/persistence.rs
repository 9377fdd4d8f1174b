//! The collaborator that owns a graph with its contraction and runs the
//! engines over them.

pub mod in_memory_navigator;
