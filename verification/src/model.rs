//! Data model: heap items, the priority queue, graphs and their compact view.

pub mod heap_item;
pub mod priority_heap_item;
pub mod min_heap;
pub mod adjacency_array;
pub mod grid_graph;
pub mod grid_builder;
pub mod cn_model;
pub mod benchmark;
