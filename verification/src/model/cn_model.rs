use vstd::prelude::*;
use std::collections::HashMap;
use crate::model::grid_graph::{GridGraph, Edge};

verus! {

/// An edge that stands for a way: `edge` joins the first node of
/// `replaced_edges` to its last, and the nodes between them are the way
/// that it replaces.
#[derive(Clone)]
pub struct Shortcut {
    pub replaced_edges: Vec<u32>,
    pub edge: Edge,
}

/// What contracting a graph yields: the graph with the shortcuts among its
/// edges, and the shortcuts by the node they leave.
pub struct CNMetadata {
    pub graph: GridGraph,
    pub get_shortcuts: HashMap<u32, Vec<Shortcut>>,
}

/// Every shortcut replaces a way of two nodes at least.
pub open spec fn shortcuts_ok(shortcuts: Map<u32, Vec<Shortcut>>) -> bool {
    forall|k: u32, i: int|
        shortcuts.contains_key(k) && 0 <= i < shortcuts[k]@.len() ==> (#[trigger] shortcuts[k]@[i]).replaced_edges@.len()
            >= 2
}

} // verus!
