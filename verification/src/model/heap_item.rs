use vstd::prelude::*;
use crate::model::min_heap::HeapKey;
use std::cmp::Ordering;

verus! {

/// A tentative label of a search: `node_id` can be reached over
/// `previous_node` with total length `distance`.
///
/// Items are ranked by `distance` alone; the smallest one leaves a
/// [`crate::model::min_heap::MinHeap`] first.
#[derive(Debug, Clone, Copy)]
pub struct HeapItem {
    pub node_id: u32,
    pub distance: u32,
    pub previous_node: u32,
}

impl HeapKey for HeapItem {
    open spec fn key(&self) -> u64 {
        self.distance as u64
    }

    fn key_value(&self) -> (k: u64) {
        self.distance as u64
    }
}

/// Two items are equal when they are of the same rank.
impl PartialEq for HeapItem {
    fn eq(&self, other: &Self) -> (r: bool) {
        other.distance == self.distance
    }
}

impl Eq for HeapItem {

}

impl vstd::std_specs::cmp::PartialEqSpecImpl for HeapItem {
    open spec fn obeys_eq_spec() -> bool {
        true
    }

    open spec fn eq_spec(&self, other: &Self) -> bool {
        other.distance == self.distance
    }
}

/// The order of the items is that of their ranks turned round: the item of
/// the lowest rank is the greatest, so that a heap which hands out its
/// greatest item hands out the item of the lowest rank.
impl PartialOrd for HeapItem {
    fn partial_cmp(&self, other: &Self) -> (r: Option<Ordering>) {
        if other.distance < self.distance {
            Some(Ordering::Less)
        } else if other.distance == self.distance {
            Some(Ordering::Equal)
        } else {
            Some(Ordering::Greater)
        }
    }
}

impl vstd::std_specs::cmp::PartialOrdSpecImpl for HeapItem {
    open spec fn obeys_partial_cmp_spec() -> bool {
        true
    }

    open spec fn partial_cmp_spec(&self, other: &Self) -> Option<Ordering> {
        if other.distance < self.distance {
            Some(Ordering::Less)
        } else if other.distance == self.distance {
            Some(Ordering::Equal)
        } else {
            Some(Ordering::Greater)
        }
    }
}

} // verus!
