use vstd::prelude::*;
use crate::model::min_heap::HeapKey;
use std::cmp::Ordering;

verus! {

/// A tentative label of a guided search: like a
/// [`crate::model::heap_item::HeapItem`], but ranked by a separate
/// `priority` (length so far plus an estimate of what is left).
#[derive(Debug, Clone, Copy)]
pub struct PriorityHeapItem {
    pub node_id: u32,
    pub distance: u32,
    pub priority: u64,
    pub previous_node: u32,
}

impl HeapKey for PriorityHeapItem {
    open spec fn key(&self) -> u64 {
        self.priority
    }

    fn key_value(&self) -> (k: u64) {
        self.priority
    }
}

/// Two items are equal when they are of the same rank.
impl PartialEq for PriorityHeapItem {
    fn eq(&self, other: &Self) -> (r: bool) {
        other.priority == self.priority
    }
}

impl Eq for PriorityHeapItem {

}

impl vstd::std_specs::cmp::PartialEqSpecImpl for PriorityHeapItem {
    open spec fn obeys_eq_spec() -> bool {
        true
    }

    open spec fn eq_spec(&self, other: &Self) -> bool {
        other.priority == self.priority
    }
}

/// The order of the items is that of their ranks turned round: the item of
/// the lowest rank is the greatest, so that a heap which hands out its
/// greatest item hands out the item of the lowest rank.
impl PartialOrd for PriorityHeapItem {
    fn partial_cmp(&self, other: &Self) -> (r: Option<Ordering>) {
        if other.priority < self.priority {
            Some(Ordering::Less)
        } else if other.priority == self.priority {
            Some(Ordering::Equal)
        } else {
            Some(Ordering::Greater)
        }
    }
}

impl vstd::std_specs::cmp::PartialOrdSpecImpl for PriorityHeapItem {
    open spec fn obeys_partial_cmp_spec() -> bool {
        true
    }

    open spec fn partial_cmp_spec(&self, other: &Self) -> Option<Ordering> {
        if other.priority < self.priority {
            Some(Ordering::Less)
        } else if other.priority == self.priority {
            Some(Ordering::Equal)
        } else {
            Some(Ordering::Greater)
        }
    }
}

} // verus!
