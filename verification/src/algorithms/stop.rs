use vstd::prelude::*;
use std::sync::atomic::AtomicBool;

verus! {

/// How a search that can be asked to stop has ended.
pub enum SearchEnd {
    /// With a way: its nodes from the source on, its length, and the count
    /// of items taken from the heap.
    Route(Vec<u32>, u32, u32),
    /// Without a way, because the search found none; the count of items
    /// taken from the heap.
    NoRoute(u32),
    /// Without a way, because the search was asked to stop; the count of
    /// items taken from the heap.
    Stopped(u32),
}

impl SearchEnd {
    /// What the search reports where it came to its end: the way with its
    /// length and the count of items taken, or nothing.
    pub open spec fn found(self) -> Option<(Vec<u32>, u32, u32)> {
        match self {
            SearchEnd::Route(route, distance, popped) => Some((route, distance, popped)),
            _ => None,
        }
    }

    /// The count of items taken from the heap.
    pub open spec fn taken(self) -> u32 {
        match self {
            SearchEnd::Route(_, _, popped) => popped,
            SearchEnd::NoRoute(popped) => popped,
            SearchEnd::Stopped(popped) => popped,
        }
    }
}

/// `true` when `token` asks for a stop; with no token nothing asks.
pub(crate) fn asked(token: Option<&AtomicBool>) -> (stop: bool)
    ensures
        token is None ==> !stop,
{
    match token {
        None => false,
        Some(flag) => flag.load(std::sync::atomic::Ordering::Relaxed),
    }
}

} // verus!
