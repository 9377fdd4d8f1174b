use vstd::prelude::*;
use std::collections::HashMap;
use crate::model::adjacency_array::{AdjacencyArray, Arc};
use crate::algorithms::paths::{is_route, is_shortest, is_reported_route, out_of_reach, ids,
    lemma_route_reaches};
use crate::algorithms::search_core::{SearchCore, Popped, visible_arcs, lemma_shape,
    lemma_label_shortest, lemma_exhausted};

verus! {

/// `true` when `x` occurs in `items`.
pub fn slice_contains(items: &[u32], x: u32) -> (found: bool)
    ensures
        found == items@.contains(x),
{
    let mut i: usize = 0;
    while i < items.len()
        invariant
            i <= items@.len(),
            forall|j: int| 0 <= j < i ==> items@[j] != x,
        decreases items@.len() - i,
    {
        if items[i] == x {
            return true;
        }
        i += 1;
    }
    false
}

/// One entry of what a witness search reports: the way to the node `t`
/// and its length, a shortest one.
pub open spec fn is_witness(arcs: Set<Arc>, s: int, route: Seq<u32>, distance: u32) -> bool {
    &&& route.len() >= 1
    &&& distance < u32::MAX
    &&& is_shortest(arcs, s, route.last() as int, distance as nat)
    &&& is_reported_route(arcs, s, route.last() as int, route, distance as nat)
}

/// The search from one node to many: uniform-cost search over the arcs
/// that do not lead to a removed node, until every destination has its
/// label.
pub struct WitnessSearch<'a> {
    graph_ref: &'a AdjacencyArray,
    removed_nodes: &'a HashMap<u32, bool>,
    core: SearchCore,
}

impl<'a> WitnessSearch<'a> {
    /// The engine is in a state that its methods keep.
    pub closed spec fn wf(&self) -> bool {
        &&& self.graph_ref.wf()
        &&& self.graph_ref.node_count() == self.core.n()
        &&& self.core.inv(visible_arcs(self.graph_ref, self.removed_nodes@.dom()))
        &&& self.core.tight@
        &&& self.core.potentials@ == Seq::new(self.core.n() as nat, |i: int| 0u64)
        &&& self.core.ordered()
    }

    /// The arcs that are searched: those of the graph that do not lead to a
    /// removed node.
    pub closed spec fn arcs(&self) -> Set<Arc> {
        visible_arcs(self.graph_ref, self.removed_nodes@.dom())
    }

    /// Number of nodes of the graph that is searched.
    pub closed spec fn node_count(&self) -> int {
        self.graph_ref.node_count()
    }

    /// The node the search starts from.
    pub closed spec fn source(&self) -> int {
        self.core.source_node as int
    }

    /// The node `v` has its label: an earlier search has found it.
    pub closed spec fn labelled(&self, v: int) -> bool {
        self.core.settled(v)
    }

    /// The label of every node: its length from the source as far as the
    /// search knows it, `u32::MAX` for a node without one.
    pub closed spec fn labels(&self) -> Seq<u32> {
        self.core.distances@
    }

    /// For every node the node that it was reached over, `u32::MAX` for a
    /// node that was not reached.
    pub closed spec fn predecessors(&self) -> Seq<u32> {
        self.core.previous_nodes@
    }

    /// The items on the heap.
    pub closed spec fn waiting(&self) -> vstd::multiset::Multiset<crate::model::priority_heap_item::PriorityHeapItem> {
        self.core.heap@
    }

    /// The search has not begun: no node has a label or a node that it was
    /// reached over, and the heap holds the item of the source alone.
    pub open spec fn fresh(&self) -> bool {
        &&& self.labels().len() == self.node_count()
        &&& self.predecessors().len() == self.node_count()
        &&& forall|v: int|
            0 <= v < self.node_count() ==> (#[trigger] self.labels()[v]) == u32::MAX && self.predecessors()[v]
                == u32::MAX
        &&& self.waiting() == vstd::multiset::Multiset::<
            crate::model::priority_heap_item::PriorityHeapItem,
        >::empty().insert(
            (crate::model::priority_heap_item::PriorityHeapItem {
                node_id: self.source() as u32,
                distance: 0,
                priority: 0,
                previous_node: self.source() as u32,
            }),
        )
    }

    /// The count that is reported with every result.
    pub closed spec fn nodes_popped(&self) -> int {
        self.core.amount_nodes_popped as int
    }

    /// An engine over `graph` without the nodes in `removed_nodes`, about
    /// to search from `source_node`.
    pub fn new(graph: &'a AdjacencyArray, source_node: u32, removed_nodes: &'a HashMap<u32, bool>) -> (w:
        WitnessSearch<'a>)
        requires
            graph.wf(),
            source_node < graph.node_count(),
        ensures
            w.wf(),
            w.arcs() == visible_arcs(graph, removed_nodes@.dom()),
            w.node_count() == graph.node_count(),
            w.source() == source_node,
            w.nodes_popped() == 0,
            forall|v: int| !w.labelled(v),
            w.fresh(),
    {
        let number_of_nodes: usize = graph.get_nodes_count() as usize;
        let ghost zeros = Seq::new(number_of_nodes as nat, |i: int| 0u64);
        let ghost arcs = visible_arcs(graph, removed_nodes@.dom());
        proof {
            graph.lemma_arcs_within();
        }
        let core = SearchCore::new(number_of_nodes, source_node, Ghost(arcs), Ghost(zeros));
        proof {
            crate::algorithms::search_core::lemma_fresh_unlabelled(&core, arcs);
            assert(core.ordered());
        }
        WitnessSearch { graph_ref: graph, removed_nodes, core }
    }

    /// Makes `source_node` the source. With the source it already has, the
    /// engine keeps what it has found; with another it begins anew.
    pub fn change_source_node(&mut self, source_node: u32)
        requires
            old(self).wf(),
            source_node < old(self).node_count(),
        ensures
            final(self).wf(),
            final(self).arcs() == old(self).arcs(),
            final(self).node_count() == old(self).node_count(),
            final(self).source() == source_node,
            final(self).nodes_popped() == old(self).nodes_popped(),
            source_node == old(self).source() ==> forall|v: int| final(self).labelled(v) == old(self).labelled(v),
            source_node != old(self).source() ==> forall|v: int| !final(self).labelled(v),
            source_node != old(self).source() ==> final(self).fresh(),
            source_node == old(self).source() ==> final(self).labels() == old(self).labels() && final(self).predecessors()
                == old(self).predecessors() && final(self).waiting() == old(self).waiting(),
    {
        if source_node == self.core.source_node {
            return ;
        }
        let ghost arcs = visible_arcs(self.graph_ref, self.removed_nodes@.dom());
        self.core.reset(source_node, Ghost(arcs));
        proof {
            crate::algorithms::search_core::lemma_fresh_unlabelled(&self.core, arcs);
            assert(self.core.ordered());
        }
    }

    /// Searches until every node of `destination_nodes` has got its label
    /// or the heap is empty, and reports a shortest way with its length for
    /// each of them that can be reached over less than `u32::MAX`: first
    /// for those that have their label from an earlier search from the
    /// same source, in the order in which they are listed, then for the
    /// others in the order in which they get their label, which is that of
    /// their lengths. `None` when none of them can be reached.
    pub fn find_route(&mut self, destination_nodes: &[u32]) -> (r: Option<(Vec<Vec<u32>>, Vec<u32>, u32)>)
        requires
            old(self).wf(),
            forall|i: int| 0 <= i < destination_nodes@.len() ==> destination_nodes@[i] < old(self).node_count(),
        ensures
            final(self).wf(),
            final(self).arcs() == old(self).arcs(),
            final(self).node_count() == old(self).node_count(),
            final(self).source() == old(self).source(),
            final(self).nodes_popped() == old(self).nodes_popped(),
            forall|v: int| old(self).labelled(v) ==> final(self).labelled(v),
            r is Some <==> exists|t: u32| wanted(old(self).arcs(), old(self).source(), destination_nodes@, t),
            r matches Some((routes, distances, popped)) ==> {
                &&& popped == final(self).nodes_popped()
                &&& is_witness_list(old(self).arcs(), old(self).source(), destination_nodes@, routes@, distances@)
                &&& is_in_order(old(self).labels(), ends_of(routes@), distances@)
            },
    {
        let result = self.dijkstra(destination_nodes);
        if result.1.len() > 0 {
            proof {
                assert(wanted(old(self).arcs(), old(self).source(), destination_nodes@, result.0@[0]@.last()));
            }
            Some((result.0, result.1, self.core.amount_nodes_popped))
        } else {
            None
        }
    }

    /// Runs the search, and hands back the ways and the lengths.
    fn dijkstra(&mut self, destination_nodes: &[u32]) -> (r: (Vec<Vec<u32>>, Vec<u32>))
        requires
            old(self).wf(),
            forall|i: int| 0 <= i < destination_nodes@.len() ==> destination_nodes@[i] < old(self).node_count(),
        ensures
            final(self).wf(),
            final(self).graph_ref == old(self).graph_ref,
            final(self).removed_nodes == old(self).removed_nodes,
            final(self).core.source_node == old(self).core.source_node,
            final(self).core.amount_nodes_popped == old(self).core.amount_nodes_popped,
            forall|v: int| old(self).labelled(v) ==> final(self).labelled(v),
            is_witness_list(old(self).arcs(), old(self).source(), destination_nodes@, r.0@, r.1@),
            is_in_order(old(self).labels(), ends_of(r.0@), r.1@),
    {
        let mut results: Vec<Vec<u32>> = Vec::new();
        let mut distances: Vec<u32> = Vec::new();
        let mut ends: Vec<u32> = Vec::new();
        let ghost arcs = visible_arcs(self.graph_ref, self.removed_nodes@.dom());
        let ghost s = self.core.src();
        let ghost dest = destination_nodes@;
        let mut k: usize = 0;
        while k < destination_nodes.len()
            invariant
                self.wf(),
                *self == *old(self),
                arcs == visible_arcs(self.graph_ref, self.removed_nodes@.dom()),
                s == self.core.src(),
                dest == destination_nodes@,
                k <= dest.len(),
                forall|i: int| 0 <= i < dest.len() ==> dest[i] < self.core.n(),
                found_so_far(arcs, s, dest, ends@, results@, distances@),
                forall|i: int| 0 <= i < ends@.len() ==> self.core.settled(#[trigger] ends@[i] as int),
                forall|i: int| 0 <= i < k && self.core.settled(dest[i] as int) ==> ends@.contains(#[trigger] dest[i]),
                forall|i: int|
                    0 <= i < ends@.len() ==> distances@[i] == self.core.distances@[(#[trigger] ends@[i]) as int],
            decreases dest.len() - k,
        {
            let t: u32 = destination_nodes[k];
            let ghost earlier = ends@;
            proof {
                lemma_shape(&self.core, arcs);
            }
            if self.core.distances[t as usize] != u32::MAX && !slice_contains(ends.as_slice(), t) {
                let route = self.traverse_route(t);
                let d: u32 = self.core.distances[t as usize];
                proof {
                    lemma_found_one(arcs, s, dest, ends@, results@, distances@, t, route, d);
                }
                ends.push(t);
                results.push(route);
                distances.push(d);
            }
            proof {
                assert forall|i: int| 0 <= i < k + 1 && self.core.settled(dest[i] as int) implies ends@.contains(
                    #[trigger] dest[i],
                ) by {
                    if earlier.contains(dest[i]) {
                        let j = choose|j: int| 0 <= j < earlier.len() && earlier[j] == dest[i];
                        assert(ends@[j] == dest[i]);
                    } else {
                        assert(i == k);
                        assert(ends@ == earlier.push(t));
                        assert(ends@[earlier.len() as int] == t);
                    }
                }
            }
            k += 1;
        }
        loop
            invariant
                self.wf(),
                self.graph_ref == old(self).graph_ref,
                self.removed_nodes == old(self).removed_nodes,
                self.core.source_node == old(self).core.source_node,
                self.core.amount_nodes_popped == old(self).core.amount_nodes_popped,
                arcs == visible_arcs(self.graph_ref, self.removed_nodes@.dom()),
                s == self.core.src(),
                dest == destination_nodes@,
                forall|i: int| 0 <= i < dest.len() ==> dest[i] < self.core.n(),
                forall|v: int| old(self).labelled(v) ==> self.core.settled(v),
                found_so_far(arcs, s, dest, ends@, results@, distances@),
                forall|i: int| 0 <= i < ends@.len() ==> self.core.settled(#[trigger] ends@[i] as int),
                forall|v: u32| self.core.settled(v as int) && #[trigger] dest.contains(v) ==> ends@.contains(v),
                forall|i: int|
                    0 <= i < ends@.len() ==> distances@[i] == self.core.distances@[(#[trigger] ends@[i]) as int],
                self.core.n() == old(self).core.n(),
                is_in_order(old(self).core.distances@, ends@, distances@),
            decreases self.core.weight(), self.core.heap@.len(),
        {
            if results.len() == destination_nodes.len() {
                proof {
                    lemma_found_all(arcs, s, dest, ends@, results@, distances@);
                    assert(ends_of(results@) =~= ends@);
                }
                return (results, distances);
            }
            let ghost earlier_core = self.core;
            match self.core.step(self.graph_ref, Some(self.removed_nodes), None, false) {
                Popped::Empty => {
                    proof {
                        assert(ends_of(results@) =~= ends@);
                        assert forall|t: u32| wanted(arcs, s, dest, t) implies ends@.contains(t) by {
                            if !self.core.settled(t as int) {
                                let i = choose|i: int| 0 <= i < dest.len() && dest[i] == t;
                                lemma_exhausted(&self.core, arcs, t as int);
                            }
                        }
                        lemma_found_these(arcs, s, dest, ends@, results@, distances@);
                    }
                    return (results, distances);
                },
                Popped::Stale => {},
                Popped::Settled(node_id) => {
                    if slice_contains(destination_nodes, node_id) {
                        let route = self.traverse_route(node_id);
                        proof {
                            lemma_shape(&self.core, arcs);
                        }
                        let d: u32 = self.core.distances[node_id as usize];
                        proof {
                            if ends@.contains(node_id) {
                                let j = choose|j: int| 0 <= j < ends@.len() && ends@[j] == node_id;
                                assert(old(self).core.n() == self.core.n());
                            }
                            lemma_found_one(arcs, s, dest, ends@, results@, distances@, node_id, route, d);
                        }
                        let ghost earlier = ends@;
                        let ghost lengths = distances@;
                        ends.push(node_id);
                        results.push(route);
                        distances.push(d);
                        proof {
                            assert forall|v: u32| earlier.contains(v) implies ends@.contains(v) by {
                                let j = choose|j: int| 0 <= j < earlier.len() && earlier[j] == v;
                                assert(ends@[j] == v);
                            }
                            assert(ends@[ends@.len() - 1] == node_id);
                            assert forall|i: int| 0 <= i < earlier.len() implies lengths[i] <= d by {
                                assert(earlier_core.settled(earlier[i] as int));
                            }
                            assert(!old(self).labelled(node_id as int));
                        }
                    }
                },
            }
        }
    }

    /// The way to the labelled node `destination_node`.
    fn traverse_route(&self, destination_node: u32) -> (route: Vec<u32>)
        requires
            self.wf(),
            self.core.settled(destination_node as int),
        ensures
            route@.last() == destination_node,
            is_witness(self.arcs(), self.source(), route@, self.core.distances@[destination_node as int]),
    {
        let ghost arcs = visible_arcs(self.graph_ref, self.removed_nodes@.dom());
        let route = self.core.route_to(destination_node, Ghost(arcs));
        proof {
            let t = destination_node as int;
            lemma_label_shortest(&self.core, arcs, t);
            if t != self.core.src() {
                let len = choose|len: nat| len <= self.core.dist(t) && is_route(arcs, ids(route@), len);
                lemma_route_reaches(arcs, ids(route@), len);
            }
        }
        route
    }
}

/// The node `t` is a destination that can be reached from `s` over less
/// than `u32::MAX`.
pub open spec fn wanted(arcs: Set<Arc>, s: int, destinations: Seq<u32>, t: u32) -> bool {
    destinations.contains(t) && !out_of_reach(arcs, s, t as int)
}

/// What a witness search reports: one shortest way with its length for
/// each destination that can be reached, and none besides.
pub open spec fn is_witness_list(
    arcs: Set<Arc>,
    s: int,
    destinations: Seq<u32>,
    routes: Seq<Vec<u32>>,
    distances: Seq<u32>,
) -> bool {
    &&& routes.len() == distances.len()
    &&& forall|i: int|
        0 <= i < routes.len() ==> destinations.contains((#[trigger] routes[i])@.last()) && is_witness(
            arcs,
            s,
            routes[i]@,
            distances[i],
        )
    &&& forall|i: int, j: int|
        0 <= i < j < routes.len() ==> (#[trigger] routes[i])@.last() != (#[trigger] routes[j])@.last()
    &&& forall|t: u32|
        #[trigger] wanted(arcs, s, destinations, t) ==> exists|i: int|
            0 <= i < routes.len() && (#[trigger] routes[i])@.last() == t
}

/// The nodes that the ways `routes` lead to.
pub open spec fn ends_of(routes: Seq<Vec<u32>>) -> Seq<u32> {
    Seq::new(routes.len(), |i: int| routes[i]@.last())
}

/// The order of what a witness search reports, by the nodes `ends` that
/// its ways lead to and their lengths: the nodes that had their label
/// before the search, as `labels` has it, come first; and the length of a
/// node that had none is no less than any length before it in the list,
/// so that these come in the order of their lengths.
pub open spec fn is_in_order(labels: Seq<u32>, ends: Seq<u32>, distances: Seq<u32>) -> bool {
    &&& forall|i: int, j: int|
        0 <= i < j < ends.len() && labels[(#[trigger] ends[j]) as int] == u32::MAX ==> (#[trigger] distances[i])
            <= distances[j]
    &&& forall|i: int, j: int|
        0 <= i < j < ends.len() && labels[(#[trigger] ends[j]) as int] != u32::MAX ==> labels[(
        #[trigger] ends[i]) as int] != u32::MAX
}

/// What a witness search has found so far: for each of the nodes `ends`,
/// which are destinations and none of them listed twice, a shortest way
/// with its length.
pub open spec fn found_so_far(
    arcs: Set<Arc>,
    s: int,
    destinations: Seq<u32>,
    ends: Seq<u32>,
    routes: Seq<Vec<u32>>,
    distances: Seq<u32>,
) -> bool {
    &&& routes.len() == ends.len()
    &&& distances.len() == ends.len()
    &&& ends.no_duplicates()
    &&& forall|i: int|
        0 <= i < ends.len() ==> destinations.contains(#[trigger] ends[i]) && routes[i]@.last() == ends[i]
            && is_witness(arcs, s, routes[i]@, distances[i])
}

/// One more destination found.
pub proof fn lemma_found_one(
    arcs: Set<Arc>,
    s: int,
    destinations: Seq<u32>,
    ends: Seq<u32>,
    routes: Seq<Vec<u32>>,
    distances: Seq<u32>,
    t: u32,
    route: Vec<u32>,
    d: u32,
)
    requires
        found_so_far(arcs, s, destinations, ends, routes, distances),
        destinations.contains(t),
        !ends.contains(t),
        route@.last() == t,
        is_witness(arcs, s, route@, d),
    ensures
        found_so_far(arcs, s, destinations, ends.push(t), routes.push(route), distances.push(d)),
{
    let e2 = ends.push(t);
    assert forall|i: int, j: int| 0 <= i < e2.len() && 0 <= j < e2.len() && i != j implies e2[i] != e2[j] by {
        if i < ends.len() && j < ends.len() {
            assert(ends[i] != ends[j]);
        } else if i < ends.len() {
            assert(ends.contains(ends[i]));
        } else {
            assert(ends.contains(ends[j]));
        }
    }
}

/// What was found holds all that was wanted, where every destination that
/// can be reached is among the nodes found.
pub proof fn lemma_found_these(
    arcs: Set<Arc>,
    s: int,
    destinations: Seq<u32>,
    ends: Seq<u32>,
    routes: Seq<Vec<u32>>,
    distances: Seq<u32>,
)
    requires
        found_so_far(arcs, s, destinations, ends, routes, distances),
        forall|t: u32| wanted(arcs, s, destinations, t) ==> ends.contains(t),
    ensures
        is_witness_list(arcs, s, destinations, routes, distances),
{
    assert forall|i: int, j: int| 0 <= i < j < routes.len() implies (#[trigger] routes[i])@.last() != (
    #[trigger] routes[j])@.last() by {
        assert(ends[i] != ends[j]);
        assert(destinations.contains(ends[i]) && destinations.contains(ends[j]));
    }
    assert forall|i: int| 0 <= i < routes.len() implies destinations.contains((#[trigger] routes[i])@.last())
        && is_witness(arcs, s, routes[i]@, distances[i]) by {
        assert(destinations.contains(ends[i]));
    }
    assert forall|t: u32| #[trigger] wanted(arcs, s, destinations, t) implies exists|i: int|
        0 <= i < routes.len() && (#[trigger] routes[i])@.last() == t by {
        assert(ends.contains(t));
        let i = choose|i: int| 0 <= i < ends.len() && ends[i] == t;
        assert(destinations.contains(ends[i]));
        assert(routes[i]@.last() == t);
    }
}

/// Where as many nodes were found as there are destinations, every
/// destination was.
pub proof fn lemma_found_all(
    arcs: Set<Arc>,
    s: int,
    destinations: Seq<u32>,
    ends: Seq<u32>,
    routes: Seq<Vec<u32>>,
    distances: Seq<u32>,
)
    requires
        found_so_far(arcs, s, destinations, ends, routes, distances),
        ends.len() == destinations.len(),
    ensures
        is_witness_list(arcs, s, destinations, routes, distances),
{
    assert forall|t: u32| ends.to_set().contains(t) implies destinations.to_set().contains(t) by {
        let i = choose|i: int| 0 <= i < ends.len() && ends[i] == t;
        assert(destinations.contains(ends[i]));
    }
    assert(ends.to_set().subset_of(destinations.to_set()));
    ends.unique_seq_to_set();
    destinations.lemma_cardinality_of_set();
    vstd::seq_lib::seq_to_set_is_finite(destinations);
    vstd::seq_lib::seq_to_set_is_finite(ends);
    vstd::set_lib::lemma_len_subset(ends.to_set(), destinations.to_set());
    vstd::set_lib::lemma_subset_equality(ends.to_set(), destinations.to_set());
    assert forall|t: u32| wanted(arcs, s, destinations, t) implies ends.contains(t) by {
        assert(destinations.to_set().contains(t));
        assert(ends.to_set().contains(t));
    }
    lemma_found_these(arcs, s, destinations, ends, routes, distances);
}

} // verus!
