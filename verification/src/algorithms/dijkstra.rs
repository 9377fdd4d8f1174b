use vstd::prelude::*;
use crate::model::adjacency_array::{AdjacencyArray, Arc};
use crate::algorithms::paths::{is_route, is_shortest, is_search_result, is_reported_route, out_of_reach, ids, lemma_route_reaches};
use crate::algorithms::search_core::{SearchCore, Popped, visible_arcs, lemma_shape, lemma_label_shortest,
    lemma_exhausted};
use crate::algorithms::stop::{SearchEnd, asked};
use std::sync::atomic::AtomicBool;

verus! {

/// What a search needs of a graph in compact form.
pub trait GraphInterface {
    /// Where the pairs of each node start, and where the last ones end.
    spec fn starts(&self) -> Seq<u32>;

    /// The pairs `(target, distance)` of all nodes, interleaved.
    spec fn pairs(&self) -> Seq<u32>;

    /// The pairs of every node lie inside the list of pairs.
    spec fn usable(&self) -> bool;

    /// The pairs `(target, distance)` of `node`, interleaved.
    fn get_neighbors_of_node_and_distances(&self, node: u32) -> (r: &[u32])
        requires
            self.usable(),
            node + 1 < self.starts().len(),
        ensures
            r@ == self.pairs().subrange(self.starts()[node as int] as int, self.starts()[node + 1] as int),
    ;

    /// Number of nodes.
    fn get_nodes_count(&self) -> (n: u32)
        requires
            self.usable(),
        ensures
            n == self.starts().len() - 1,
    ;
}

/// The trivial grid of eight nodes that the engines are tried on:
/// `0-1: 2, 0-4: 1, 1-2: 2, 1-4: 1, 2-3: 1, 2-4: 2, 3-4: 1, 3-6: 2, 4-5: 3,
/// 5-6: 1, 5-7: 3, 6-7: 1`, each in both directions.
pub struct DummyGraph {
    offsets: Vec<u32>,
    edges: Vec<u32>,
}

/// Where the edges of each node of the trivial grid start, counted in
/// edges.
pub open spec fn dummy_starts() -> Seq<u32> {
    seq![0u32, 2, 5, 8, 11, 16, 19, 22, 24]
}

/// The targets of the edges of the trivial grid, node after node.
pub open spec fn dummy_targets() -> Seq<u32> {
    seq![1u32, 4, 0, 2, 4, 1, 3, 4, 2, 4, 6, 0, 1, 2, 3, 5, 4, 6, 7, 3, 5, 7, 5, 6]
}

/// The lengths of the edges of the trivial grid, node after node.
pub open spec fn dummy_distances() -> Seq<u32> {
    seq![2u32, 1, 2, 2, 1, 2, 1, 2, 1, 1, 2, 1, 1, 2, 1, 3, 3, 1, 3, 2, 1, 1, 3, 1]
}

impl DummyGraph {
    /// The offsets of the grid.
    pub closed spec fn offsets_view(&self) -> Seq<u32> {
        self.offsets@
    }

    /// The interleaved pairs of the grid.
    pub closed spec fn edges_view(&self) -> Seq<u32> {
        self.edges@
    }

    /// The trivial grid, in compact form: its offsets count entries of the
    /// pair list, two for every edge.
    pub fn init() -> (g: DummyGraph)
        ensures
            g.offsets_view().len() == 9,
            forall|i: int| 0 <= i < 9 ==> g.offsets_view()[i] == 2 * dummy_starts()[i],
            g.edges_view().len() == 48,
            forall|i: int|
                0 <= i < 24 ==> g.edges_view()[2 * i] == dummy_targets()[i] && g.edges_view()[2 * i + 1]
                    == dummy_distances()[i],
            g.usable(),
            g.starts() == g.offsets_view(),
            g.pairs() == g.edges_view(),
    {
        let offsets_old: Vec<u32> = vec![0, 2, 5, 8, 11, 16, 19, 22, 24];
        let edges_target: Vec<u32> = vec![1, 4, 0, 2, 4, 1, 3, 4, 2, 4, 6, 0, 1, 2, 3, 5, 4, 6, 7, 3, 5, 7, 5, 6];
        let edges_distance: Vec<u32> = vec![2, 1, 2, 2, 1, 2, 1, 2, 1, 1, 2, 1, 1, 2, 1, 3, 3, 1, 3, 2, 1, 1, 3, 1];
        proof {
            assert(offsets_old@ =~= dummy_starts());
            assert(edges_target@ =~= dummy_targets());
            assert(edges_distance@ =~= dummy_distances());
        }
        let mut offsets: Vec<u32> = Vec::with_capacity(offsets_old.len());
        let mut k: usize = 0;
        while k < offsets_old.len()
            invariant
                k <= offsets_old@.len(),
                offsets_old@ == dummy_starts(),
                offsets@.len() == k,
                forall|i: int| 0 <= i < k ==> offsets@[i] == 2 * dummy_starts()[i],
            decreases offsets_old@.len() - k,
        {
            offsets.push(offsets_old[k] * 2);
            k += 1;
        }
        let mut edges: Vec<u32> = Vec::with_capacity(edges_target.len() * 2);
        let mut i: usize = 0;
        while i < edges_target.len()
            invariant
                i <= edges_target@.len(),
                edges_target@ == dummy_targets(),
                edges_distance@ == dummy_distances(),
                edges@.len() == 2 * i,
                forall|j: int|
                    0 <= j < i ==> edges@[2 * j] == dummy_targets()[j] && edges@[2 * j + 1] == dummy_distances()[j],
            decreases edges_target@.len() - i,
        {
            edges.push(edges_target[i]);
            edges.push(edges_distance[i]);
            i += 1;
        }
        DummyGraph { offsets, edges }
    }

    /// The offsets and the interleaved pairs of the grid.
    pub fn parts(&self) -> (r: (&Vec<u32>, &Vec<u32>))
        ensures
            r.0@ == self.offsets_view(),
            r.1@ == self.edges_view(),
    {
        (&self.offsets, &self.edges)
    }
}

impl GraphInterface for DummyGraph {
    closed spec fn starts(&self) -> Seq<u32> {
        self.offsets@
    }

    closed spec fn pairs(&self) -> Seq<u32> {
        self.edges@
    }

    closed spec fn usable(&self) -> bool {
        &&& self.offsets@.len() >= 1
        &&& self.offsets@.len() <= u32::MAX
        &&& forall|u: int|
            0 <= u < self.offsets@.len() - 1 ==> self.offsets@[u] <= (#[trigger] self.offsets@[u + 1])
                <= self.edges@.len()
    }

    fn get_neighbors_of_node_and_distances(&self, node: u32) -> (r: &[u32]) {
        let start_offset: usize = self.offsets[node as usize] as usize;
        let next_node_offset: usize = self.offsets[node as usize + 1] as usize;
        proof {
            assert(self.offsets@[node as int] <= self.offsets@[node as int + 1]);
        }
        vstd::slice::slice_subrange(self.edges.as_slice(), start_offset, next_node_offset)
    }

    fn get_nodes_count(&self) -> (n: u32) {
        (self.offsets.len() - 1) as u32
    }
}

/// Uniform-cost search from one source, with lazy deletion: a node may be
/// on the heap several times, and every item but the first that is taken
/// for it is dropped.
pub struct Dijkstra {
    graph_ref: AdjacencyArray,
    core: SearchCore,
}

/// The arcs a search without hidden nodes works on are those of its graph.
pub proof fn lemma_all_visible(graph: &AdjacencyArray)
    ensures
        visible_arcs(graph, Set::empty()) == graph.arcs(),
{
    assert(visible_arcs(graph, Set::empty()) =~= graph.arcs());
}

impl Dijkstra {
    /// The engine is in a state that its methods keep.
    pub closed spec fn wf(&self) -> bool {
        &&& self.graph_ref.wf()
        &&& self.graph_ref.node_count() == self.core.n()
        &&& self.core.inv(self.graph_ref.arcs())
        &&& self.core.tight@
        &&& self.core.potentials@ == Seq::new(self.core.n() as nat, |i: int| 0u64)
        &&& self.core.counted()
    }

    /// The arcs of the graph that is searched.
    pub closed spec fn arcs(&self) -> Set<Arc> {
        self.graph_ref.arcs()
    }

    /// Number of nodes of the graph that is searched.
    pub closed spec fn node_count(&self) -> int {
        self.graph_ref.node_count()
    }

    /// The node the search starts from.
    pub closed spec fn source(&self) -> int {
        self.core.source_node as int
    }

    /// How many items were taken from the heap so far (the count stops at
    /// `u32::MAX`).
    pub closed spec fn nodes_popped(&self) -> int {
        self.core.amount_nodes_popped as int
    }

    /// The node `v` has its label: the search has found its shortest
    /// length from the source.
    pub closed spec fn labelled(&self, v: int) -> bool {
        self.core.settled(v)
    }

    /// The label of every node: its length from the source as far as the
    /// search knows it, `u32::MAX` for a node without one.
    pub closed spec fn labels(&self) -> Seq<u32> {
        self.core.distances@
    }

    /// For every node the node that it was reached over, `u32::MAX` for a
    /// node that was not reached.
    pub closed spec fn predecessors(&self) -> Seq<u32> {
        self.core.previous_nodes@
    }

    /// The items on the heap.
    pub closed spec fn waiting(&self) -> vstd::multiset::Multiset<crate::model::priority_heap_item::PriorityHeapItem> {
        self.core.heap@
    }

    /// The search has not begun: no node has a label or a node that it was
    /// reached over, and the heap holds the item of the source alone.
    pub open spec fn fresh(&self) -> bool {
        &&& self.labels().len() == self.node_count()
        &&& self.predecessors().len() == self.node_count()
        &&& forall|v: int|
            0 <= v < self.node_count() ==> (#[trigger] self.labels()[v]) == u32::MAX && self.predecessors()[v]
                == u32::MAX
        &&& self.waiting() == vstd::multiset::Multiset::<
            crate::model::priority_heap_item::PriorityHeapItem,
        >::empty().insert(
            (crate::model::priority_heap_item::PriorityHeapItem {
                node_id: self.source() as u32,
                distance: 0,
                priority: 0,
                previous_node: self.source() as u32,
            }),
        )
    }

    /// An engine over `graph`, about to search from `source_node`.
    pub fn new(graph: AdjacencyArray, source_node: u32) -> (d: Dijkstra)
        requires
            graph.wf(),
            source_node < graph.node_count(),
        ensures
            d.wf(),
            d.arcs() == graph.arcs(),
            d.node_count() == graph.node_count(),
            d.source() == source_node,
            d.nodes_popped() == 0,
            forall|v: int| !d.labelled(v),
            d.fresh(),
    {
        let number_of_nodes: usize = graph.get_nodes_count() as usize;
        let ghost zeros = Seq::new(number_of_nodes as nat, |i: int| 0u64);
        proof {
            graph.lemma_arcs_within();
        }
        let core = SearchCore::new(number_of_nodes, source_node, Ghost(graph.arcs()), Ghost(zeros));
        proof {
            crate::algorithms::search_core::lemma_fresh_unlabelled(&core, graph.arcs());
        }
        Dijkstra { graph_ref: graph, core }
    }

    /// Makes `source_node` the source. With the source it already has, the
    /// engine keeps what it has found; with another it begins anew. The
    /// count of items taken stays.
    pub fn change_source_node(&mut self, source_node: u32)
        requires
            old(self).wf(),
            source_node < old(self).node_count(),
        ensures
            final(self).wf(),
            final(self).arcs() == old(self).arcs(),
            final(self).node_count() == old(self).node_count(),
            final(self).source() == source_node,
            final(self).nodes_popped() == old(self).nodes_popped(),
            source_node == old(self).source() ==> forall|v: int| final(self).labelled(v) == old(self).labelled(v),
            source_node != old(self).source() ==> forall|v: int| !final(self).labelled(v),
            source_node != old(self).source() ==> final(self).fresh(),
            source_node == old(self).source() ==> final(self).labels() == old(self).labels() && final(self).predecessors()
                == old(self).predecessors() && final(self).waiting() == old(self).waiting(),
    {
        if source_node == self.core.source_node {
            return ;
        }
        self.core.reset(source_node, Ghost(self.graph_ref.arcs()));
        proof {
            crate::algorithms::search_core::lemma_fresh_unlabelled(&self.core, self.graph_ref.arcs());
        }
    }

    /// Searches for `destination_node` and reports a shortest way to it:
    /// its nodes from the source on, its length, and the count of items
    /// taken from the heap so far, which is no less than the number of
    /// nodes of the way unless it has stopped at `u32::MAX`. `None` when no
    /// way is shorter than `u32::MAX`.
    pub fn find_route(&mut self, destination_node: u32) -> (r: Option<(Vec<u32>, u32, u32)>)
        requires
            old(self).wf(),
            destination_node < old(self).node_count(),
        ensures
            final(self).wf(),
            final(self).arcs() == old(self).arcs(),
            final(self).node_count() == old(self).node_count(),
            final(self).source() == old(self).source(),
            old(self).nodes_popped() <= final(self).nodes_popped(),
            forall|v: int| old(self).labelled(v) ==> final(self).labelled(v),
            r is Some <==> final(self).labelled(destination_node as int),
            is_search_result(
                old(self).arcs(),
                old(self).source(),
                destination_node as int,
                crate::algorithms::paths::reported_length(r),
            ),
            match r {
                None => out_of_reach(old(self).arcs(), old(self).source(), destination_node as int),
                Some((route, distance, popped)) => {
                    &&& distance < u32::MAX
                    &&& is_shortest(old(self).arcs(), old(self).source(), destination_node as int, distance as nat)
                    &&& is_reported_route(
                        old(self).arcs(),
                        old(self).source(),
                        destination_node as int,
                        route@,
                        distance as nat,
                    )
                    &&& popped == final(self).nodes_popped()
                    &&& popped == u32::MAX || popped >= route@.len()
                },
            },
    {
        self.dijkstra(destination_node, None);
        self.report(destination_node)
    }

    /// Searches for `destination_node` as [`Dijkstra::find_route`] does,
    /// but looks at `token` before it takes an item from the heap, and ends
    /// the search where the token asks for it. What was found up to then is
    /// kept.
    pub fn find_route_unless(&mut self, destination_node: u32, token: &AtomicBool) -> (end: SearchEnd)
        requires
            old(self).wf(),
            destination_node < old(self).node_count(),
        ensures
            final(self).wf(),
            final(self).arcs() == old(self).arcs(),
            final(self).node_count() == old(self).node_count(),
            final(self).source() == old(self).source(),
            old(self).nodes_popped() <= final(self).nodes_popped(),
            match end {
                SearchEnd::Stopped(popped) => popped == final(self).nodes_popped(),
                SearchEnd::NoRoute(popped) => popped == final(self).nodes_popped() && out_of_reach(
                    old(self).arcs(),
                    old(self).source(),
                    destination_node as int,
                ),
                SearchEnd::Route(route, distance, popped) => {
                    &&& distance < u32::MAX
                    &&& is_shortest(old(self).arcs(), old(self).source(), destination_node as int, distance as nat)
                    &&& is_reported_route(
                        old(self).arcs(),
                        old(self).source(),
                        destination_node as int,
                        route@,
                        distance as nat,
                    )
                    &&& popped == final(self).nodes_popped()
                    &&& popped == u32::MAX || popped >= route@.len()
                },
            },
    {
        if self.dijkstra(destination_node, Some(token)) {
            return SearchEnd::Stopped(self.core.amount_nodes_popped);
        }
        match self.report(destination_node) {
            Some((route, distance, popped)) => SearchEnd::Route(route, distance, popped),
            None => SearchEnd::NoRoute(self.core.amount_nodes_popped),
        }
    }

    /// What a search that has come to its end reports of `destination_node`.
    fn report(&self, destination_node: u32) -> (r: Option<(Vec<u32>, u32, u32)>)
        requires
            self.wf(),
            destination_node < self.node_count(),
            self.core.settled(destination_node as int) || self.core.heap@.len() == 0,
        ensures
            r is Some <==> self.labelled(destination_node as int),
            match r {
                None => out_of_reach(self.arcs(), self.source(), destination_node as int),
                Some((route, distance, popped)) => {
                    &&& distance < u32::MAX
                    &&& is_shortest(self.arcs(), self.source(), destination_node as int, distance as nat)
                    &&& is_reported_route(self.arcs(), self.source(), destination_node as int, route@, distance as nat)
                    &&& popped == self.nodes_popped()
                    &&& popped == u32::MAX || popped >= route@.len()
                },
            },
    {
        proof {
            lemma_shape(&self.core, self.graph_ref.arcs());
        }
        if self.core.distances[destination_node as usize] != u32::MAX {
            let route = self.traverse_route(destination_node);
            Some((route, self.core.distances[destination_node as usize], self.core.amount_nodes_popped))
        } else {
            proof {
                lemma_exhausted(&self.core, self.graph_ref.arcs(), destination_node as int);
            }
            None
        }
    }

    /// Runs the search until `destination_node` gets its label, the heap is
    /// empty, or `token` asks for a stop: `true` where it did.
    fn dijkstra(&mut self, destination_node: u32, token: Option<&AtomicBool>) -> (stopped: bool)
        requires
            old(self).wf(),
            destination_node < old(self).node_count(),
        ensures
            final(self).wf(),
            final(self).arcs() == old(self).arcs(),
            final(self).node_count() == old(self).node_count(),
            final(self).source() == old(self).source(),
            old(self).nodes_popped() <= final(self).nodes_popped(),
            forall|v: int| old(self).labelled(v) ==> final(self).labelled(v),
            stopped || final(self).core.settled(destination_node as int) || final(self).core.heap@.len() == 0,
            token is None ==> !stopped,
    {
        proof {
            lemma_all_visible(&self.graph_ref);
        }
        let mut stopped = false;
        loop
            invariant_except_break
                !stopped,
            invariant
                self.wf(),
                self.graph_ref == old(self).graph_ref,
                self.core.source_node == old(self).core.source_node,
                old(self).nodes_popped() <= self.nodes_popped(),
                visible_arcs(&self.graph_ref, Set::empty()) == self.graph_ref.arcs(),
                forall|v: int| old(self).core.settled(v) ==> self.core.settled(v),
            ensures
                self.wf(),
                self.graph_ref == old(self).graph_ref,
                self.core.source_node == old(self).core.source_node,
                old(self).nodes_popped() <= self.nodes_popped(),
                forall|v: int| old(self).core.settled(v) ==> self.core.settled(v),
                stopped || self.core.settled(destination_node as int) || self.core.heap@.len() == 0,
                token is None ==> !stopped,
            decreases self.core.weight(), self.core.heap@.len(),
        {
            if asked(token) {
                stopped = true;
                break ;
            }
            match self.core.step(&self.graph_ref, None, None, true) {
                Popped::Empty => {
                    break ;
                },
                Popped::Stale => {},
                Popped::Settled(node_id) => {
                    if destination_node == node_id {
                        break ;
                    }
                },
            }
        }
        stopped
    }

    /// The way to the labelled node `destination_node`.
    fn traverse_route(&self, destination_node: u32) -> (route: Vec<u32>)
        requires
            self.wf(),
            self.core.settled(destination_node as int),
        ensures
            is_reported_route(
                self.arcs(),
                self.source(),
                destination_node as int,
                route@,
                self.core.dist(destination_node as int),
            ),
            is_shortest(self.arcs(), self.source(), destination_node as int, self.core.dist(destination_node as int)),
            route@.len() <= self.core.settled_count@,
    {
        let ghost arcs = self.graph_ref.arcs();
        let route = self.core.route_to(destination_node, Ghost(arcs));
        proof {
            let t = destination_node as int;
            lemma_label_shortest(&self.core, arcs, t);
            if t != self.core.src() {
                let len = choose|len: nat| len <= self.core.dist(t) && is_route(arcs, ids(route@), len);
                lemma_route_reaches(arcs, ids(route@), len);
            }
        }
        route
    }
}

} // verus!
