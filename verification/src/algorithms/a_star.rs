use vstd::prelude::*;
use crate::model::adjacency_array::{AdjacencyArray, Arc};
use crate::model::grid_graph::GridGraph;
use crate::algorithms::paths::{is_route, is_shortest, is_reported_route, is_reported_route_within, is_search_result, consistent, ids, lemma_route_reaches};
use crate::algorithms::search_core::{SearchCore, Popped, visible_arcs, MAX_ESTIMATE, lemma_shape,
    lemma_label_shortest, lemma_exhausted, lemma_retarget, lemma_loosen};
use crate::algorithms::dijkstra::lemma_all_visible;
use crate::algorithms::paths::out_of_reach;
use crate::algorithms::stop::{SearchEnd, asked};
use std::sync::atomic::AtomicBool;

verus! {

/// Guided search from one source: like uniform-cost search, but the heap
/// ranks a node by its length from the source plus an estimate of what is
/// left to the destination.
pub struct AStar {
    adj_ref: AdjacencyArray,
    core: SearchCore,
}

/// Estimates that a guided search can take: one for each of `n` nodes, none
/// above [`MAX_ESTIMATE`].
pub open spec fn usable_estimates(h: Seq<u64>, n: int) -> bool {
    h.len() == n && forall|i: int| 0 <= i < h.len() ==> h[i] <= MAX_ESTIMATE
}

/// Decides [`usable_estimates`].
pub fn are_usable(estimates: &Vec<u64>, n: usize) -> (ok: bool)
    ensures
        ok == usable_estimates(estimates@, n as int),
{
    if estimates.len() != n {
        return false;
    }
    let mut i: usize = 0;
    while i < estimates.len()
        invariant
            i <= estimates@.len(),
            forall|j: int| 0 <= j < i ==> estimates@[j] <= MAX_ESTIMATE,
        decreases estimates@.len() - i,
    {
        if estimates[i] > MAX_ESTIMATE {
            return false;
        }
        i += 1;
    }
    true
}

/// Decides whether `estimates` are consistent for `graph`: along no edge
/// does the estimate drop by more than the length of the edge.
pub fn are_consistent(graph: &GridGraph, estimates: &Vec<u64>) -> (ok: bool)
    requires
        graph.wf(),
        estimates@.len() == graph.node_count(),
    ensures
        ok == consistent(graph.arcs(), estimates@),
{
    let n: usize = graph.edges.len();
    let mut u: usize = 0;
    while u < n
        invariant
            graph.wf(),
            n == graph.edges@.len(),
            estimates@.len() == n,
            u <= n,
            forall|a: Arc| #[trigger] graph.arcs().contains(a) && a.0 < u ==> estimates@[a.0] <= a.2 + estimates@[a.1],
        decreases n - u,
    {
        let list = &graph.edges[u];
        let mut k: usize = 0;
        while k < list.len()
            invariant
                graph.wf(),
                n == graph.edges@.len(),
                estimates@.len() == n,
                u < n,
                list == graph.edges@[u as int],
                k <= list@.len(),
                forall|j: int|
                    0 <= j < k ==> estimates@[u as int] <= (#[trigger] graph.arc_of(u as int, j)).2 + estimates@[graph.arc_of(
                        u as int,
                        j,
                    ).1],
            decreases list@.len() - k,
        {
            let e = &list[k];
            proof {
                assert(graph.edges@[u as int]@[k as int].target < graph.node_count());
            }
            let here: u64 = estimates[u];
            let there: u64 = estimates[e.target as usize];
            if here > there && here - there > e.distance as u64 {
                proof {
                    let a = graph.arc_of(u as int, k as int);
                    assert(graph.arcs().contains(a));
                    assert(!(estimates@[a.0] <= a.2 + estimates@[a.1]));
                }
                return false;
            }
            k += 1;
        }
        proof {
            assert forall|a: Arc| #[trigger] graph.arcs().contains(a) && a.0 < u + 1 implies estimates@[a.0] <= a.2
                + estimates@[a.1] by {
                if a.0 == u {
                    let j = choose|j: int| 0 <= j < graph.edges@[a.0]@.len() && #[trigger] graph.arc_of(a.0, j) == a;
                    assert(estimates@[u as int] <= graph.arc_of(u as int, j).2 + estimates@[graph.arc_of(u as int, j).1]);
                }
            }
        }
        u += 1;
    }
    true
}

impl AStar {
    /// The engine is in a state that its methods keep.
    pub closed spec fn wf(&self) -> bool {
        &&& self.adj_ref.wf()
        &&& self.adj_ref.node_count() == self.core.n()
        &&& self.core.inv(self.adj_ref.arcs())
    }

    /// The arcs of the graph that is searched.
    pub closed spec fn arcs(&self) -> Set<Arc> {
        self.adj_ref.arcs()
    }

    /// Number of nodes of the graph that is searched.
    pub closed spec fn node_count(&self) -> int {
        self.adj_ref.node_count()
    }

    /// The node the search starts from.
    pub closed spec fn source(&self) -> int {
        self.core.source_node as int
    }

    /// How many items were taken from the heap so far (the count stops at
    /// `u32::MAX`).
    pub closed spec fn nodes_popped(&self) -> int {
        self.core.amount_nodes_popped as int
    }

    /// The search has not begun.
    pub closed spec fn fresh(&self) -> bool {
        self.core.fresh()
    }

    /// The estimates that the search ran with so far.
    pub closed spec fn estimates(&self) -> Seq<u64> {
        self.core.potentials@
    }

    /// The lengths that the search reports are shortest lengths: it has
    /// run with one set of estimates only, and they are consistent.
    pub closed spec fn exact(&self) -> bool {
        self.core.tight@
    }

    /// An engine over the compact view of `grid_graph`, about to search
    /// from `source_node`.
    pub fn new(grid_graph: &GridGraph, source_node: u32) -> (a: AStar)
        requires
            grid_graph.wf(),
            source_node < grid_graph.node_count(),
        ensures
            a.wf(),
            a.arcs() == grid_graph.arcs(),
            a.node_count() == grid_graph.node_count(),
            a.source() == source_node,
            a.nodes_popped() == 0,
            a.fresh(),
    {
        let adj = grid_graph.adjacency_array();
        let number_of_nodes: usize = adj.get_nodes_count() as usize;
        let ghost zeros = Seq::new(number_of_nodes as nat, |i: int| 0u64);
        proof {
            adj.lemma_arcs_within();
        }
        let core = SearchCore::new(number_of_nodes, source_node, Ghost(adj.arcs()), Ghost(zeros));
        AStar { adj_ref: adj, core }
    }

    /// Searches for `destination_node`, guided by `heuristic`, which holds
    /// for every node an estimate of its distance to the destination, and
    /// reports the way found: its nodes from the source on, its length, and
    /// the count of items taken from the heap so far.
    ///
    /// With consistent estimates, on an engine that has run with no others,
    /// the way is a shortest one, and `None` says that no way is shorter
    /// than `u32::MAX`. With other estimates the length reported is still
    /// that of a way, but the way listed can be shorter than reported.
    pub fn find_route(&mut self, destination_node: u32, heuristic: &Vec<u64>) -> (r: Option<(Vec<u32>, u32, u32)>)
        requires
            old(self).wf(),
            destination_node < old(self).node_count(),
            usable_estimates(heuristic@, old(self).node_count()),
        ensures
            final(self).wf(),
            final(self).arcs() == old(self).arcs(),
            final(self).node_count() == old(self).node_count(),
            final(self).source() == old(self).source(),
            old(self).nodes_popped() <= final(self).nodes_popped(),
            !final(self).fresh(),
            final(self).exact() == (consistent(old(self).arcs(), heuristic@) && (old(self).fresh() || (old(self).exact() && old(self).estimates() == heuristic@))),
            final(self).exact() ==> final(self).estimates() == heuristic@,
            final(self).exact() ==> is_search_result(
                old(self).arcs(),
                old(self).source(),
                destination_node as int,
                crate::algorithms::paths::reported_length(r),
            ),
            r matches Some((route, distance, popped)) ==> distance < u32::MAX && popped == final(self).nodes_popped(),
            r matches Some((route, distance, popped)) ==> is_reported_route_within(
                old(self).arcs(),
                old(self).source(),
                destination_node as int,
                route@,
                distance as nat,
            ),
            r matches Some((route, distance, popped)) ==> (final(self).exact() ==> is_reported_route(
                old(self).arcs(),
                old(self).source(),
                destination_node as int,
                route@,
                distance as nat,
            )),
    {
        match self.run(destination_node, heuristic, None) {
            SearchEnd::Route(route, distance, popped) => Some((route, distance, popped)),
            _ => None,
        }
    }

    /// Searches for `destination_node` as [`AStar::find_route`] does, but
    /// looks at `token` before it takes an item from the heap, and ends the
    /// search where the token asks for it. What was found up to then is
    /// kept.
    pub fn find_route_unless(&mut self, destination_node: u32, heuristic: &Vec<u64>, token: &AtomicBool) -> (end:
        SearchEnd)
        requires
            old(self).wf(),
            destination_node < old(self).node_count(),
            usable_estimates(heuristic@, old(self).node_count()),
        ensures
            final(self).wf(),
            final(self).arcs() == old(self).arcs(),
            final(self).node_count() == old(self).node_count(),
            final(self).source() == old(self).source(),
            old(self).nodes_popped() <= final(self).nodes_popped(),
            end is Stopped || !final(self).fresh(),
            final(self).exact() == (consistent(old(self).arcs(), heuristic@) && (old(self).fresh() || (old(self).exact() && old(self).estimates() == heuristic@))),
            final(self).exact() ==> final(self).estimates() == heuristic@,
            match end {
                SearchEnd::Stopped(popped) => popped == final(self).nodes_popped(),
                SearchEnd::NoRoute(popped) => popped == final(self).nodes_popped() && (final(self).exact()
                    ==> out_of_reach(old(self).arcs(), old(self).source(), destination_node as int)),
                SearchEnd::Route(route, distance, popped) => {
                    &&& distance < u32::MAX
                    &&& popped == final(self).nodes_popped()
                    &&& is_reported_route_within(
                        old(self).arcs(),
                        old(self).source(),
                        destination_node as int,
                        route@,
                        distance as nat,
                    )
                    &&& final(self).exact() ==> is_shortest(
                        old(self).arcs(),
                        old(self).source(),
                        destination_node as int,
                        distance as nat,
                    ) && is_reported_route(
                        old(self).arcs(),
                        old(self).source(),
                        destination_node as int,
                        route@,
                        distance as nat,
                    )
                },
            },
    {
        self.run(destination_node, heuristic, Some(token))
    }

    /// The search for `destination_node`, which `token` can end.
    fn run(&mut self, destination_node: u32, heuristic: &Vec<u64>, token: Option<&AtomicBool>) -> (end: SearchEnd)
        requires
            old(self).wf(),
            destination_node < old(self).node_count(),
            usable_estimates(heuristic@, old(self).node_count()),
        ensures
            final(self).wf(),
            final(self).arcs() == old(self).arcs(),
            final(self).node_count() == old(self).node_count(),
            final(self).source() == old(self).source(),
            old(self).nodes_popped() <= final(self).nodes_popped(),
            end is Stopped || !final(self).fresh(),
            final(self).exact() == (consistent(old(self).arcs(), heuristic@) && (old(self).fresh() || (old(self).exact() && old(self).estimates() == heuristic@))),
            final(self).exact() ==> final(self).estimates() == heuristic@,
            token is None ==> !(end is Stopped),
            match end {
                SearchEnd::Stopped(popped) => popped == final(self).nodes_popped(),
                SearchEnd::NoRoute(popped) => popped == final(self).nodes_popped() && (final(self).exact()
                    ==> out_of_reach(old(self).arcs(), old(self).source(), destination_node as int)),
                SearchEnd::Route(route, distance, popped) => {
                    &&& distance < u32::MAX
                    &&& popped == final(self).nodes_popped()
                    &&& is_reported_route_within(
                        old(self).arcs(),
                        old(self).source(),
                        destination_node as int,
                        route@,
                        distance as nat,
                    )
                    &&& final(self).exact() ==> is_shortest(
                        old(self).arcs(),
                        old(self).source(),
                        destination_node as int,
                        distance as nat,
                    ) && is_reported_route(
                        old(self).arcs(),
                        old(self).source(),
                        destination_node as int,
                        route@,
                        distance as nat,
                    )
                },
            },
    {
        let ghost arcs = self.adj_ref.arcs();
        let ghost before = self.core;
        proof {
            lemma_shape(&before, arcs);
            if self.core.fresh() {
                self.core.potentials@ = heuristic@;
                self.core.tight@ = consistent(arcs, heuristic@);
                lemma_retarget(&before, &self.core, arcs);
            } else if !(self.core.tight@ && self.core.potentials@ == heuristic@ && consistent(arcs, heuristic@)) {
                self.core.tight@ = false;
                lemma_loosen(&before, &self.core, arcs);
            }
        }
        if self.a_star(destination_node, heuristic, token) {
            return SearchEnd::Stopped(self.core.amount_nodes_popped);
        }
        proof {
            lemma_shape(&self.core, arcs);
        }
        if self.core.distances[destination_node as usize] != u32::MAX {
            let route = self.traverse_route(destination_node);
            let distance: u32 = self.core.distances[destination_node as usize];
            SearchEnd::Route(route, distance, self.core.amount_nodes_popped)
        } else {
            proof {
                if self.core.tight@ {
                    lemma_exhausted(&self.core, arcs, destination_node as int);
                }
            }
            SearchEnd::NoRoute(self.core.amount_nodes_popped)
        }
    }

    /// Runs the search until `destination_node` gets its label, the heap is
    /// empty, or `token` asks for a stop: `true` where it did.
    fn a_star(&mut self, destination_node: u32, heuristic: &Vec<u64>, token: Option<&AtomicBool>) -> (stopped: bool)
        requires
            old(self).wf(),
            destination_node < old(self).node_count(),
            usable_estimates(heuristic@, old(self).node_count()),
            old(self).core.tight@ ==> old(self).core.potentials@ == heuristic@,
            !old(self).core.fresh() || old(self).core.heap@.len() > 0,
        ensures
            final(self).wf(),
            final(self).adj_ref == old(self).adj_ref,
            final(self).core.source_node == old(self).core.source_node,
            final(self).core.tight@ == old(self).core.tight@,
            final(self).core.potentials@ == old(self).core.potentials@,
            old(self).nodes_popped() <= final(self).nodes_popped(),
            stopped || !final(self).core.fresh(),
            stopped || final(self).core.settled(destination_node as int) || final(self).core.heap@.len() == 0,
            token is None ==> !stopped,
    {
        proof {
            lemma_all_visible(&self.adj_ref);
        }
        let mut stopped = false;
        loop
            invariant_except_break
                !stopped,
            invariant
                self.wf(),
                self.adj_ref == old(self).adj_ref,
                self.core.source_node == old(self).core.source_node,
                self.core.tight@ == old(self).core.tight@,
                self.core.potentials@ == old(self).core.potentials@,
                old(self).nodes_popped() <= self.nodes_popped(),
                visible_arcs(&self.adj_ref, Set::empty()) == self.adj_ref.arcs(),
                usable_estimates(heuristic@, self.core.n()),
                self.core.tight@ ==> self.core.potentials@ == heuristic@,
            ensures
                self.wf(),
                self.adj_ref == old(self).adj_ref,
                self.core.source_node == old(self).core.source_node,
                self.core.tight@ == old(self).core.tight@,
                self.core.potentials@ == old(self).core.potentials@,
                old(self).nodes_popped() <= self.nodes_popped(),
                !self.core.fresh() || stopped,
                stopped || self.core.settled(destination_node as int) || self.core.heap@.len() == 0,
                token is None ==> !stopped,
            decreases self.core.weight(), self.core.heap@.len(),
        {
            if asked(token) {
                stopped = true;
                break ;
            }
            match self.core.step(&self.adj_ref, None, Some(heuristic), true) {
                Popped::Empty => {
                    proof {
                        lemma_shape(&self.core, self.adj_ref.arcs());
                    }
                    break ;
                },
                Popped::Stale => {},
                Popped::Settled(node_id) => {
                    proof {
                        crate::algorithms::search_core::lemma_tree(&self.core, self.adj_ref.arcs(), node_id as int);
                    }
                    if destination_node == node_id {
                        break ;
                    }
                },
            }
        }
        stopped
    }

    /// The way to the labelled node `destination_node`.
    fn traverse_route(&self, destination_node: u32) -> (route: Vec<u32>)
        requires
            self.wf(),
            self.core.settled(destination_node as int),
        ensures
            is_reported_route_within(
                self.arcs(),
                self.source(),
                destination_node as int,
                route@,
                self.core.dist(destination_node as int),
            ),
            self.exact() ==> is_reported_route(
                self.arcs(),
                self.source(),
                destination_node as int,
                route@,
                self.core.dist(destination_node as int),
            ) && is_shortest(self.arcs(), self.source(), destination_node as int, self.core.dist(destination_node as int)),
    {
        let ghost arcs = self.adj_ref.arcs();
        let route = self.core.route_to(destination_node, Ghost(arcs));
        proof {
            let t = destination_node as int;
            if t != self.core.src() {
                let len = choose|len: nat| len <= self.core.dist(t) && is_route(arcs, ids(route@), len);
                assert(len <= self.core.dist(t) && is_reported_route(self.arcs(), self.source(), t, route@, len));
                if self.core.tight@ {
                    lemma_label_shortest(&self.core, arcs, t);
                    lemma_route_reaches(arcs, ids(route@), len);
                }
            } else {
                assert(0 <= self.core.dist(t) && is_reported_route(self.arcs(), self.source(), t, route@, 0));
                if self.core.tight@ {
                    lemma_label_shortest(&self.core, arcs, t);
                    crate::algorithms::paths::lemma_reaches_self(arcs, t);
                }
            }
        }
        route
    }
}

} // verus!
