use vstd::prelude::*;
use crate::model::adjacency_array::{AdjacencyArray, Arc};
use crate::model::grid_graph::GridGraph;
use crate::algorithms::paths::{is_route, is_route_within, both_ways, flipped, turned, ids, lemma_route_turned,
    lemma_route_mono, lemma_route_join, undirected, reaches, reaches_in, reported_length, lemma_route_reaches,
    lemma_undirected_both_ways, is_search_result, is_reported_route, lemma_least_length, lemma_reaches_route,
    lemma_reaches_self};
use crate::algorithms::frontier::{Frontier, met_ok, joint, mu_real, stopped, in_turn, lowest, lemma_not_begun,
    lemma_stop_is_shortest};
use crate::model::heap_item::HeapItem;
use crate::model::min_heap::HeapKey;
use crate::algorithms::search_core::reversed;

use crate::algorithms::stop::{SearchEnd, asked};
use std::sync::atomic::AtomicBool;

verus! {

/// Bidirectional search: one search forward from the source and one
/// backward from the destination, each over the arcs that leave a node, and
/// the best meeting of the two.
pub struct BdDijkstra<'a> {
    graph_ref: &'a GridGraph,
    forward: Frontier,
    backward: Frontier,
    source_node: u32,
    mu: u32,
    meeting_node: u32,
}

/// The way from `source` to `destination` over the node `meeting`, from
/// the two chains that lead from the meeting back to the roots of the two
/// searches.
pub fn join_chains(towards_source: &Vec<u32>, towards_destination: &Vec<u32>) -> (route: Vec<u32>)
    requires
        towards_source@.len() >= 1,
        towards_destination@.len() >= 1,
        towards_source@[0] == towards_destination@[0],
    ensures
        ids(route@) == turned(ids(towards_source@)) + ids(towards_destination@).subrange(
            1,
            towards_destination@.len() as int,
        ),
        route@.len() == towards_source@.len() + towards_destination@.len() - 1,
        route@[0] == towards_source@.last(),
        route@.last() == towards_destination@.last(),
{
    let mut route = reversed(towards_source);
    let mut i: usize = 1;
    while i < towards_destination.len()
        invariant
            1 <= i <= towards_destination@.len(),
            towards_source@.len() >= 1,
            route@.len() == towards_source@.len() + i - 1,
            forall|j: int| 0 <= j < towards_source@.len() ==> route@[j] == towards_source@[towards_source@.len() - 1 - j],
            forall|j: int| 1 <= j < i ==> route@[towards_source@.len() + j - 1] == towards_destination@[j],
        decreases towards_destination@.len() - i,
    {
        route.push(towards_destination[i]);
        i += 1;
    }
    proof {
        assert(ids(route@) =~= turned(ids(towards_source@)) + ids(towards_destination@).subrange(
            1,
            towards_destination@.len() as int,
        ));
    }
    route
}

impl<'a> BdDijkstra<'a> {
    /// The engine is in a state that its methods accept.
    pub closed spec fn wf(&self) -> bool {
        &&& self.graph_ref.wf()
        &&& self.forward.n() == self.graph_ref.node_count()
        &&& self.backward.n() == self.graph_ref.node_count()
        &&& self.source_node < self.graph_ref.node_count()
    }

    /// The engine has not searched yet.
    pub closed spec fn fresh(&self) -> bool {
        self.forward.blank() && self.backward.blank()
    }

    /// The arcs of the graph that is searched.
    pub closed spec fn arcs(&self) -> Set<Arc> {
        self.graph_ref.arcs()
    }

    /// Number of nodes of the graph that is searched.
    pub closed spec fn node_count(&self) -> int {
        self.graph_ref.node_count()
    }

    /// The node the search starts from.
    pub closed spec fn source(&self) -> int {
        self.source_node as int
    }

    /// Length of the best way found so far over a node that both searches
    /// have reached; `u32::MAX` while there is none.
    pub closed spec fn best(&self) -> u32 {
        self.mu
    }

    /// The node over which the best way found so far leads; `u32::MAX`
    /// while there is none.
    pub closed spec fn meeting(&self) -> u32 {
        self.meeting_node
    }

    /// Items taken from the two heaps so far.
    pub closed spec fn nodes_popped(&self) -> int {
        self.forward.popped + self.backward.popped
    }

    /// An engine over `graph`, about to search from `source_node`.
    pub fn new(graph: &'a GridGraph, source_node: u32) -> (b: BdDijkstra<'a>)
        requires
            graph.wf(),
            source_node < graph.node_count(),
        ensures
            b.wf(),
            b.fresh(),
            b.arcs() == graph.arcs(),
            b.node_count() == graph.node_count(),
            b.source() == source_node,
            b.best() == u32::MAX,
            b.meeting() == u32::MAX,
    {
        let number_of_nodes: usize = graph.edges.len();
        BdDijkstra {
            graph_ref: graph,
            forward: Frontier::new(number_of_nodes),
            backward: Frontier::new(number_of_nodes),
            source_node,
            mu: u32::MAX,
            meeting_node: u32::MAX,
        }
    }

    /// The best meeting found: the node, and the length of the way over it.
    pub fn best_meeting(&self) -> (r: (u32, u32))
        ensures
            r.0 == self.meeting(),
            r.1 == self.best(),
    {
        (self.meeting_node, self.mu)
    }

    /// Searches from both ends for a way from the source to
    /// `destination_node` and reports the way over the best meeting of the
    /// two searches: its nodes from the source on, the sum of the labels
    /// that the two searches have given the meeting node, and the count of
    /// items taken from the two heaps, which stops at `u32::MAX`. `None`
    /// when the searches did not meet. A node is its own destination over
    /// the way of that one node.
    ///
    /// The backward search follows the arcs that leave a node, as the
    /// forward search does: the way reported is one over the arcs taken in
    /// both directions, and no longer than the length reported. Over arcs
    /// that have their reverses it is a shortest way, of the length
    /// reported.
    pub fn find_route(&mut self, destination_node: u32) -> (r: Option<(Vec<u32>, u32, u32)>)
        requires
            old(self).wf(),
            destination_node < old(self).node_count(),
        ensures
            final(self).wf(),
            final(self).arcs() == old(self).arcs(),
            final(self).node_count() == old(self).node_count(),
            final(self).source() == old(self).source(),
            final(self).meeting() == u32::MAX <==> final(self).best() == u32::MAX,
            r is None <==> final(self).meeting() == u32::MAX,
            undirected(old(self).arcs()) ==> is_search_result(
                old(self).arcs(),
                old(self).source(),
                destination_node as int,
                reported_length(r),
            ),
            r matches Some((route, distance, popped)) ==> {
                &&& distance <= final(self).best()
                &&& final(self).best() < u32::MAX
                &&& route@.len() >= 1
                &&& route@[0] == old(self).source()
                &&& route@.last() == destination_node
                &&& route@.contains(final(self).meeting())
                &&& is_route_within(both_ways(old(self).arcs()), ids(route@), distance as nat)
                &&& undirected(old(self).arcs()) ==> is_reported_route(
                    old(self).arcs(),
                    old(self).source(),
                    destination_node as int,
                    route@,
                    distance as nat,
                )
                &&& popped == (if final(self).nodes_popped() < u32::MAX {
                final(self).nodes_popped()
            } else {
                u32::MAX as int
            })
            },
    {
        self.run(destination_node, None).0
    }

    /// Searches for `destination_node` as [`BdDijkstra::find_route`] does, but
    /// looks at `token` before every step, and ends the search where the
    /// token asks for it. Unless it was stopped, the search ends with what
    /// [`BdDijkstra::find_route`] reports.
    pub fn find_route_unless(&mut self, destination_node: u32, token: &AtomicBool) -> (end: SearchEnd)
        requires
            old(self).wf(),
            destination_node < old(self).node_count(),
        ensures
            final(self).wf(),
            final(self).arcs() == old(self).arcs(),
            final(self).node_count() == old(self).node_count(),
            final(self).source() == old(self).source(),
            end.taken() == (if final(self).nodes_popped() < u32::MAX {
                final(self).nodes_popped()
            } else {
                u32::MAX as int
            }),
            end is Stopped || (final(self).meeting() == u32::MAX <==> final(self).best() == u32::MAX),
            end is Stopped || (end.found() is None <==> final(self).meeting() == u32::MAX),
            end is Stopped || (undirected(old(self).arcs()) ==> is_search_result(
                old(self).arcs(),
                old(self).source(),
                destination_node as int,
                reported_length(end.found()),
            )),
            end is Stopped || (end.found() matches Some((route, distance, popped)) ==> {
                &&& distance <= final(self).best()
                &&& final(self).best() < u32::MAX
                &&& route@.len() >= 1
                &&& route@[0] == old(self).source()
                &&& route@.last() == destination_node
                &&& route@.contains(final(self).meeting())
                &&& is_route_within(both_ways(old(self).arcs()), ids(route@), distance as nat)
                &&& undirected(old(self).arcs()) ==> is_reported_route(
                    old(self).arcs(),
                    old(self).source(),
                    destination_node as int,
                    route@,
                    distance as nat,
                )
                &&& popped == (if final(self).nodes_popped() < u32::MAX {
                final(self).nodes_popped()
            } else {
                u32::MAX as int
            })
            }),
    {
        let (r, halted) = self.run(destination_node, Some(token));
        let taken: u32 = self.taken();
        if halted {
            return SearchEnd::Stopped(taken);
        }
        match r {
            Some((route, distance, popped)) => SearchEnd::Route(route, distance, popped),
            None => SearchEnd::NoRoute(taken),
        }
    }

    /// The count of items taken from the two heaps, which stops at
    /// `u32::MAX`.
    fn taken(&self) -> (count: u32)
        ensures
            count == (if self.nodes_popped() < u32::MAX {
                self.nodes_popped()
            } else {
                u32::MAX as int
            }),
    {
        let total: u128 = self.forward.popped as u128 + self.backward.popped as u128;
        if total < u32::MAX as u128 {
            total as u32
        } else {
            u32::MAX
        }
    }

    /// The search for `destination_node`, which `token` can end: what it
    /// reports, and `true` where the token ended it.
    fn run(&mut self, destination_node: u32, token: Option<&AtomicBool>) -> (out: (Option<(Vec<u32>, u32, u32)>, bool))
        requires
            old(self).wf(),
            destination_node < old(self).node_count(),
        ensures
            final(self).wf(),
            final(self).arcs() == old(self).arcs(),
            final(self).node_count() == old(self).node_count(),
            final(self).source() == old(self).source(),
            token is None ==> !out.1,
            out.1 ==> out.0 is None,
            !out.1 ==> (final(self).meeting() == u32::MAX <==> final(self).best() == u32::MAX),
            !out.1 ==> (out.0 is None <==> final(self).meeting() == u32::MAX),
            !out.1 ==> (undirected(old(self).arcs()) ==> is_search_result(
                old(self).arcs(),
                old(self).source(),
                destination_node as int,
                reported_length(out.0),
            )),
            !out.1 ==> (out.0 matches Some((route, distance, popped)) ==> {
                &&& distance <= final(self).best()
                &&& final(self).best() < u32::MAX
                &&& route@.len() >= 1
                &&& route@[0] == old(self).source()
                &&& route@.last() == destination_node
                &&& route@.contains(final(self).meeting())
                &&& is_route_within(both_ways(old(self).arcs()), ids(route@), distance as nat)
                &&& undirected(old(self).arcs()) ==> is_reported_route(
                    old(self).arcs(),
                    old(self).source(),
                    destination_node as int,
                    route@,
                    distance as nat,
                )
                &&& popped == (if final(self).nodes_popped() < u32::MAX {
                final(self).nodes_popped()
            } else {
                u32::MAX as int
            })
            }),
    {
        let ghost arcs = self.graph_ref.arcs();
        let ghost s = self.source_node as int;
        let ghost t = destination_node as int;
        if destination_node == self.source_node {
            self.mu = 0;
            self.meeting_node = destination_node;
            let mut only: Vec<u32> = Vec::new();
            only.push(destination_node);
            let popped: u32 = self.taken();
            proof {
                lemma_reaches_self(arcs, s);
                assert(ids(only@) =~= seq![s]);
                assert(is_route(both_ways(arcs), ids(only@), 0));
                assert(only@[0] == destination_node);
            }
            return (Some((only, 0, popped)), false);
        }
        let number_of_nodes: usize = self.graph_ref.edges.len();
        self.forward = Frontier::new(number_of_nodes);
        self.backward = Frontier::new(number_of_nodes);
        let (meeting_node, halted) = self.bd_dijkstra(self.source_node, destination_node, token);
        if halted {
            return (None, true);
        }
        if meeting_node == u32::MAX {
            proof {
                if undirected(arcs) {
                    assert forall|x: nat| reaches(arcs, s, t, x) implies x >= u32::MAX by {
                        if x < u32::MAX {
                            let d = lemma_least_length(arcs, s, t, x);
                            let k = choose|k: nat| reaches_in(arcs, s, t, d, k);
                            let way = lemma_reaches_route(arcs, s, t, d, k);
                            lemma_stop_is_shortest(&self.forward, &self.backward, arcs, arcs, self.mu, self.meeting_node, way, d);
                        }
                    }
                }
            }
            return (None, false);
        }
        proof {
            assert(self.forward.labelled(s, meeting_node as int) && self.backward.labelled(t, meeting_node as int)) by {
                reveal(Frontier::inv);
            }
        }
        let towards_source = self.forward.chain(meeting_node, self.source_node, Ghost(arcs));
        let towards_destination = self.backward.chain(meeting_node, destination_node, Ghost(arcs));
        let route = join_chains(&towards_source, &towards_destination);
        let distance: u32 = self.forward.distances[meeting_node as usize] + self.backward.distances[meeting_node as usize];
        let popped: u32 = self.taken();
        proof {
            let m = meeting_node as int;
            let fwd = turned(ids(towards_source@));
            let bwd = ids(towards_destination@);
            let lf = choose|len: nat| len <= self.forward.dist(m) && is_route(arcs, fwd, len);
            let lb = choose|len: nat| len <= self.backward.dist(m) && is_route(arcs, turned(bwd), len);
            lemma_route_turned(arcs, turned(bwd), lb);
            assert(turned(turned(bwd)) =~= bwd);
            let both = both_ways(arcs);
            assert(arcs.subset_of(both));
            assert(flipped(arcs).subset_of(both));
            lemma_route_mono(arcs, both, fwd, lf);
            lemma_route_mono(flipped(arcs), both, bwd, lb);
            lemma_route_join(both, fwd, lf, bwd, lb);
            assert(lf + lb <= distance && is_route(both, ids(route@), lf + lb));
            let k = towards_source@.len() - 1;
            assert(ids(route@)[k] == fwd[k]);
            assert(fwd[k] == ids(towards_source@)[0]);
            assert(ids(route@)[k] == route@[k] as int);
            assert(route@[k] == meeting_node);
            if undirected(arcs) {
                lemma_undirected_both_ways(arcs);
                let found = (lf + lb) as nat;
                lemma_route_reaches(arcs, ids(route@), found);
                let d = lemma_least_length(arcs, s, t, found);
                let steps = choose|steps: nat| reaches_in(arcs, s, t, d, steps);
                let way = lemma_reaches_route(arcs, s, t, d, steps);
                lemma_stop_is_shortest(&self.forward, &self.backward, arcs, arcs, self.mu, self.meeting_node, way, d);
                assert(found == distance && distance == d);
            }
        }
        (Some((route, distance, popped)), false)
    }

    /// Runs the two searches in turn, the one with fewer items on its heap
    /// and taken from it first, until the two lowest ranks on the heaps add
    /// up to no less than the best meeting, a heap is empty, or `token` asks
    /// for a stop. Hands back the meeting node, `u32::MAX` if there is none,
    /// and `true` where the token ended the search.
    fn bd_dijkstra(&mut self, source_node: u32, destination_node: u32, token: Option<&AtomicBool>) -> (out: (
        u32,
        bool,
    ))
        requires
            old(self).wf(),
            old(self).fresh(),
            source_node == old(self).source_node,
            destination_node < old(self).node_count(),
            source_node != destination_node,
        ensures
            final(self).wf(),
            final(self).graph_ref == old(self).graph_ref,
            final(self).source_node == old(self).source_node,
            out.0 == final(self).meeting_node,
            token is None ==> !out.1,
            final(self).forward.inv(final(self).graph_ref.arcs(), source_node as int),
            final(self).backward.inv(final(self).graph_ref.arcs(), destination_node as int),
            final(self).forward.inv_exact(final(self).graph_ref.arcs(), source_node as int, Set::empty()),
            final(self).backward.inv_exact(final(self).graph_ref.arcs(), destination_node as int, Set::empty()),
            met_ok(&final(self).forward, &final(self).backward, final(self).mu, final(self).meeting_node),
            joint(&final(self).forward, &final(self).backward, final(self).mu),
            undirected(final(self).graph_ref.arcs()) ==> mu_real(
                final(self).graph_ref.arcs(),
                source_node as int,
                destination_node as int,
                final(self).mu,
            ),
            out.1 || stopped(&final(self).forward, &final(self).backward, final(self).mu),
            out.1 || in_turn(&final(self).forward, &final(self).backward),
    {
        let adj_array = self.graph_ref.adjacency_array();
        let ghost arcs = self.graph_ref.arcs();
        self.meeting_node = u32::MAX;
        self.mu = u32::MAX;
        proof {
            adj_array.lemma_arcs_within();
        }
        self.backward.start(destination_node, Ghost(arcs));
        self.forward.start(source_node, Ghost(arcs));
        proof {
            self.forward.lemma_shape(arcs, source_node as int);
            assert(joint(&self.forward, &self.backward, self.mu)) by {
                reveal(Frontier::inv);
            }
        }
        loop
            invariant
                self.wf(),
                self.graph_ref == old(self).graph_ref,
                self.source_node == old(self).source_node,
                adj_array.wf(),
                adj_array.node_count() == self.graph_ref.node_count(),
                adj_array.arcs() == arcs,
                arcs == self.graph_ref.arcs(),
                self.forward.inv(arcs, source_node as int),
                self.backward.inv(arcs, destination_node as int),
                self.forward.inv_exact(arcs, source_node as int, Set::empty()),
                self.backward.inv_exact(arcs, destination_node as int, Set::empty()),
                met_ok(&self.forward, &self.backward, self.mu, self.meeting_node),
                joint(&self.forward, &self.backward, self.mu),
                undirected(arcs) ==> mu_real(arcs, source_node as int, destination_node as int, self.mu),
                self.backward.popped == 0 ==> self.forward.popped == 0 && self.mu == u32::MAX,
                self.forward.popped == 0 ==> self.backward.popped <= 1 && self.forward.heap@.len() == 1,
                self.backward.popped == 0 ==> self.backward.heap@.len() == 1,
                !self.forward.blank(),
            decreases self.forward.weight() + self.backward.weight(), self.forward.heap@.len() + self.backward.heap@.len(),
        {
            proof {
                self.forward.lemma_shape(arcs, source_node as int);
                self.backward.lemma_shape(arcs, destination_node as int);
            }
            proof {
                if self.forward.popped == 0 {
                    lemma_not_begun(&self.forward, arcs, source_node as int);
                }
                if self.backward.popped == 0 {
                    lemma_not_begun(&self.backward, arcs, destination_node as int);
                }
            }
            if asked(token) {
                return (self.meeting_node, true);
            }
            let forward_top: HeapItem = match self.forward.heap.peek() {
                Some(item) => *item,
                None => {
                    return (self.meeting_node, false);
                },
            };
            let backward_top: HeapItem = match self.backward.heap.peek() {
                Some(item) => *item,
                None => {
                    return (self.meeting_node, false);
                },
            };
            let curr_mu: u64 = forward_top.distance as u64 + backward_top.distance as u64;
            if curr_mu >= self.mu as u64 {
                proof {
                    assert forall|it: HeapItem| #[trigger] self.forward.heap@.contains(it) implies forward_top.distance
                        <= it.distance by {
                        assert(forward_top.key() <= it.key());
                    }
                    assert forall|it: HeapItem| #[trigger] self.backward.heap@.contains(it) implies backward_top.distance
                        <= it.distance by {
                        assert(backward_top.key() <= it.key());
                    }
                    assert(lowest(&self.forward, forward_top.distance));
                    assert(lowest(&self.backward, backward_top.distance));
                }
                return (self.meeting_node, false);
            }
            let touched_forward: u128 = self.forward.heap.len() as u128 + self.forward.popped as u128;
            let touched_backward: u128 = self.backward.heap.len() as u128 + self.backward.popped as u128;
            if touched_forward < touched_backward {
                self.expand_forward(&adj_array, Ghost(source_node as int), Ghost(destination_node as int));
            } else {
                self.expand_backward(&adj_array, Ghost(source_node as int), Ghost(destination_node as int));
            }
        }
    }

    /// One step of the forward search.
    fn expand_forward(&mut self, adj_array: &AdjacencyArray, Ghost(source): Ghost<int>, Ghost(destination): Ghost<int>)
        requires
            adj_array.wf(),
            adj_array.node_count() == old(self).forward.n(),
            old(self).backward.n() == old(self).forward.n(),
            old(self).forward.inv(adj_array.arcs(), source),
            old(self).backward.inv(adj_array.arcs(), destination),
            old(self).forward.inv_exact(adj_array.arcs(), source, Set::empty()),
            old(self).backward.inv_exact(adj_array.arcs(), destination, Set::empty()),
            met_ok(&old(self).forward, &old(self).backward, old(self).mu, old(self).meeting_node),
            joint(&old(self).forward, &old(self).backward, old(self).mu),
            undirected(adj_array.arcs()) ==> mu_real(adj_array.arcs(), source, destination, old(self).mu),
            old(self).forward.heap@.len() > 0,
        ensures
            final(self).graph_ref == old(self).graph_ref,
            final(self).source_node == old(self).source_node,
            final(self).backward == old(self).backward,
            final(self).forward.n() == old(self).forward.n(),
            final(self).forward.inv(adj_array.arcs(), source),
            final(self).forward.inv_exact(adj_array.arcs(), source, Set::empty()),
            met_ok(&final(self).forward, &final(self).backward, final(self).mu, final(self).meeting_node),
            joint(&final(self).forward, &final(self).backward, final(self).mu),
            undirected(adj_array.arcs()) ==> mu_real(adj_array.arcs(), source, destination, final(self).mu),
            final(self).mu <= old(self).mu,
            final(self).forward.popped >= 1,
            final(self).forward.weight() < old(self).forward.weight() || (final(self).forward.weight() == old(self).forward.weight() && final(self).forward.heap@.len() + 1 == old(self).forward.heap@.len()),
            !final(self).forward.blank(),
    {
        self.forward.expand(
            adj_array,
            &self.backward,
            &mut self.mu,
            &mut self.meeting_node,
            Ghost(source),
            Ghost(destination),
        );
        proof {
            self.forward.lemma_shape(adj_array.arcs(), source);
        }
    }

    /// One step of the backward search.
    fn expand_backward(&mut self, adj_array: &AdjacencyArray, Ghost(source): Ghost<int>, Ghost(destination): Ghost<int>)
        requires
            adj_array.wf(),
            adj_array.node_count() == old(self).forward.n(),
            old(self).backward.n() == old(self).forward.n(),
            old(self).forward.inv(adj_array.arcs(), source),
            old(self).backward.inv(adj_array.arcs(), destination),
            old(self).forward.inv_exact(adj_array.arcs(), source, Set::empty()),
            old(self).backward.inv_exact(adj_array.arcs(), destination, Set::empty()),
            met_ok(&old(self).forward, &old(self).backward, old(self).mu, old(self).meeting_node),
            joint(&old(self).forward, &old(self).backward, old(self).mu),
            undirected(adj_array.arcs()) ==> mu_real(adj_array.arcs(), source, destination, old(self).mu),
            old(self).backward.heap@.len() > 0,
        ensures
            final(self).graph_ref == old(self).graph_ref,
            final(self).source_node == old(self).source_node,
            final(self).forward == old(self).forward,
            final(self).backward.n() == old(self).backward.n(),
            final(self).backward.inv(adj_array.arcs(), destination),
            final(self).backward.inv_exact(adj_array.arcs(), destination, Set::empty()),
            met_ok(&final(self).forward, &final(self).backward, final(self).mu, final(self).meeting_node),
            joint(&final(self).forward, &final(self).backward, final(self).mu),
            undirected(adj_array.arcs()) ==> mu_real(adj_array.arcs(), source, destination, final(self).mu),
            final(self).mu <= old(self).mu,
            final(self).backward.popped == (if old(self).backward.popped < usize::MAX {
                (old(self).backward.popped + 1) as usize
            } else {
                old(self).backward.popped
            }),
            final(self).backward.weight() < old(self).backward.weight() || (final(self).backward.weight() == old(self).backward.weight() && final(self).backward.heap@.len() + 1 == old(self).backward.heap@.len()),
    {
        proof {
            if undirected(adj_array.arcs()) && self.mu < u32::MAX {
                crate::algorithms::paths::lemma_reaches_turned(adj_array.arcs(), source, destination, self.mu as nat);
            }
        }
        self.backward.expand(
            adj_array,
            &self.forward,
            &mut self.mu,
            &mut self.meeting_node,
            Ghost(destination),
            Ghost(source),
        );
        proof {
            if undirected(adj_array.arcs()) && self.mu < u32::MAX {
                crate::algorithms::paths::lemma_reaches_turned(adj_array.arcs(), destination, source, self.mu as nat);
            }
        }
    }
}

} // verus!
