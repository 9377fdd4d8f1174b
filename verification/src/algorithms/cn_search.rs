use vstd::prelude::*;
use crate::model::adjacency_array::{AdjacencyArray, Arc};
use crate::model::cn_model::CNMetadata;
use crate::algorithms::paths::{is_route, both_ways, turned, ids, undirected, reaches, reaches_in, out_of_reach,
    reported_length, is_search_result, is_shortest, lemma_least_length, lemma_reaches_route, lemma_reaches_self,
    same_reach, is_route_within, flipped, lemma_route_turned, lemma_route_mono, lemma_route_join,
    lemma_undirected_both_ways};
use crate::algorithms::frontier::{lemma_met_is_real, Frontier, met_ok, joint, mu_real, stopped, in_turn, lowest, lemma_not_begun,
    lemma_stop_is_shortest};
use crate::model::heap_item::HeapItem;
use crate::model::min_heap::HeapKey;
use crate::algorithms::unwrap_shortcuts::{unwrap_shortcuts_within, unwrapped, unwrapped_upto, always_unwraps,
    ways_are_paths, is_node_path, adds_shortcuts, lemma_unwrap_shape, lemma_unwrap_is_plain_path, ways_are_routes,
    MAX_NESTING,
    none_shorter_than, plain_between, lemma_unwrap_length};
use crate::algorithms::search_core::reversed;
use crate::algorithms::cn_graph_creator::lemma_route_is_path;

use crate::algorithms::stop::{SearchEnd, asked};
use std::sync::atomic::AtomicBool;

verus! {

/// Bidirectional search over a contracted graph: the two searches run over
/// the graph that holds the shortcuts among its edges, and the way over
/// their best meeting is unwrapped into the ways that its shortcuts
/// replace.
pub struct CNBdDijkstra<'a> {
    meta: &'a CNMetadata,
    forward: Frontier,
    backward: Frontier,
    source_node: u32,
    destination_node: u32,
    mu: u32,
    meeting_node: u32,
}

/// The entries of `r`, last first.
pub open spec fn turned_nodes(r: Seq<u32>) -> Seq<u32> {
    Seq::new(r.len(), |i: int| r[r.len() - 1 - i])
}

/// `first` and `second` are the two ways that a bidirectional search from
/// `s` for `t` has found to the node `meeting`: `first` leads from `s` to
/// it and `second` from `t`, both over arcs, and together they are no
/// longer than `distance`.
pub open spec fn is_met_halves(
    arcs: Set<Arc>,
    s: int,
    t: int,
    meeting: u32,
    first: Seq<u32>,
    second: Seq<u32>,
    distance: nat,
) -> bool {
    &&& first.len() >= 1
    &&& first[0] == s
    &&& first.last() == meeting
    &&& second.len() >= 1
    &&& second[0] == t
    &&& second.last() == meeting
    &&& exists|l1: nat, l2: nat|
        #[trigger] is_route(arcs, ids(first), l1) && #[trigger] is_route(arcs, ids(second), l2) && l1 + l2
            <= distance
}

/// The way from `s` to `t` that the two unwrapped halves `a`, from `s` to
/// the meeting, and `b`, from `t` to the meeting, make: `a`, and then `b`
/// from the meeting back.
pub open spec fn joined_halves(a: Seq<u32>, b: Seq<u32>) -> Seq<u32> {
    a + turned_nodes(b).subrange(1, b.len() as int)
}

/// `route` is what the two ways that the search has found unwrap to,
/// joined at the meeting.
pub open spec fn is_unwrapped_meeting(
    arcs: Set<Arc>,
    shortcuts: Map<u32, Vec<crate::model::cn_model::Shortcut>>,
    depth: nat,
    s: int,
    t: int,
    meeting: u32,
    route: Seq<u32>,
    distance: nat,
) -> bool {
    exists|first: Seq<u32>, second: Seq<u32>| #[trigger]
        is_met_halves(arcs, s, t, meeting, first, second, distance) && unwrapped(first, shortcuts, depth) is Some
            && unwrapped(second, shortcuts, depth) is Some && route == joined_halves(
            unwrapped(first, shortcuts, depth).unwrap(),
            unwrapped(second, shortcuts, depth).unwrap(),
        )
}

/// Joining two paths over arcs that end in the same node, the second from
/// its end back, gives a path from the start of the one to the start of
/// the other, where the arcs have their reverses.
pub proof fn lemma_joined_path(plain: Set<Arc>, a: Seq<u32>, b: Seq<u32>)
    requires
        undirected(plain),
        is_node_path(plain, a),
        is_node_path(plain, b),
        a.len() >= 1,
        b.len() >= 1,
        a.last() == b.last(),
    ensures
        is_node_path(plain, joined_halves(a, b)),
        joined_halves(a, b)[0] == a[0],
        joined_halves(a, b).last() == b[0],
{
    let back = turned_nodes(b).subrange(1, b.len() as int);
    let route = a + back;
    assert forall|i: int| 0 <= i < route.len() - 1 implies crate::algorithms::unwrap_shortcuts::linked(
        plain,
        #[trigger] route[i] as int,
        route[i + 1] as int,
    ) by {
        if i + 1 < a.len() {
            assert(crate::algorithms::unwrap_shortcuts::linked(plain, a[i] as int, a[i + 1] as int));
        } else {
            let j = i + 1 - a.len();
            let x = b.len() - 2 - j;
            assert(route[i + 1] == b[x]);
            assert(route[i] == b[x + 1]);
            let from = b[x] as int;
            let to = b[x + 1] as int;
            assert(crate::algorithms::unwrap_shortcuts::linked(plain, from, to));
            let w = choose|w: nat| plain.contains((from, to, w));
            assert(plain.contains((to, from, w)));
        }
    }
    if b.len() >= 2 {
        assert(route.last() == back.last());
    }
}

/// The shortcuts stand for ways over the arcs `plain`, which have their
/// reverses: every way that a shortcut replaces is a route over `arcs` of
/// the length of the shortcut, no arc of `arcs` between the ends of a
/// shortcut is shorter than it, and every other arc of `arcs` is one of
/// `plain`.
pub open spec fn stands_for(
    plain: Set<Arc>,
    arcs: Set<Arc>,
    shortcuts: Map<u32, Vec<crate::model::cn_model::Shortcut>>,
) -> bool {
    &&& undirected(plain)
    &&& ways_are_routes(arcs, shortcuts)
    &&& none_shorter_than(arcs, shortcuts)
    &&& plain_between(plain, arcs, shortcuts)
}

/// The way that the two unwrapped halves of a meeting make is a route
/// over the arcs that the shortcuts stand for, and the lengths of these
/// arcs along it add up to no more than the length that the search
/// reports.
pub proof fn lemma_meeting_length(
    plain: Set<Arc>,
    arcs: Set<Arc>,
    shortcuts: Map<u32, Vec<crate::model::cn_model::Shortcut>>,
    depth: nat,
    s: int,
    t: int,
    meeting: u32,
    route: Seq<u32>,
    distance: nat,
)
    requires
        stands_for(plain, arcs, shortcuts),
        is_unwrapped_meeting(arcs, shortcuts, depth, s, t, meeting, route, distance),
    ensures
        is_route_within(plain, ids(route), distance),
{
    let (first, second) = choose|first: Seq<u32>, second: Seq<u32>| #[trigger]
        is_met_halves(arcs, s, t, meeting, first, second, distance) && unwrapped(first, shortcuts, depth) is Some
            && unwrapped(second, shortcuts, depth) is Some && route == joined_halves(
            unwrapped(first, shortcuts, depth).unwrap(),
            unwrapped(second, shortcuts, depth).unwrap(),
        );
    let (l1, l2) = choose|l1: nat, l2: nat|
        #[trigger] is_route(arcs, ids(first), l1) && #[trigger] is_route(arcs, ids(second), l2) && l1 + l2
            <= distance;
    let a = unwrapped(first, shortcuts, depth).unwrap();
    let b = unwrapped(second, shortcuts, depth).unwrap();
    lemma_unwrap_length(plain, arcs, first, shortcuts, depth, l1);
    lemma_unwrap_length(plain, arcs, second, shortcuts, depth, l2);
    let la = choose|len: nat| len <= l1 && is_route(plain, ids(a), len);
    let lb = choose|len: nat| len <= l2 && is_route(plain, ids(b), len);
    lemma_route_turned(plain, ids(b), lb);
    lemma_undirected_both_ways(plain);
    assert(flipped(plain).subset_of(both_ways(plain)));
    lemma_route_mono(flipped(plain), plain, turned(ids(b)), lb);
    assert(a.last() == first.last());
    assert(b.last() == second.last());
    assert(ids(a).last() == turned(ids(b))[0]);
    lemma_route_join(plain, ids(a), la, turned(ids(b)), lb);
    assert(ids(a) + turned(ids(b)).subrange(1, ids(b).len() as int) =~= ids(joined_halves(a, b)));
    assert(la + lb <= distance && is_route(plain, ids(route), la + lb));
}

/// The way that the two unwrapped halves of a meeting make leads from the
/// source to the destination, where the ways that the shortcuts replace
/// are paths.
pub proof fn lemma_meeting_ends(
    arcs: Set<Arc>,
    shortcuts: Map<u32, Vec<crate::model::cn_model::Shortcut>>,
    depth: nat,
    s: int,
    t: int,
    meeting: u32,
    route: Seq<u32>,
    distance: nat,
)
    requires
        ways_are_paths(arcs, shortcuts),
        is_unwrapped_meeting(arcs, shortcuts, depth, s, t, meeting, route, distance),
    ensures
        route.len() >= 1,
        route[0] == s,
        route.last() == t,
{
    let (first, second) = choose|first: Seq<u32>, second: Seq<u32>| #[trigger]
        is_met_halves(arcs, s, t, meeting, first, second, distance) && unwrapped(first, shortcuts, depth) is Some
            && unwrapped(second, shortcuts, depth) is Some && route == joined_halves(
            unwrapped(first, shortcuts, depth).unwrap(),
            unwrapped(second, shortcuts, depth).unwrap(),
        );
    let a = unwrapped(first, shortcuts, depth).unwrap();
    let b = unwrapped(second, shortcuts, depth).unwrap();
    let (l1, l2) = choose|l1: nat, l2: nat|
        #[trigger] is_route(arcs, ids(first), l1) && #[trigger] is_route(arcs, ids(second), l2) && l1 + l2
            <= distance;
    lemma_route_is_path(arcs, first, l1);
    lemma_route_is_path(arcs, second, l2);
    lemma_unwrap_shape(arcs, first, shortcuts, depth);
    lemma_unwrap_shape(arcs, second, shortcuts, depth);
    let back = turned_nodes(b).subrange(1, b.len() as int);
    if b.len() >= 2 {
        assert(route.last() == back.last());
        assert(back.last() == b[0]);
    } else {
        assert(route =~= a);
    }
}

/// `route` is a path over the arcs `plain` from `s` to `t`: every two
/// neighbours in it are joined by one of these arcs.
pub open spec fn is_plain_path(plain: Set<Arc>, s: int, t: int, route: Seq<u32>) -> bool {
    &&& route.len() >= 1
    &&& route[0] == s
    &&& route.last() == t
    &&& is_node_path(plain, route)
}

/// Puts the two unwrapped halves of a way together.
pub fn join_halves(a: &Vec<u32>, b: &Vec<u32>) -> (route: Vec<u32>)
    requires
        b@.len() >= 1,
    ensures
        route@ == joined_halves(a@, b@),
{
    let mut route: Vec<u32> = Vec::new();
    let mut i: usize = 0;
    while i < a.len()
        invariant
            i <= a@.len(),
            route@ == a@.subrange(0, i as int),
        decreases a@.len() - i,
    {
        route.push(a[i]);
        proof {
            assert(route@ =~= a@.subrange(0, i + 1));
        }
        i += 1;
    }
    let mut k: usize = b.len() - 1;
    proof {
        assert(a@.subrange(0, a@.len() as int) =~= a@);
        assert(route@ =~= a@ + turned_nodes(b@).subrange(1, 1));
    }
    while k > 0
        invariant
            k < b@.len(),
            route@ == a@ + turned_nodes(b@).subrange(1, b@.len() - k),
        decreases k,
    {
        k -= 1;
        route.push(b[k]);
        proof {
            assert(route@ =~= a@ + turned_nodes(b@).subrange(1, b@.len() - k));
        }
    }
    route
}

/// What a search from `s` for `t` has found is exact for the arcs `under`:
/// where it did not meet, no way is shorter than `u32::MAX`; and a length
/// that it reports is the shortest.
pub open spec fn is_exact_for(under: Set<Arc>, s: int, t: int, meeting: u32, length: Option<u32>) -> bool {
    &&& meeting == u32::MAX ==> out_of_reach(under, s, t)
    &&& length matches Some(d) ==> is_shortest(under, s, t, d as nat)
}

impl<'a> CNBdDijkstra<'a> {
    /// The engine is in a state that its methods accept.
    pub closed spec fn wf(&self) -> bool {
        &&& self.meta.graph.wf()
        &&& self.forward.n() == self.meta.graph.node_count()
        &&& self.backward.n() == self.meta.graph.node_count()
        &&& self.source_node < self.meta.graph.node_count()
    }

    /// The engine has not searched yet.
    pub closed spec fn fresh(&self) -> bool {
        self.forward.blank() && self.backward.blank()
    }

    /// The arcs of the graph that is searched.
    pub closed spec fn arcs(&self) -> Set<Arc> {
        self.meta.graph.arcs()
    }

    /// Number of nodes of the graph that is searched.
    pub closed spec fn node_count(&self) -> int {
        self.meta.graph.node_count()
    }

    /// The node the search starts from.
    pub closed spec fn source(&self) -> int {
        self.source_node as int
    }

    /// Length of the best way found so far over a node that both searches
    /// have reached; `u32::MAX` while there is none.
    pub closed spec fn best(&self) -> u32 {
        self.mu
    }

    /// The node over which the best way found so far leads; `u32::MAX`
    /// while there is none.
    pub closed spec fn meeting(&self) -> u32 {
        self.meeting_node
    }

    /// Items taken from the two heaps so far.
    pub closed spec fn nodes_popped(&self) -> int {
        self.forward.popped + self.backward.popped
    }

    /// The shortcuts that ways are unwrapped with.
    pub closed spec fn shortcuts(&self) -> Map<u32, Vec<crate::model::cn_model::Shortcut>> {
        self.meta.get_shortcuts@
    }

    /// An engine over the contracted graph `meta`, about to search from
    /// `source_node`.
    pub fn new(meta: &'a CNMetadata, source_node: u32) -> (b: CNBdDijkstra<'a>)
        requires
            meta.graph.wf(),
            source_node < meta.graph.node_count(),
        ensures
            b.wf(),
            b.fresh(),
            b.arcs() == meta.graph.arcs(),
            b.shortcuts() == meta.get_shortcuts@,
            b.node_count() == meta.graph.node_count(),
            b.source() == source_node,
            b.best() == u32::MAX,
            b.meeting() == u32::MAX,
    {
        let number_of_nodes: usize = meta.graph.edges.len();
        CNBdDijkstra {
            meta,
            forward: Frontier::new(number_of_nodes),
            backward: Frontier::new(number_of_nodes),
            source_node,
            destination_node: 0,
            mu: u32::MAX,
            meeting_node: u32::MAX,
        }
    }

    /// The best meeting found: the node, and the length of the way over it.
    pub fn best_meeting(&self) -> (r: (u32, u32))
        ensures
            r.0 == self.meeting(),
            r.1 == self.best(),
    {
        (self.meeting_node, self.mu)
    }

    /// Searches from both ends for a way from the source to
    /// `destination_node` over the contracted graph, and reports the way
    /// over the best meeting of the two searches, unwrapped: its nodes from
    /// the source on, the sum of the labels that the two searches have
    /// given the meeting node, and the count of items taken from the two
    /// heaps, which stops at `u32::MAX`. `None` when the searches did not
    /// meet, or when shortcuts are nested deeper than [`MAX_NESTING`].
    ///
    /// Over arcs that have their reverses the length reported is the
    /// shortest, and the way found is a way of that length; where the ways
    /// that the shortcuts replace are paths, the way reported has no step
    /// left that a shortcut stands for. Where the shortcuts stand for ways
    /// over the arcs of a graph, the way reported is a way over these arcs
    /// whose lengths add up to no more than the length reported.
    pub fn find_route(&mut self, destination_node: u32) -> (r: Option<(Vec<u32>, u32, u32)>)
        requires
            old(self).wf(),
            destination_node < old(self).node_count(),
        ensures
            final(self).wf(),
            final(self).arcs() == old(self).arcs(),
            final(self).shortcuts() == old(self).shortcuts(),
            final(self).node_count() == old(self).node_count(),
            final(self).source() == old(self).source(),
            final(self).meeting() == u32::MAX <==> final(self).best() == u32::MAX,
            r is Some ==> final(self).meeting() != u32::MAX,
            final(self).meeting() != u32::MAX && always_unwraps(old(self).shortcuts(), MAX_NESTING as nat)
                ==> r is Some,
            undirected(old(self).arcs()) && final(self).meeting() == u32::MAX ==> out_of_reach(
                old(self).arcs(),
                old(self).source(),
                destination_node as int,
            ),
            undirected(old(self).arcs()) && always_unwraps(old(self).shortcuts(), MAX_NESTING as nat)
                ==> is_search_result(old(self).arcs(), old(self).source(), destination_node as int, reported_length(r)),
            forall|under: Set<Arc>|
                undirected(under) && #[trigger] same_reach(under, old(self).arcs()) ==> is_exact_for(
                    under,
                    old(self).source(),
                    destination_node as int,
                    final(self).meeting(),
                    reported_length(r),
                ),
            r matches Some((route, distance, popped)) ==> {
                &&& distance <= final(self).best()
                &&& final(self).best() < u32::MAX
                &&& undirected(old(self).arcs()) ==> is_shortest(
                    old(self).arcs(),
                    old(self).source(),
                    destination_node as int,
                    distance as nat,
                )
                &&& is_unwrapped_meeting(
                    old(self).arcs(),
                    old(self).shortcuts(),
                    MAX_NESTING as nat,
                    old(self).source(),
                    destination_node as int,
                    final(self).meeting(),
                    route@,
                    distance as nat,
                )
                &&& forall|plain: Set<Arc>|
                    undirected(plain) && #[trigger] adds_shortcuts(plain, old(self).arcs(), old(self).shortcuts())
                        && ways_are_paths(old(self).arcs(), old(self).shortcuts()) ==> is_plain_path(
                        plain,
                        old(self).source(),
                        destination_node as int,
                        route@,
                    )
                &&& forall|plain: Set<Arc>| #[trigger]
                    stands_for(plain, old(self).arcs(), old(self).shortcuts()) ==> is_route_within(
                        plain,
                        ids(route@),
                        distance as nat,
                    )
                &&& popped == (if final(self).nodes_popped() < u32::MAX {
                final(self).nodes_popped()
            } else {
                u32::MAX as int
            })
            },
    {
        self.run(destination_node, None).0
    }

    /// Searches for `destination_node` as [`CNBdDijkstra::find_route`] does, but
    /// looks at `token` before every step, and ends the search where the
    /// token asks for it. Unless it was stopped, the search ends with what
    /// [`CNBdDijkstra::find_route`] reports.
    pub fn find_route_unless(&mut self, destination_node: u32, token: &AtomicBool) -> (end: SearchEnd)
        requires
            old(self).wf(),
            destination_node < old(self).node_count(),
        ensures
            final(self).wf(),
            final(self).arcs() == old(self).arcs(),
            final(self).shortcuts() == old(self).shortcuts(),
            final(self).node_count() == old(self).node_count(),
            final(self).source() == old(self).source(),
            end.taken() == (if final(self).nodes_popped() < u32::MAX {
                final(self).nodes_popped()
            } else {
                u32::MAX as int
            }),
            end is Stopped || (final(self).meeting() == u32::MAX <==> final(self).best() == u32::MAX),
            end is Stopped || (end.found() is Some ==> final(self).meeting() != u32::MAX),
            end is Stopped || (final(self).meeting() != u32::MAX && always_unwraps(old(self).shortcuts(), MAX_NESTING as nat)
                ==> end.found() is Some),
            end is Stopped || (undirected(old(self).arcs()) && final(self).meeting() == u32::MAX ==> out_of_reach(
                old(self).arcs(),
                old(self).source(),
                destination_node as int,
            )),
            end is Stopped || (undirected(old(self).arcs()) && always_unwraps(old(self).shortcuts(), MAX_NESTING as nat)
                ==> is_search_result(old(self).arcs(), old(self).source(), destination_node as int, reported_length(end.found()))),
            end is Stopped || (forall|under: Set<Arc>|
                undirected(under) && #[trigger] same_reach(under, old(self).arcs()) ==> is_exact_for(
                    under,
                    old(self).source(),
                    destination_node as int,
                    final(self).meeting(),
                    reported_length(end.found()),
                )),
            end is Stopped || (end.found() matches Some((route, distance, popped)) ==> {
                &&& distance <= final(self).best()
                &&& final(self).best() < u32::MAX
                &&& undirected(old(self).arcs()) ==> is_shortest(
                    old(self).arcs(),
                    old(self).source(),
                    destination_node as int,
                    distance as nat,
                )
                &&& is_unwrapped_meeting(
                    old(self).arcs(),
                    old(self).shortcuts(),
                    MAX_NESTING as nat,
                    old(self).source(),
                    destination_node as int,
                    final(self).meeting(),
                    route@,
                    distance as nat,
                )
                &&& forall|plain: Set<Arc>|
                    undirected(plain) && #[trigger] adds_shortcuts(plain, old(self).arcs(), old(self).shortcuts())
                        && ways_are_paths(old(self).arcs(), old(self).shortcuts()) ==> is_plain_path(
                        plain,
                        old(self).source(),
                        destination_node as int,
                        route@,
                    )
                &&& forall|plain: Set<Arc>| #[trigger]
                    stands_for(plain, old(self).arcs(), old(self).shortcuts()) ==> is_route_within(
                        plain,
                        ids(route@),
                        distance as nat,
                    )
                &&& popped == (if final(self).nodes_popped() < u32::MAX {
                final(self).nodes_popped()
            } else {
                u32::MAX as int
            })
            }),
    {
        let (r, halted) = self.run(destination_node, Some(token));
        let taken: u32 = self.taken();
        if halted {
            return SearchEnd::Stopped(taken);
        }
        match r {
            Some((route, distance, popped)) => SearchEnd::Route(route, distance, popped),
            None => SearchEnd::NoRoute(taken),
        }
    }

    /// The count of items taken from the two heaps, which stops at
    /// `u32::MAX`.
    fn taken(&self) -> (count: u32)
        ensures
            count == (if self.nodes_popped() < u32::MAX {
                self.nodes_popped()
            } else {
                u32::MAX as int
            }),
    {
        let total: u128 = self.forward.popped as u128 + self.backward.popped as u128;
        if total < u32::MAX as u128 {
            total as u32
        } else {
            u32::MAX
        }
    }

    /// The search for `destination_node`, which `token` can end: what it
    /// reports, and `true` where the token ended it.
    fn run(&mut self, destination_node: u32, token: Option<&AtomicBool>) -> (out: (Option<(Vec<u32>, u32, u32)>, bool))
        requires
            old(self).wf(),
            destination_node < old(self).node_count(),
        ensures
            final(self).wf(),
            final(self).arcs() == old(self).arcs(),
            final(self).shortcuts() == old(self).shortcuts(),
            final(self).node_count() == old(self).node_count(),
            final(self).source() == old(self).source(),
            token is None ==> !out.1,
            out.1 ==> out.0 is None,
            !out.1 ==> (final(self).meeting() == u32::MAX <==> final(self).best() == u32::MAX),
            !out.1 ==> (out.0 is Some ==> final(self).meeting() != u32::MAX),
            !out.1 ==> (final(self).meeting() != u32::MAX && always_unwraps(old(self).shortcuts(), MAX_NESTING as nat)
                ==> out.0 is Some),
            !out.1 ==> (undirected(old(self).arcs()) && final(self).meeting() == u32::MAX ==> out_of_reach(
                old(self).arcs(),
                old(self).source(),
                destination_node as int,
            )),
            !out.1 ==> (undirected(old(self).arcs()) && always_unwraps(old(self).shortcuts(), MAX_NESTING as nat)
                ==> is_search_result(old(self).arcs(), old(self).source(), destination_node as int, reported_length(out.0))),
            !out.1 ==> (forall|under: Set<Arc>|
                undirected(under) && #[trigger] same_reach(under, old(self).arcs()) ==> is_exact_for(
                    under,
                    old(self).source(),
                    destination_node as int,
                    final(self).meeting(),
                    reported_length(out.0),
                )),
            !out.1 ==> (out.0 matches Some((route, distance, popped)) ==> {
                &&& distance <= final(self).best()
                &&& final(self).best() < u32::MAX
                &&& undirected(old(self).arcs()) ==> is_shortest(
                    old(self).arcs(),
                    old(self).source(),
                    destination_node as int,
                    distance as nat,
                )
                &&& is_unwrapped_meeting(
                    old(self).arcs(),
                    old(self).shortcuts(),
                    MAX_NESTING as nat,
                    old(self).source(),
                    destination_node as int,
                    final(self).meeting(),
                    route@,
                    distance as nat,
                )
                &&& forall|plain: Set<Arc>|
                    undirected(plain) && #[trigger] adds_shortcuts(plain, old(self).arcs(), old(self).shortcuts())
                        && ways_are_paths(old(self).arcs(), old(self).shortcuts()) ==> is_plain_path(
                        plain,
                        old(self).source(),
                        destination_node as int,
                        route@,
                    )
                &&& forall|plain: Set<Arc>| #[trigger]
                    stands_for(plain, old(self).arcs(), old(self).shortcuts()) ==> is_route_within(
                        plain,
                        ids(route@),
                        distance as nat,
                    )
                &&& popped == (if final(self).nodes_popped() < u32::MAX {
                final(self).nodes_popped()
            } else {
                u32::MAX as int
            })
            }),
    {
        let ghost arcs = self.meta.graph.arcs();
        let ghost s = self.source_node as int;
        let ghost t = destination_node as int;
        let ghost shortcuts = self.meta.get_shortcuts@;
        let nodes: usize = self.meta.graph.edges.len();
        let depth: usize = MAX_NESTING;
        self.destination_node = destination_node;
        if destination_node == self.source_node {
            self.mu = 0;
            self.meeting_node = destination_node;
            let mut only: Vec<u32> = Vec::new();
            only.push(destination_node);
            let popped: u32 = self.taken();
            proof {
                lemma_reaches_self(arcs, s);
                assert(ids(only@) =~= seq![s]);
                assert(is_route(both_ways(arcs), ids(only@), 0));
                assert(is_route(arcs, ids(only@), 0));
                assert(only@[0] == destination_node);
                assert(unwrapped_upto(only@, 0, shortcuts, depth as nat) == Some(Seq::<u32>::empty()));
                assert(Seq::<u32>::empty().push(destination_node) =~= only@);
                assert(unwrapped(only@, shortcuts, depth as nat) == Some(only@));
                assert(is_route(arcs, ids(only@), 0) && is_route(arcs, ids(only@), 0) && 0nat + 0nat <= 0);
                assert(is_met_halves(arcs, s, t, self.meeting_node, only@, only@, 0));
                assert(joined_halves(only@, only@) =~= only@);
                assert(is_unwrapped_meeting(arcs, shortcuts, depth as nat, s, t, self.meeting_node, only@, 0));
                assert forall|plain: Set<Arc>|
                    undirected(plain) && #[trigger] adds_shortcuts(plain, arcs, shortcuts) && ways_are_paths(
                        arcs,
                        shortcuts,
                    ) implies is_plain_path(plain, s, t, only@) by {}
                assert forall|plain: Set<Arc>| #[trigger] stands_for(plain, arcs, shortcuts) implies is_route_within(
                    plain,
                    ids(only@),
                    0,
                ) by {
                    lemma_meeting_length(plain, arcs, shortcuts, depth as nat, s, t, self.meeting_node, only@, 0);
                }
            }
            proof {
                assert forall|under: Set<Arc>| undirected(under) && #[trigger] same_reach(under, arcs) implies is_exact_for(
                    under,
                    s,
                    t,
                    self.meeting_node,
                    Some(0u32),
                ) by {
                    lemma_reaches_self(under, s);
                }
            }
            return (Some((only, 0, popped)), false);
        }
        self.forward = Frontier::new(nodes);
        self.backward = Frontier::new(nodes);
        let (meeting_node, halted) = self.bd_dijkstra(self.source_node, destination_node, token);
        if halted {
            return (None, true);
        }
        if meeting_node == u32::MAX {
            proof {
                if undirected(arcs) {
                    assert forall|x: nat| reaches(arcs, s, t, x) implies x >= u32::MAX by {
                        if x < u32::MAX {
                            let d = lemma_least_length(arcs, s, t, x);
                            let k = choose|k: nat| reaches_in(arcs, s, t, d, k);
                            let way = lemma_reaches_route(arcs, s, t, d, k);
                            lemma_stop_is_shortest(&self.forward, &self.backward, arcs, arcs, self.mu, self.meeting_node, way, d);
                        }
                    }
                }
                assert forall|under: Set<Arc>| undirected(under) && #[trigger] same_reach(under, arcs) implies is_exact_for(
                    under,
                    s,
                    t,
                    self.meeting_node,
                    None,
                ) by {
                    assert forall|x: nat| reaches(under, s, t, x) implies x >= u32::MAX by {
                        if x < u32::MAX {
                            let d = lemma_least_length(under, s, t, x);
                            let k = choose|k: nat| reaches_in(under, s, t, d, k);
                            let way = lemma_reaches_route(under, s, t, d, k);
                            lemma_stop_is_shortest(
                                &self.forward,
                                &self.backward,
                                under,
                                arcs,
                                self.mu,
                                self.meeting_node,
                                way,
                                d,
                            );
                        }
                    }
                }
            }
            return (None, false);
        }
        proof {
            assert(self.forward.labelled(s, meeting_node as int) && self.backward.labelled(t, meeting_node as int)) by {
                reveal(Frontier::inv);
            }
        }
        let towards_source = self.forward.chain(meeting_node, self.source_node, Ghost(arcs));
        let towards_destination = self.backward.chain(meeting_node, destination_node, Ghost(arcs));
        let first = reversed(&towards_source);
        let second = reversed(&towards_destination);
        let distance: u32 = self.forward.distances[meeting_node as usize] + self.backward.distances[meeting_node as usize];
        let popped: u32 = self.taken();
        proof {
            let m = meeting_node as int;
            let lf = choose|len: nat| len <= self.forward.dist(m) && is_route(arcs, turned(ids(towards_source@)), len);
            let lb = choose|len: nat|
                len <= self.backward.dist(m) && is_route(arcs, turned(ids(towards_destination@)), len);
            assert(ids(first@) =~= turned(ids(towards_source@)));
            assert(ids(second@) =~= turned(ids(towards_destination@)));
            assert(is_route(arcs, ids(first@), lf) && is_route(arcs, ids(second@), lb) && lf + lb <= distance);
            assert(is_met_halves(arcs, s, t, self.meeting_node, first@, second@, distance as nat));
            assert forall|under: Set<Arc>| undirected(under) && #[trigger] same_reach(under, arcs) implies is_exact_for(
                under,
                s,
                t,
                self.meeting_node,
                Some(distance),
            ) by {
                lemma_met_is_real(&self.forward, &self.backward, under, arcs, s, t, m);
                let d = lemma_least_length(under, s, t, distance as nat);
                let steps = choose|steps: nat| reaches_in(under, s, t, d, steps);
                let way = lemma_reaches_route(under, s, t, d, steps);
                lemma_stop_is_shortest(&self.forward, &self.backward, under, arcs, self.mu, self.meeting_node, way, d);
            }
            if undirected(arcs) {
                assert(same_reach(arcs, arcs));
                assert(is_exact_for(arcs, s, t, self.meeting_node, Some(distance)));
            }
            lemma_route_is_path(arcs, first@, lf);
            lemma_route_is_path(arcs, second@, lb);
        }
        let one = unwrap_shortcuts_within(&first, &self.meta.get_shortcuts, depth);
        let other = unwrap_shortcuts_within(&second, &self.meta.get_shortcuts, depth);
        match (one, other) {
            (Some(a), Some(b)) => {
                proof {
                    if ways_are_paths(arcs, shortcuts) {
                        lemma_unwrap_shape(arcs, second@, shortcuts, depth as nat);
                    } else {
                        crate::algorithms::unwrap_shortcuts::lemma_unwrap_some(second@, shortcuts, depth as nat);
                    }
                }
                let complete_route = join_halves(&a, &b);
                proof {
                    assert(is_unwrapped_meeting(
                        arcs,
                        shortcuts,
                        depth as nat,
                        s,
                        t,
                        self.meeting_node,
                        complete_route@,
                        distance as nat,
                    ));
                    assert forall|plain: Set<Arc>|
                        undirected(plain) && #[trigger] adds_shortcuts(plain, arcs, shortcuts) && ways_are_paths(
                            arcs,
                            shortcuts,
                        ) implies is_plain_path(plain, s, t, complete_route@) by {
                        lemma_unwrap_is_plain_path(plain, arcs, first@, shortcuts, depth as nat);
                        lemma_unwrap_is_plain_path(plain, arcs, second@, shortcuts, depth as nat);
                        lemma_joined_path(plain, a@, b@);
                    }
                    assert forall|plain: Set<Arc>| #[trigger] stands_for(plain, arcs, shortcuts) implies is_route_within(
                        plain,
                        ids(complete_route@),
                        distance as nat,
                    ) by {
                        lemma_meeting_length(
                            plain,
                            arcs,
                            shortcuts,
                            depth as nat,
                            s,
                            t,
                            self.meeting_node,
                            complete_route@,
                            distance as nat,
                        );
                    }
                }
                (Some((complete_route, distance, popped)), false)
            },
            _ => {
                proof {
                    assert(unwrapped(first@, shortcuts, depth as nat) is None || unwrapped(
                        second@,
                        shortcuts,
                        depth as nat,
                    ) is None);
                }
                (None, false)
            },
        }
    }

    /// Runs the two searches in turn, the one with fewer items on its heap
    /// and taken from it first, until the two lowest ranks on the heaps add
    /// up to no less than the best meeting, a heap is empty, or `token` asks
    /// for a stop. Hands back the meeting node, `u32::MAX` if there is none,
    /// and `true` where the token ended the search.
    fn bd_dijkstra(&mut self, source_node: u32, destination_node: u32, token: Option<&AtomicBool>) -> (out: (
        u32,
        bool,
    ))
        requires
            old(self).wf(),
            old(self).fresh(),
            source_node == old(self).source_node,
            destination_node < old(self).node_count(),
            source_node != destination_node,
        ensures
            final(self).wf(),
            final(self).meta == old(self).meta,
            final(self).source_node == old(self).source_node,
            out.0 == final(self).meeting_node,
            token is None ==> !out.1,
            final(self).forward.inv(final(self).meta.graph.arcs(), source_node as int),
            final(self).backward.inv(final(self).meta.graph.arcs(), destination_node as int),
            final(self).forward.inv_exact(final(self).meta.graph.arcs(), source_node as int, Set::empty()),
            final(self).backward.inv_exact(final(self).meta.graph.arcs(), destination_node as int, Set::empty()),
            met_ok(&final(self).forward, &final(self).backward, final(self).mu, final(self).meeting_node),
            joint(&final(self).forward, &final(self).backward, final(self).mu),
            undirected(final(self).meta.graph.arcs()) ==> mu_real(
                final(self).meta.graph.arcs(),
                source_node as int,
                destination_node as int,
                final(self).mu,
            ),
            out.1 || stopped(&final(self).forward, &final(self).backward, final(self).mu),
            out.1 || in_turn(&final(self).forward, &final(self).backward),
    {
        let adj_array = self.meta.graph.adjacency_array();
        let ghost arcs = self.meta.graph.arcs();
        self.meeting_node = u32::MAX;
        self.mu = u32::MAX;
        proof {
            adj_array.lemma_arcs_within();
        }
        self.backward.start(destination_node, Ghost(arcs));
        self.forward.start(source_node, Ghost(arcs));
        proof {
            self.forward.lemma_shape(arcs, source_node as int);
            assert(joint(&self.forward, &self.backward, self.mu)) by {
                reveal(Frontier::inv);
            }
        }
        loop
            invariant
                self.wf(),
                self.meta == old(self).meta,
                self.source_node == old(self).source_node,
                adj_array.wf(),
                adj_array.node_count() == self.meta.graph.node_count(),
                adj_array.arcs() == arcs,
                arcs == self.meta.graph.arcs(),
                self.forward.inv(arcs, source_node as int),
                self.backward.inv(arcs, destination_node as int),
                self.forward.inv_exact(arcs, source_node as int, Set::empty()),
                self.backward.inv_exact(arcs, destination_node as int, Set::empty()),
                met_ok(&self.forward, &self.backward, self.mu, self.meeting_node),
                joint(&self.forward, &self.backward, self.mu),
                undirected(arcs) ==> mu_real(arcs, source_node as int, destination_node as int, self.mu),
                self.backward.popped == 0 ==> self.forward.popped == 0 && self.mu == u32::MAX,
                self.forward.popped == 0 ==> self.backward.popped <= 1 && self.forward.heap@.len() == 1,
                self.backward.popped == 0 ==> self.backward.heap@.len() == 1,
                !self.forward.blank(),
            decreases self.forward.weight() + self.backward.weight(), self.forward.heap@.len() + self.backward.heap@.len(),
        {
            proof {
                self.forward.lemma_shape(arcs, source_node as int);
                self.backward.lemma_shape(arcs, destination_node as int);
            }
            proof {
                if self.forward.popped == 0 {
                    lemma_not_begun(&self.forward, arcs, source_node as int);
                }
                if self.backward.popped == 0 {
                    lemma_not_begun(&self.backward, arcs, destination_node as int);
                }
            }
            if asked(token) {
                return (self.meeting_node, true);
            }
            let forward_top: HeapItem = match self.forward.heap.peek() {
                Some(item) => *item,
                None => {
                    return (self.meeting_node, false);
                },
            };
            let backward_top: HeapItem = match self.backward.heap.peek() {
                Some(item) => *item,
                None => {
                    return (self.meeting_node, false);
                },
            };
            let curr_mu: u64 = forward_top.distance as u64 + backward_top.distance as u64;
            if curr_mu >= self.mu as u64 {
                proof {
                    assert forall|it: HeapItem| #[trigger] self.forward.heap@.contains(it) implies forward_top.distance
                        <= it.distance by {
                        assert(forward_top.key() <= it.key());
                    }
                    assert forall|it: HeapItem| #[trigger] self.backward.heap@.contains(it) implies backward_top.distance
                        <= it.distance by {
                        assert(backward_top.key() <= it.key());
                    }
                    assert(lowest(&self.forward, forward_top.distance));
                    assert(lowest(&self.backward, backward_top.distance));
                }
                return (self.meeting_node, false);
            }
            let touched_forward: u128 = self.forward.heap.len() as u128 + self.forward.popped as u128;
            let touched_backward: u128 = self.backward.heap.len() as u128 + self.backward.popped as u128;
            if touched_forward < touched_backward {
                self.expand_forward(&adj_array, Ghost(source_node as int), Ghost(destination_node as int));
            } else {
                self.expand_backward(&adj_array, Ghost(source_node as int), Ghost(destination_node as int));
            }
        }
    }

    /// One step of the forward search.
    fn expand_forward(&mut self, adj_array: &AdjacencyArray, Ghost(source): Ghost<int>, Ghost(destination): Ghost<int>)
        requires
            adj_array.wf(),
            adj_array.node_count() == old(self).forward.n(),
            old(self).backward.n() == old(self).forward.n(),
            old(self).forward.inv(adj_array.arcs(), source),
            old(self).backward.inv(adj_array.arcs(), destination),
            old(self).forward.inv_exact(adj_array.arcs(), source, Set::empty()),
            old(self).backward.inv_exact(adj_array.arcs(), destination, Set::empty()),
            met_ok(&old(self).forward, &old(self).backward, old(self).mu, old(self).meeting_node),
            joint(&old(self).forward, &old(self).backward, old(self).mu),
            undirected(adj_array.arcs()) ==> mu_real(adj_array.arcs(), source, destination, old(self).mu),
            old(self).forward.heap@.len() > 0,
        ensures
            final(self).meta == old(self).meta,
            final(self).source_node == old(self).source_node,
            final(self).backward == old(self).backward,
            final(self).forward.n() == old(self).forward.n(),
            final(self).forward.inv(adj_array.arcs(), source),
            final(self).forward.inv_exact(adj_array.arcs(), source, Set::empty()),
            met_ok(&final(self).forward, &final(self).backward, final(self).mu, final(self).meeting_node),
            joint(&final(self).forward, &final(self).backward, final(self).mu),
            undirected(adj_array.arcs()) ==> mu_real(adj_array.arcs(), source, destination, final(self).mu),
            final(self).mu <= old(self).mu,
            final(self).forward.popped >= 1,
            final(self).forward.weight() < old(self).forward.weight() || (final(self).forward.weight() == old(self).forward.weight() && final(self).forward.heap@.len() + 1 == old(self).forward.heap@.len()),
            !final(self).forward.blank(),
    {
        self.forward.expand(
            adj_array,
            &self.backward,
            &mut self.mu,
            &mut self.meeting_node,
            Ghost(source),
            Ghost(destination),
        );
        proof {
            self.forward.lemma_shape(adj_array.arcs(), source);
        }
    }

    /// One step of the backward search.
    fn expand_backward(&mut self, adj_array: &AdjacencyArray, Ghost(source): Ghost<int>, Ghost(destination): Ghost<int>)
        requires
            adj_array.wf(),
            adj_array.node_count() == old(self).forward.n(),
            old(self).backward.n() == old(self).forward.n(),
            old(self).forward.inv(adj_array.arcs(), source),
            old(self).backward.inv(adj_array.arcs(), destination),
            old(self).forward.inv_exact(adj_array.arcs(), source, Set::empty()),
            old(self).backward.inv_exact(adj_array.arcs(), destination, Set::empty()),
            met_ok(&old(self).forward, &old(self).backward, old(self).mu, old(self).meeting_node),
            joint(&old(self).forward, &old(self).backward, old(self).mu),
            undirected(adj_array.arcs()) ==> mu_real(adj_array.arcs(), source, destination, old(self).mu),
            old(self).backward.heap@.len() > 0,
        ensures
            final(self).meta == old(self).meta,
            final(self).source_node == old(self).source_node,
            final(self).forward == old(self).forward,
            final(self).backward.n() == old(self).backward.n(),
            final(self).backward.inv(adj_array.arcs(), destination),
            final(self).backward.inv_exact(adj_array.arcs(), destination, Set::empty()),
            met_ok(&final(self).forward, &final(self).backward, final(self).mu, final(self).meeting_node),
            joint(&final(self).forward, &final(self).backward, final(self).mu),
            undirected(adj_array.arcs()) ==> mu_real(adj_array.arcs(), source, destination, final(self).mu),
            final(self).mu <= old(self).mu,
            final(self).backward.popped == (if old(self).backward.popped < usize::MAX {
                (old(self).backward.popped + 1) as usize
            } else {
                old(self).backward.popped
            }),
            final(self).backward.weight() < old(self).backward.weight() || (final(self).backward.weight() == old(self).backward.weight() && final(self).backward.heap@.len() + 1 == old(self).backward.heap@.len()),
    {
        proof {
            if undirected(adj_array.arcs()) && self.mu < u32::MAX {
                crate::algorithms::paths::lemma_reaches_turned(adj_array.arcs(), source, destination, self.mu as nat);
            }
        }
        self.backward.expand(
            adj_array,
            &self.forward,
            &mut self.mu,
            &mut self.meeting_node,
            Ghost(destination),
            Ghost(source),
        );
        proof {
            if undirected(adj_array.arcs()) && self.mu < u32::MAX {
                crate::algorithms::paths::lemma_reaches_turned(adj_array.arcs(), destination, source, self.mu as nat);
            }
        }
    }
}

} // verus!
