use vstd::prelude::*;
use crate::model::adjacency_array::Arc;
use crate::model::grid_graph::GridGraph;
use crate::model::cn_model::{CNMetadata, Shortcut};
use crate::model::benchmark::{AlgoBenchmark, BenchmarkResult, CollectedBenchmarks};
use crate::algorithms::paths::{is_shortest, is_search_result, consistent, is_reported_route_within, reaches,
    is_reported_route,
    is_route_within, both_ways, ids, undirected, out_of_reach, same_reach};
use crate::algorithms::unwrap_shortcuts::{always_unwraps, MAX_NESTING};
use crate::algorithms::cn_search::is_unwrapped_meeting;
use crate::algorithms::dijkstra::Dijkstra;
use crate::algorithms::a_star::{AStar, usable_estimates};
use crate::algorithms::bd_dijkstra::BdDijkstra;
use crate::algorithms::cn_search::CNBdDijkstra;

verus! {

/// A moment on the clock of the machine, of `std::time::Instant`: carried
/// from the start of a measurement to its end, and never looked into.
#[verifier::external_type_specification]
#[verifier::external_body]
pub struct ExInstant(std::time::Instant);

/// The moment at which a measurement begins.
///
/// Calls `std::time::Instant::now`. Nothing is claimed of the moment.
#[verifier::external_body]
fn timer_start() -> (start: std::time::Instant) {
    std::time::Instant::now()
}

/// The time that has passed since `start`.
///
/// Calls `std::time::Instant::elapsed`. Nothing is claimed of the time.
#[verifier::external_body]
fn timer_elapsed(start: &std::time::Instant) -> (passed: std::time::Duration) {
    start.elapsed()
}

/// The whole nanoseconds of `passed`.
///
/// Calls `std::time::Duration::as_nanos`. Nothing is claimed of the
/// number.
#[verifier::external_body]
fn duration_nanos(passed: &std::time::Duration) -> (nanos: u128) {
    passed.as_nanos()
}

/// The number `all` as far as 64 bits hold it: `u64::MAX` stands for
/// every greater number.
pub fn held_in_64_bits(all: u128) -> (held: u64)
    ensures
        held == (if all > u64::MAX {
            u64::MAX as int
        } else {
            all as int
        }),
{
    if all > 0xffff_ffff_ffff_ffffu128 {
        u64::MAX
    } else {
        all as u64
    }
}

/// The time since `start` in nanoseconds, as far as 64 bits hold it:
/// `u64::MAX` stands for every longer time.
fn timer_nanos(start: &std::time::Instant) -> (nanos: u64) {
    let passed = timer_elapsed(start);
    let all: u128 = duration_nanos(&passed);
    held_in_64_bits(all)
}

/// Up to `amount` of the entries of `items`, picked at random, none twice.
///
/// Calls `rand::seq::SliceRandom::choose_multiple` with the thread's
/// generator. The contract claims what holds of every pick: as many entries
/// as asked for, or all where there are fewer, each from a position of its
/// own.
#[verifier::external_body]
fn choose_multiple(items: &Vec<u32>, amount: usize) -> (picked: Vec<u32>)
    ensures
        is_pick(items@, amount as int, picked@),
{
    rand::seq::SliceRandom::choose_multiple(items.as_slice(), &mut rand::thread_rng(), amount).cloned().collect()
}

/// `picked` holds `amount` entries of `items`, or as many as there are,
/// each from a position of its own.
pub open spec fn is_pick(items: Seq<u32>, amount: int, picked: Seq<u32>) -> bool {
    &&& picked.len() == if amount < items.len() {
        amount
    } else {
        items.len() as int
    }
    &&& exists|positions: Seq<int>|
        {
            &&& positions.len() == picked.len()
            &&& positions.no_duplicates()
            &&& forall|i: int|
                0 <= i < picked.len() ==> 0 <= #[trigger] positions[i] < items.len() && picked[i]
                    == items[positions[i]]
        }
}

/// A graph with its contraction, and the engines that run over them.
pub struct InMemoryGraph {
    graph: GridGraph,
    cn_metadata: CNMetadata,
}

/// The result `r` answers one of `queries`, with the shortest length of a
/// way from its first node to its second.
pub open spec fn answers(arcs: Set<Arc>, queries: Seq<(u32, u32)>, r: BenchmarkResult) -> bool {
    &&& r.query_id < queries.len()
    &&& r.distance < u32::MAX
    &&& is_shortest(arcs, queries[r.query_id as int].0 as int, queries[r.query_id as int].1 as int, r.distance as nat)
}

/// `route` lists the `count` nodes of a way over `arcs` from `s` to `t`
/// that is no longer than `bound`.
pub open spec fn is_way_between(arcs: Set<Arc>, route: Seq<u32>, s: u32, t: u32, count: int, bound: nat) -> bool {
    &&& route.len() == count
    &&& count >= 1
    &&& route[0] == s
    &&& route.last() == t
    &&& is_route_within(arcs, ids(route), bound)
}

/// The result `b` holds the number of nodes of a way that a search over
/// the contraction reports: what a way that the search has found from `s`
/// to `t`, no longer than the length of `b`, unwraps to.
pub open spec fn is_ch_answer(
    arcs: Set<Arc>,
    shortcuts: Map<u32, Vec<Shortcut>>,
    depth: nat,
    s: int,
    t: int,
    b: BenchmarkResult,
) -> bool {
    exists|route: Seq<u32>, meeting: u32|
        route.len() == b.nmb_nodes && #[trigger] is_unwrapped_meeting(
            arcs,
            shortcuts,
            depth,
            s,
            t,
            meeting,
            route,
            b.distance as nat,
        )
}

/// The queries among the first `upto` of `queries` whose end can be
/// reached from their start, in their order.
pub open spec fn answered(arcs: Set<Arc>, queries: Seq<(u32, u32)>, upto: int) -> Seq<int>
    decreases upto,
{
    if upto <= 0 {
        Seq::empty()
    } else if out_of_reach(arcs, queries[upto - 1].0 as int, queries[upto - 1].1 as int) {
        answered(arcs, queries, upto - 1)
    } else {
        answered(arcs, queries, upto - 1).push(upto - 1)
    }
}

/// `list` holds, in the order of the queries, one result for every query
/// among the first `upto` whose end can be reached, and none for the
/// others.
pub open spec fn is_baseline(arcs: Set<Arc>, queries: Seq<(u32, u32)>, upto: int, list: Seq<BenchmarkResult>) -> bool {
    &&& list.len() == answered(arcs, queries, upto).len()
    &&& forall|k: int| 0 <= k < list.len() ==> (#[trigger] list[k]).query_id == answered(arcs, queries, upto)[k]
}

/// The two results answer the same query with the same length and the
/// same number of nodes.
pub open spec fn same_answer(a: BenchmarkResult, b: BenchmarkResult) -> bool {
    a.query_id == b.query_id && a.distance == b.distance && a.nmb_nodes == b.nmb_nodes
}

/// `true` when the result `other` of an engine is kept beside the result
/// `baseline` of uniform-cost search for the same query: it has the same
/// length and the same number of nodes.
pub fn is_kept(baseline: &BenchmarkResult, other: &BenchmarkResult) -> (kept: bool)
    ensures
        kept == (other.nmb_nodes == baseline.nmb_nodes && other.distance == baseline.distance),
{
    other.nmb_nodes == baseline.nmb_nodes && baseline.distance == other.distance
}

/// `baseline` holds the answer `a`.
pub open spec fn has_answer(baseline: Seq<BenchmarkResult>, a: BenchmarkResult) -> bool {
    exists|j: int| 0 <= j < baseline.len() && same_answer(a, #[trigger] baseline[j])
}

/// Every result of `list` is the answer that `baseline` has for its query,
/// and the results stand in the order of the queries.
pub open spec fn agrees_with(list: Seq<BenchmarkResult>, baseline: Seq<BenchmarkResult>) -> bool {
    &&& forall|k: int| 0 <= k < list.len() ==> has_answer(baseline, #[trigger] list[k])
    &&& forall|k: int, l: int| 0 <= k < l < list.len() ==> (#[trigger] list[k]).query_id < (#[trigger] list[l]).query_id
}

/// A list that agrees with the baseline agrees with a longer one.
pub proof fn lemma_agrees_grows(list: Seq<BenchmarkResult>, baseline: Seq<BenchmarkResult>, more: BenchmarkResult)
    requires
        agrees_with(list, baseline),
    ensures
        agrees_with(list, baseline.push(more)),
{
    let longer = baseline.push(more);
    assert forall|k: int| 0 <= k < list.len() implies has_answer(longer, #[trigger] list[k]) by {
        assert(has_answer(baseline, list[k]));
        let j = choose|j: int| 0 <= j < baseline.len() && same_answer(list[k], #[trigger] baseline[j]);
        assert(same_answer(list[k], longer[j]));
    }
}

/// A list that agrees with the baseline still does with one more result
/// that is the last answer of the baseline, for a later query.
pub proof fn lemma_agrees_push(list: Seq<BenchmarkResult>, baseline: Seq<BenchmarkResult>, more: BenchmarkResult)
    requires
        agrees_with(list, baseline),
        baseline.len() > 0,
        same_answer(more, baseline.last()),
        forall|k: int| 0 <= k < list.len() ==> (#[trigger] list[k]).query_id < more.query_id,
    ensures
        agrees_with(list.push(more), baseline),
{
    let longer = list.push(more);
    assert forall|k: int| 0 <= k < longer.len() implies has_answer(baseline, #[trigger] longer[k]) by {
        if k < list.len() {
            assert(longer[k] == list[k]);
            assert(has_answer(baseline, list[k]));
        } else {
            let j = baseline.len() - 1;
            assert(same_answer(longer[k], baseline[j]));
        }
    }
    assert forall|k: int, l: int| 0 <= k < l < longer.len() implies (#[trigger] longer[k]).query_id < (
    #[trigger] longer[l]).query_id by {
        assert(longer[k] == list[k]);
        if l < list.len() {
            assert(longer[l] == list[l]);
        }
    }
}

/// Every result of `list` answers one of `queries`.
pub open spec fn all_answer(arcs: Set<Arc>, queries: Seq<(u32, u32)>, list: Seq<BenchmarkResult>) -> bool {
    forall|i: int| 0 <= i < list.len() ==> answers(arcs, queries, #[trigger] list[i])
}

/// The engines whose results are held against those of uniform-cost
/// search.
pub enum Engine {
    /// Guided search.
    AStar,
    /// Bidirectional search.
    BdDijkstra,
    /// Bidirectional search over the contraction.
    Ch,
}

/// What guided search may hand back for the query `query_id` from `s` to
/// `t`, run over `nav` with `estimates`.
pub open spec fn is_a_star_outcome(
    nav: &InMemoryGraph,
    s: u32,
    t: u32,
    query_id: usize,
    estimates: Seq<u64>,
    r: Option<BenchmarkResult>,
) -> bool {
    &&& consistent(nav.graph().arcs(), estimates) ==> is_search_result(
        nav.graph().arcs(),
        s as int,
        t as int,
        length_of(r),
    )
    &&& match r {
        Some(b) => {
            &&& b.query_id == query_id
            &&& b.start_node == nav.graph().nodes@[s as int]
            &&& b.end_node == nav.graph().nodes@[t as int]
            &&& b.distance < u32::MAX
            &&& exists|route: Seq<u32>|
                route.len() == b.nmb_nodes && #[trigger] is_reported_route_within(
                    nav.graph().arcs(),
                    s as int,
                    t as int,
                    route,
                    b.distance as nat,
                )
        },
        None => true,
    }
}

/// What bidirectional search may hand back for the query `query_id` from
/// `s` to `t`, run over `nav`.
pub open spec fn is_bd_outcome(nav: &InMemoryGraph, s: u32, t: u32, query_id: usize, r: Option<BenchmarkResult>) -> bool {
    &&& undirected(nav.graph().arcs()) ==> is_search_result(nav.graph().arcs(), s as int, t as int, length_of(r))
    &&& match r {
        Some(b) => {
            &&& b.query_id == query_id
            &&& b.start_node == nav.graph().nodes@[s as int]
            &&& b.end_node == nav.graph().nodes@[t as int]
            &&& b.distance < u32::MAX
            &&& exists|route: Seq<u32>| #[trigger]
                is_way_between(both_ways(nav.graph().arcs()), route, s, t, b.nmb_nodes as int, b.distance as nat)
        },
        None => true,
    }
}

/// What bidirectional search over the contraction may hand back for the
/// query `query_id` from `s` to `t`, run over `nav`.
pub open spec fn is_ch_outcome(nav: &InMemoryGraph, s: u32, t: u32, query_id: usize, r: Option<BenchmarkResult>) -> bool {
    &&& undirected(nav.contraction().graph.arcs()) && always_unwraps(
        nav.contraction().get_shortcuts@,
        MAX_NESTING as nat,
    ) ==> is_search_result(nav.contraction().graph.arcs(), s as int, t as int, length_of(r))
    &&& forall|under: Set<Arc>|
        undirected(under) && #[trigger] same_reach(under, nav.contraction().graph.arcs()) && always_unwraps(
            nav.contraction().get_shortcuts@,
            MAX_NESTING as nat,
        ) ==> is_search_result(under, s as int, t as int, length_of(r))
    &&& match r {
        Some(b) => {
            &&& b.query_id == query_id
            &&& b.start_node == nav.graph().nodes@[s as int]
            &&& b.end_node == nav.graph().nodes@[t as int]
            &&& b.distance < u32::MAX
            &&& undirected(nav.contraction().graph.arcs()) ==> is_shortest(
                nav.contraction().graph.arcs(),
                s as int,
                t as int,
                b.distance as nat,
            )
            &&& is_ch_answer(
                nav.contraction().graph.arcs(),
                nav.contraction().get_shortcuts@,
                MAX_NESTING as nat,
                s as int,
                t as int,
                b,
            )
        },
        None => true,
    }
}

/// What the engine `engine` may hand back for the query `query_id` from
/// `s` to `t`, run over `nav`; `estimates` are those that guided search
/// is given.
pub open spec fn is_outcome(
    engine: Engine,
    nav: &InMemoryGraph,
    s: u32,
    t: u32,
    query_id: usize,
    estimates: Seq<u64>,
    r: Option<BenchmarkResult>,
) -> bool {
    match engine {
        Engine::AStar => is_a_star_outcome(nav, s, t, query_id, estimates, r),
        Engine::BdDijkstra => is_bd_outcome(nav, s, t, query_id, r),
        Engine::Ch => is_ch_outcome(nav, s, t, query_id, r),
    }
}

/// The outcome `other` of an engine is kept beside the result `baseline`
/// of uniform-cost search: it is a result of the same length and the same
/// number of nodes.
pub open spec fn keeps(baseline: BenchmarkResult, other: Option<BenchmarkResult>) -> bool {
    match other {
        Some(b) => b.nmb_nodes == baseline.nmb_nodes && b.distance == baseline.distance,
        None => false,
    }
}

/// `list` holds a result for the query `query_id`.
pub open spec fn has_result_for(list: Seq<BenchmarkResult>, query_id: usize) -> bool {
    exists|j: int| 0 <= j < list.len() && (#[trigger] list[j]).query_id == query_id
}

/// The engine may hand back, for the query that `b` answers, an outcome
/// that is not kept beside `b`.
pub open spec fn may_drop(
    engine: Engine,
    nav: &InMemoryGraph,
    queries: Seq<(u32, u32)>,
    estimates: Seq<Vec<u64>>,
    b: BenchmarkResult,
) -> bool {
    exists|o: Option<BenchmarkResult>| #[trigger]
        is_outcome(
            engine,
            nav,
            queries[b.query_id as int].0,
            queries[b.query_id as int].1,
            b.query_id,
            estimates[b.query_id as int]@,
            o,
        ) && !keeps(b, o)
}

/// `list` leaves out a query that `baseline` answers only where the
/// engine may hand back an outcome that is not kept: no way, another
/// length, or another number of nodes.
pub open spec fn drops_only_differing(
    engine: Engine,
    nav: &InMemoryGraph,
    queries: Seq<(u32, u32)>,
    estimates: Seq<Vec<u64>>,
    list: Seq<BenchmarkResult>,
    baseline: Seq<BenchmarkResult>,
) -> bool {
    forall|k: int|
        0 <= k < baseline.len() ==> has_result_for(list, (#[trigger] baseline[k]).query_id) || may_drop(
            engine,
            nav,
            queries,
            estimates,
            baseline[k],
        )
}

/// A result that is kept beside the next result of the baseline leaves no
/// query out.
pub proof fn lemma_kept_beside(
    engine: Engine,
    nav: &InMemoryGraph,
    queries: Seq<(u32, u32)>,
    estimates: Seq<Vec<u64>>,
    list: Seq<BenchmarkResult>,
    baseline: Seq<BenchmarkResult>,
    kept: BenchmarkResult,
    next: BenchmarkResult,
)
    requires
        drops_only_differing(engine, nav, queries, estimates, list, baseline),
        kept.query_id == next.query_id,
    ensures
        drops_only_differing(engine, nav, queries, estimates, list.push(kept), baseline.push(next)),
{
    let longer = list.push(kept);
    let more = baseline.push(next);
    assert forall|k: int| 0 <= k < more.len() implies has_result_for(longer, (#[trigger] more[k]).query_id) || may_drop(
        engine,
        nav,
        queries,
        estimates,
        more[k],
    ) by {
        if k < baseline.len() {
            assert(more[k] == baseline[k]);
            if has_result_for(list, baseline[k].query_id) {
                let j = choose|j: int| 0 <= j < list.len() && (#[trigger] list[j]).query_id == baseline[k].query_id;
                assert(longer[j].query_id == baseline[k].query_id);
            }
        } else {
            assert(longer[list.len() as int].query_id == next.query_id);
        }
    }
}

/// Where the engine has handed back an outcome that is not kept beside
/// the next result of the baseline, the query is left out.
pub proof fn lemma_dropped_beside(
    engine: Engine,
    nav: &InMemoryGraph,
    queries: Seq<(u32, u32)>,
    estimates: Seq<Vec<u64>>,
    list: Seq<BenchmarkResult>,
    baseline: Seq<BenchmarkResult>,
    next: BenchmarkResult,
)
    requires
        drops_only_differing(engine, nav, queries, estimates, list, baseline),
        may_drop(engine, nav, queries, estimates, next),
    ensures
        drops_only_differing(engine, nav, queries, estimates, list, baseline.push(next)),
{
    let more = baseline.push(next);
    assert forall|k: int| 0 <= k < more.len() implies has_result_for(list, (#[trigger] more[k]).query_id) || may_drop(
        engine,
        nav,
        queries,
        estimates,
        more[k],
    ) by {
        if k < baseline.len() {
            assert(more[k] == baseline[k]);
        }
    }
}

impl InMemoryGraph {
    /// The graph.
    pub closed spec fn graph(&self) -> GridGraph {
        self.graph
    }

    /// The contraction of the graph.
    pub closed spec fn contraction(&self) -> CNMetadata {
        self.cn_metadata
    }

    /// The graph and its contraction can be searched, and have the same
    /// nodes.
    pub open spec fn wf(&self) -> bool {
        &&& self.graph().wf()
        &&& self.contraction().graph.wf()
        &&& self.contraction().graph.node_count() == self.graph().node_count()
    }

    /// Decides [`InMemoryGraph::wf`].
    pub fn is_well_formed(&self) -> (ok: bool)
        ensures
            ok == self.wf(),
    {
        self.graph.is_well_formed() && self.cn_metadata.graph.is_well_formed() && self.cn_metadata.graph.edges.len()
            == self.graph.edges.len()
    }

    /// The navigator over `graph` and its contraction `cn_metadata`.
    pub fn new(graph: GridGraph, cn_metadata: CNMetadata) -> (n: InMemoryGraph)
        ensures
            n.graph() == graph,
            n.contraction() == cn_metadata,
    {
        InMemoryGraph { graph, cn_metadata }
    }

    /// Number of nodes of the graph.
    pub fn get_number_nodes(&self) -> (n: u32)
        requires
            self.wf(),
        ensures
            n == self.graph().node_count(),
    {
        self.graph.nodes.len() as u32
    }

    /// `count + 1` nodes picked at random, none twice, or all nodes where
    /// there are fewer: each with its successor makes a query.
    pub fn random_nodes(&self, nmb_queries: usize) -> (picked: Vec<u32>)
        requires
            self.wf(),
            nmb_queries < usize::MAX,
        ensures
            picked@.len() == (if nmb_queries + 1 < self.graph().node_count() {
                nmb_queries + 1
            } else {
                self.graph().node_count()
            }),
            picked@.no_duplicates(),
            forall|i: int| 0 <= i < picked@.len() ==> picked@[i] < self.graph().node_count(),
    {
        let n: usize = self.graph.edges.len();
        let mut ids: Vec<u32> = Vec::with_capacity(n);
        let mut i: usize = 0;
        while i < n
            invariant
                i <= n,
                n < u32::MAX,
                ids@.len() == i,
                forall|j: int| 0 <= j < i ==> ids@[j] == j,
            decreases n - i,
        {
            ids.push(i as u32);
            i += 1;
        }
        let picked = choose_multiple(&ids, nmb_queries + 1);
        proof {
            let positions = choose|positions: Seq<int>|
                {
                    &&& positions.len() == picked@.len()
                    &&& positions.no_duplicates()
                    &&& forall|i: int|
                        0 <= i < picked@.len() ==> 0 <= #[trigger] positions[i] < ids@.len() && picked@[i]
                            == ids@[positions[i]]
                };
            assert forall|i: int| 0 <= i < picked@.len() implies picked@[i] < self.graph().node_count() by {
                assert(0 <= positions[i] < ids@.len());
            }
            assert forall|i: int, j: int| 0 <= i < picked@.len() && 0 <= j < picked@.len() && i != j implies picked@[i]
                != picked@[j] by {
                assert(0 <= positions[i] < ids@.len() && 0 <= positions[j] < ids@.len());
                assert(positions[i] != positions[j]);
            }
        }
        picked
    }

    /// Runs uniform-cost search for one query, and times it. The result
    /// holds the shortest length, the number of nodes of the way that was
    /// found, and the count of items that the search took from its heap,
    /// which is no less than that number.
    pub fn benchmark_dijkstra(&self, start_node: u32, end_node: u32, query_id: usize) -> (r: Option<BenchmarkResult>)
        requires
            self.wf(),
            start_node < self.graph().node_count(),
            end_node < self.graph().node_count(),
        ensures
            is_search_result(self.graph().arcs(), start_node as int, end_node as int, length_of(r)),
            r matches Some(b) ==> b.amount_nodes_popped == u32::MAX || b.amount_nodes_popped >= b.nmb_nodes,
            r matches Some(b) ==> b.query_id == query_id && b.start_node == self.graph().nodes@[start_node as int]
                && b.end_node == self.graph().nodes@[end_node as int] && exists|
                route: Seq<u32>,
            |
                route.len() == b.nmb_nodes && #[trigger] is_reported_route(
                    self.graph().arcs(),
                    start_node as int,
                    end_node as int,
                    route,
                    b.distance as nat,
                ),
    {
        let mut dijkstra = Dijkstra::new(self.graph.adjacency_array(), start_node);
        let start_time = timer_start();
        dijkstra.change_source_node(start_node);
        match dijkstra.find_route(end_node) {
            Some(route_and_distance) => {
                let time: u64 = timer_nanos(&start_time);
                Some(
                    BenchmarkResult {
                        start_node: self.graph.nodes[start_node as usize],
                        end_node: self.graph.nodes[end_node as usize],
                        nmb_nodes: route_and_distance.0.len(),
                        distance: route_and_distance.1,
                        time,
                        query_id,
                        amount_nodes_popped: route_and_distance.2,
                    },
                )
            },
            None => None,
        }
    }

    /// Runs guided search for one query, with `estimates` for the distances
    /// to its end, and times it.
    pub fn benchmark_a_star(&self, start_node: u32, end_node: u32, query_id: usize, estimates: &Vec<u64>) -> (r:
        Option<BenchmarkResult>)
        requires
            self.wf(),
            start_node < self.graph().node_count(),
            end_node < self.graph().node_count(),
            usable_estimates(estimates@, self.graph().node_count()),
        ensures
            is_a_star_outcome(self, start_node, end_node, query_id, estimates@, r),
    {
        let mut a_star = AStar::new(&self.graph, start_node);
        let start_time = timer_start();
        match a_star.find_route(end_node, estimates) {
            Some(route_and_distance) => {
                let time: u64 = timer_nanos(&start_time);
                proof {
                    assert(is_reported_route_within(
                        self.graph().arcs(),
                        start_node as int,
                        end_node as int,
                        route_and_distance.0@,
                        route_and_distance.1 as nat,
                    ));
                }
                Some(
                    BenchmarkResult {
                        start_node: self.graph.nodes[start_node as usize],
                        end_node: self.graph.nodes[end_node as usize],
                        nmb_nodes: route_and_distance.0.len(),
                        distance: route_and_distance.1,
                        time,
                        query_id,
                        amount_nodes_popped: route_and_distance.2,
                    },
                )
            },
            None => None,
        }
    }

    /// Runs bidirectional search for one query, and times it.
    pub fn benchmark_bd_dijkstra(&self, start_node: u32, end_node: u32, query_id: usize) -> (r: Option<
        BenchmarkResult,
    >)
        requires
            self.wf(),
            start_node < self.graph().node_count(),
            end_node < self.graph().node_count(),
        ensures
            is_bd_outcome(self, start_node, end_node, query_id, r),
    {
        let mut bd_dijkstra = BdDijkstra::new(&self.graph, start_node);
        let start_time = timer_start();
        match bd_dijkstra.find_route(end_node) {
            Some(route_and_distance) => {
                let time: u64 = timer_nanos(&start_time);
                let result = BenchmarkResult {
                    start_node: self.graph.nodes[start_node as usize],
                    end_node: self.graph.nodes[end_node as usize],
                    nmb_nodes: route_and_distance.0.len(),
                    distance: route_and_distance.1,
                    time,
                    query_id,
                    amount_nodes_popped: route_and_distance.2,
                };
                proof {
                    assert(is_way_between(
                        both_ways(self.graph().arcs()),
                        route_and_distance.0@,
                        start_node,
                        end_node,
                        result.nmb_nodes as int,
                        result.distance as nat,
                    ));
                }
                Some(result)
            },
            None => None,
        }
    }

    /// Runs bidirectional search over the contraction for one query, and
    /// times it.
    pub fn benchmark_ch(&self, start_node: u32, end_node: u32, query_id: usize) -> (r: Option<BenchmarkResult>)
        requires
            self.wf(),
            start_node < self.graph().node_count(),
            end_node < self.graph().node_count(),
        ensures
            is_ch_outcome(self, start_node, end_node, query_id, r),
    {
        let mut ch_bd_dijkstra = CNBdDijkstra::new(&self.cn_metadata, start_node);
        let start_time = timer_start();
        match ch_bd_dijkstra.find_route(end_node) {
            Some(route_and_distance) => {
                let time: u64 = timer_nanos(&start_time);
                let result = BenchmarkResult {
                    start_node: self.graph.nodes[start_node as usize],
                    end_node: self.graph.nodes[end_node as usize],
                    nmb_nodes: route_and_distance.0.len(),
                    distance: route_and_distance.1,
                    time,
                    query_id,
                    amount_nodes_popped: route_and_distance.2,
                };
                proof {
                    assert(route_and_distance.0@.len() == result.nmb_nodes && is_unwrapped_meeting(
                        self.contraction().graph.arcs(),
                        self.contraction().get_shortcuts@,
                        MAX_NESTING as nat,
                        start_node as int,
                        end_node as int,
                        ch_bd_dijkstra.meeting(),
                        route_and_distance.0@,
                        result.distance as nat,
                    ));
                }
                Some(result)
            },
            None => None,
        }
    }

    /// Runs every engine for every query, the first node of a query being
    /// its start and the second its end; `estimates` holds for every query
    /// the estimates of the distances to its end. A query that
    /// uniform-cost search finds no way for is left out. Of the other
    /// engines a result is kept where it has the length and the number of
    /// nodes that uniform-cost search found, and dropped where it has not:
    /// a list lacks a query that uniform-cost search answers only where
    /// its engine may hand back no way, another length or another number
    /// of nodes.
    pub fn run_benchmarks(&self, queries: &Vec<(u32, u32)>, estimates: &Vec<Vec<u64>>) -> (results: CollectedBenchmarks)
        requires
            self.wf(),
            estimates@.len() == queries@.len(),
            forall|i: int|
                0 <= i < queries@.len() ==> (#[trigger] queries@[i]).0 < self.graph().node_count() && queries@[i].1
                    < self.graph().node_count() && usable_estimates(estimates@[i]@, self.graph().node_count()),
        ensures
            all_answer(self.graph().arcs(), queries@, results.dijkstra.results@),
            all_answer(self.graph().arcs(), queries@, results.a_star.results@),
            all_answer(self.graph().arcs(), queries@, results.bd_dijkstra.results@),
            all_answer(self.graph().arcs(), queries@, results.ch.results@),
            results.a_star.results@.len() <= results.dijkstra.results@.len(),
            results.bd_dijkstra.results@.len() <= results.dijkstra.results@.len(),
            results.ch.results@.len() <= results.dijkstra.results@.len(),
            results.dijkstra.results@.len() <= queries@.len(),
            is_baseline(self.graph().arcs(), queries@, queries@.len() as int, results.dijkstra.results@),
            agrees_with(results.a_star.results@, results.dijkstra.results@),
            agrees_with(results.bd_dijkstra.results@, results.dijkstra.results@),
            agrees_with(results.ch.results@, results.dijkstra.results@),
            drops_only_differing(
                Engine::AStar,
                self,
                queries@,
                estimates@,
                results.a_star.results@,
                results.dijkstra.results@,
            ),
            drops_only_differing(
                Engine::BdDijkstra,
                self,
                queries@,
                estimates@,
                results.bd_dijkstra.results@,
                results.dijkstra.results@,
            ),
            drops_only_differing(Engine::Ch, self, queries@, estimates@, results.ch.results@, results.dijkstra.results@),
    {
        let ghost arcs = self.graph().arcs();
        let mut dijkstra_results_list: Vec<BenchmarkResult> = Vec::new();
        let mut a_star_results_list: Vec<BenchmarkResult> = Vec::new();
        let mut bd_dijkstra_results_list: Vec<BenchmarkResult> = Vec::new();
        let mut ch_results_list: Vec<BenchmarkResult> = Vec::new();
        let mut i: usize = 0;
        while i < queries.len()
            invariant
                self.wf(),
                arcs == self.graph().arcs(),
                i <= queries@.len(),
                estimates@.len() == queries@.len(),
                forall|k: int|
                    0 <= k < queries@.len() ==> (#[trigger] queries@[k]).0 < self.graph().node_count() && queries@[k].1
                        < self.graph().node_count() && usable_estimates(estimates@[k]@, self.graph().node_count()),
                all_answer(arcs, queries@, dijkstra_results_list@),
                all_answer(arcs, queries@, a_star_results_list@),
                all_answer(arcs, queries@, bd_dijkstra_results_list@),
                all_answer(arcs, queries@, ch_results_list@),
                dijkstra_results_list@.len() <= i,
                a_star_results_list@.len() <= dijkstra_results_list@.len(),
                bd_dijkstra_results_list@.len() <= dijkstra_results_list@.len(),
                ch_results_list@.len() <= dijkstra_results_list@.len(),
                is_baseline(arcs, queries@, i as int, dijkstra_results_list@),
                agrees_with(a_star_results_list@, dijkstra_results_list@),
                agrees_with(bd_dijkstra_results_list@, dijkstra_results_list@),
                agrees_with(ch_results_list@, dijkstra_results_list@),
                drops_only_differing(
                    Engine::AStar,
                    self,
                    queries@,
                    estimates@,
                    a_star_results_list@,
                    dijkstra_results_list@,
                ),
                drops_only_differing(
                    Engine::BdDijkstra,
                    self,
                    queries@,
                    estimates@,
                    bd_dijkstra_results_list@,
                    dijkstra_results_list@,
                ),
                drops_only_differing(Engine::Ch, self, queries@, estimates@, ch_results_list@, dijkstra_results_list@),
                forall|k: int| 0 <= k < a_star_results_list@.len() ==> (#[trigger] a_star_results_list@[k]).query_id < i,
                forall|k: int|
                    0 <= k < bd_dijkstra_results_list@.len() ==> (#[trigger] bd_dijkstra_results_list@[k]).query_id
                        < i,
                forall|k: int| 0 <= k < ch_results_list@.len() ==> (#[trigger] ch_results_list@[k]).query_id < i,
            decreases queries@.len() - i,
        {
            let start_node: u32 = queries[i].0;
            let end_node: u32 = queries[i].1;
            proof {
                assert(queries@[i as int].0 < self.graph().node_count());
            }
            let possible_dijkstra_result = self.benchmark_dijkstra(start_node, end_node, i);
            if let Some(dijkstra_result) = possible_dijkstra_result {
                let ghost baseline = dijkstra_results_list@;
                proof {
                    assert(reaches(arcs, start_node as int, end_node as int, dijkstra_result.distance as nat));
                    assert(!out_of_reach(arcs, start_node as int, end_node as int));
                }
                keep(&mut dijkstra_results_list, dijkstra_result, Ghost(arcs), Ghost(queries@));
                proof {
                    assert(dijkstra_results_list@.last() == dijkstra_result);
                    assert forall|k: int| 0 <= k < dijkstra_results_list@.len() implies (
                    #[trigger] dijkstra_results_list@[k]).query_id == answered(arcs, queries@, i + 1)[k] by {
                        if k < baseline.len() {
                            assert(dijkstra_results_list@[k] == baseline[k]);
                        }
                    }
                }
                let a_star_outcome = self.benchmark_a_star(start_node, end_node, i, &estimates[i]);
                keep_if_same(
                    &mut a_star_results_list,
                    &dijkstra_result,
                    a_star_outcome,
                    Ghost(Engine::AStar),
                    Ghost(self),
                    Ghost(queries@),
                    Ghost(estimates@),
                    Ghost(baseline),
                );
                let bd_dijkstra_outcome = self.benchmark_bd_dijkstra(start_node, end_node, i);
                keep_if_same(
                    &mut bd_dijkstra_results_list,
                    &dijkstra_result,
                    bd_dijkstra_outcome,
                    Ghost(Engine::BdDijkstra),
                    Ghost(self),
                    Ghost(queries@),
                    Ghost(estimates@),
                    Ghost(baseline),
                );
                let ch_outcome = self.benchmark_ch(start_node, end_node, i);
                keep_if_same(
                    &mut ch_results_list,
                    &dijkstra_result,
                    ch_outcome,
                    Ghost(Engine::Ch),
                    Ghost(self),
                    Ghost(queries@),
                    Ghost(estimates@),
                    Ghost(baseline),
                );
            } else {
                proof {
                    assert(out_of_reach(arcs, start_node as int, end_node as int));
                }
            }
            i += 1;
        }
        CollectedBenchmarks {
            dijkstra: AlgoBenchmark { results: dijkstra_results_list },
            a_star: AlgoBenchmark { results: a_star_results_list },
            bd_dijkstra: AlgoBenchmark { results: bd_dijkstra_results_list },
            ch: AlgoBenchmark { results: ch_results_list },
        }
    }
}

/// The length of a result, if there is one.
pub open spec fn length_of(r: Option<BenchmarkResult>) -> Option<u32> {
    match r {
        Some(b) => Some(b.distance),
        None => None,
    }
}

/// Holds the outcome of an engine against the result `baseline` of
/// uniform-cost search for the same query, and puts it at the end of
/// `list` where it is a result of the same length and the same number of
/// nodes; `earlier` holds the results of uniform-cost search for the
/// queries before.
fn keep_if_same(
    list: &mut Vec<BenchmarkResult>,
    baseline: &BenchmarkResult,
    outcome: Option<BenchmarkResult>,
    Ghost(engine): Ghost<Engine>,
    Ghost(nav): Ghost<&InMemoryGraph>,
    Ghost(queries): Ghost<Seq<(u32, u32)>>,
    Ghost(estimates): Ghost<Seq<Vec<u64>>>,
    Ghost(earlier): Ghost<Seq<BenchmarkResult>>,
)
    requires
        all_answer(nav.graph().arcs(), queries, old(list)@),
        answers(nav.graph().arcs(), queries, *baseline),
        agrees_with(old(list)@, earlier),
        drops_only_differing(engine, nav, queries, estimates, old(list)@, earlier),
        forall|k: int| 0 <= k < old(list)@.len() ==> (#[trigger] old(list)@[k]).query_id < baseline.query_id,
        is_outcome(
            engine,
            nav,
            queries[baseline.query_id as int].0,
            queries[baseline.query_id as int].1,
            baseline.query_id,
            estimates[baseline.query_id as int]@,
            outcome,
        ),
    ensures
        all_answer(nav.graph().arcs(), queries, final(list)@),
        agrees_with(final(list)@, earlier.push(*baseline)),
        drops_only_differing(engine, nav, queries, estimates, final(list)@, earlier.push(*baseline)),
        forall|k: int| 0 <= k < final(list)@.len() ==> (#[trigger] final(list)@[k]).query_id <= baseline.query_id,
        final(list)@ == old(list)@ || (keeps(*baseline, outcome) && final(list)@ == old(list)@.push(outcome.unwrap())),
        keeps(*baseline, outcome) ==> final(list)@ == old(list)@.push(outcome.unwrap()),
{
    proof {
        lemma_agrees_grows(list@, earlier, *baseline);
    }
    match outcome {
        Some(result) => {
            if is_kept(baseline, &result) {
                proof {
                    lemma_agrees_push(list@, earlier.push(*baseline), result);
                    lemma_kept_beside(engine, nav, queries, estimates, list@, earlier, result, *baseline);
                }
                keep(list, result, Ghost(nav.graph().arcs()), Ghost(queries));
                return ;
            }
        },
        None => {},
    }
    proof {
        assert(!keeps(*baseline, outcome));
        lemma_dropped_beside(engine, nav, queries, estimates, list@, earlier, *baseline);
    }
}

/// Puts a result that answers a query at the end of a list of such
/// results.
fn keep(list: &mut Vec<BenchmarkResult>, result: BenchmarkResult, Ghost(arcs): Ghost<Set<Arc>>, Ghost(queries): Ghost<
    Seq<(u32, u32)>,
>)
    requires
        all_answer(arcs, queries, old(list)@),
        answers(arcs, queries, result),
    ensures
        all_answer(arcs, queries, final(list)@),
        final(list)@.len() == old(list)@.len() + 1,
        final(list)@ == old(list)@.push(result),
{
    let ghost earlier = list@;
    list.push(result);
    proof {
        assert forall|i: int| 0 <= i < list@.len() implies answers(arcs, queries, #[trigger] list@[i]) by {
            if i < earlier.len() {
                assert(list@[i] == earlier[i]);
            }
        }
    }
}

} // verus!
