use vstd::prelude::*;
use std::collections::HashMap;
use crate::model::adjacency_array::{AdjacencyArray, Arc};
use crate::model::grid_graph::{GridGraph, Edge};
use crate::model::cn_model::{Shortcut, CNMetadata, shortcuts_ok};
use crate::algorithms::paths::{reaches, reaches_in, is_route, is_search_result, ids, out_of_reach,
    lemma_route_reaches, lemma_route_mono, lemma_reaches_via, lemma_reaches_in_mono, undirected};
use crate::algorithms::witness_search::{WitnessSearch, is_witness, slice_contains, wanted};
use crate::algorithms::search_core::visible_arcs;

verus! {

/// The arc that an edge stands for.
pub open spec fn edge_arc(e: Edge) -> Arc {
    (e.source as int, e.target as int, e.distance as nat)
}

/// A shortcut as contracts speak of it: the way that it replaces, and its
/// edge.
pub type Made = (Seq<u32>, Edge);

/// The arcs of the shortcuts in `log`.
pub open spec fn made_arcs(log: Seq<Made>) -> Set<Arc> {
    Set::new(|a: Arc| exists|i: int| 0 <= i < log.len() && edge_arc(#[trigger] log[i].1) == a)
}

/// The shortcuts that `map` holds.
pub open spec fn entries(map: Map<u32, Vec<Shortcut>>) -> Set<Made> {
    Set::new(
        |m: Made|
            map.contains_key(m.1.source) && exists|i: int|
                0 <= i < map[m.1.source]@.len() && (#[trigger] map[m.1.source]@[i]).edge == m.1
                    && map[m.1.source]@[i].replaced_edges@ == m.0,
    )
}

/// Every shortcut stands in the list of the node that it leaves, and no
/// node has an empty list.
pub open spec fn keyed(map: Map<u32, Vec<Shortcut>>) -> bool {
    &&& forall|k: u32, i: int|
        map.contains_key(k) && 0 <= i < map[k]@.len() ==> (#[trigger] map[k]@[i]).edge.source == k
    &&& forall|k: u32| #[trigger] map.contains_key(k) ==> map[k]@.len() >= 1
}

/// The edges of the first `upto` shortcuts of `list`, in their order.
pub open spec fn edges_of(list: Seq<Shortcut>, upto: int) -> Seq<Edge> {
    Seq::new(upto as nat, |i: int| list[i].edge)
}

/// The edges of the shortcuts that leave the node `v`, in the order in
/// which they were made.
pub open spec fn shortcut_edges(map: Map<u32, Vec<Shortcut>>, v: int) -> Seq<Edge> {
    if 0 <= v <= u32::MAX && map.contains_key(v as u32) {
        edges_of(map[v as u32]@, map[v as u32]@.len() as int)
    } else {
        Seq::empty()
    }
}

/// The contracted graph `g` lists, for every node, the edges that the
/// graph has for it, and then the edges of its shortcuts; its nodes are
/// those of the graph.
pub open spec fn is_merged(graph: &GridGraph, map: Map<u32, Vec<Shortcut>>, g: &GridGraph) -> bool {
    &&& g.nodes@ == graph.nodes@
    &&& g.edges@.len() == graph.edges@.len()
    &&& forall|v: int|
        0 <= v < graph.edges@.len() ==> (#[trigger] g.edges@[v])@ == graph.edges@[v]@ + shortcut_edges(map, v)
}

/// No two shortcuts of a list lead to the same node: there is one
/// shortcut at most from a node to another.
pub open spec fn one_per_pair(map: Map<u32, Vec<Shortcut>>) -> bool {
    forall|k: u32, i: int, j: int|
        map.contains_key(k) && 0 <= i < j < map[k]@.len() ==> (#[trigger] map[k]@[i]).edge.target != (
        #[trigger] map[k]@[j]).edge.target
}

/// The shortcut at position `k` of `log` is sound: it joins two of the `n`
/// nodes over a way of three nodes at least, which leads from its source
/// to its target over arcs of the graph and earlier shortcuts, and whose
/// length is that of the shortcut; and no arc of the graph between these
/// two nodes is shorter.
pub open spec fn sound_at(orig: Set<Arc>, log: Seq<Made>, n: int, k: int) -> bool {
    let (way, edge) = log[k];
    &&& edge.source < n
    &&& edge.target < n
    &&& way.len() >= 3
    &&& way[0] == edge.source
    &&& way.last() == edge.target
    &&& is_route(orig.union(made_arcs(log.take(k))), ids(way), edge.distance as nat)
    &&& no_shorter_arc(orig, edge)
}

/// No arc of `orig` between the ends of `edge` is shorter than it.
pub open spec fn no_shorter_arc(orig: Set<Arc>, edge: Edge) -> bool {
    forall|w: nat| #[trigger] orig.contains((edge.source as int, edge.target as int, w)) ==> edge.distance <= w
}

/// Every shortcut of `log` is sound, and no two join the same nodes in
/// the same direction.
pub open spec fn log_sound(orig: Set<Arc>, log: Seq<Made>, n: int) -> bool {
    &&& forall|k: int| 0 <= k < log.len() ==> #[trigger] sound_at(orig, log, n, k)
    &&& forall|i: int, j: int|
        0 <= i < j < log.len() ==> !((#[trigger] log[i]).1.source == (#[trigger] log[j]).1.source && log[i].1.target
            == log[j].1.target)
}

/// `meta` is a contraction of the graph of `n` nodes with the arcs `orig`:
/// its graph holds the arcs of `orig` and those of its shortcuts, and its
/// shortcuts can be put in an order in which each is sound.
pub open spec fn contracts(orig: Set<Arc>, n: int, meta: &CNMetadata, log: Seq<Made>) -> bool {
    &&& meta.graph.wf()
    &&& meta.graph.node_count() == n
    &&& meta.graph.arcs() == orig.union(made_arcs(log))
    &&& shortcuts_ok(meta.get_shortcuts@)
    &&& keyed(meta.get_shortcuts@)
    &&& one_per_pair(meta.get_shortcuts@)
    &&& entries(meta.get_shortcuts@) == log.to_set()
    &&& log_sound(orig, log, n)
}

/// Every arc of a graph with sound shortcuts stands for a way of the same
/// length over the arcs of the graph alone.
pub proof fn lemma_made_reaches(orig: Set<Arc>, log: Seq<Made>, n: int, k: int)
    requires
        log_sound(orig, log, n),
        0 <= k <= log.len(),
    ensures
        forall|a: Arc| #[trigger] orig.union(made_arcs(log.take(k))).contains(a) ==> reaches(orig, a.0, a.1, a.2),
    decreases k,
{
    let here = orig.union(made_arcs(log.take(k)));
    assert forall|a: Arc| #[trigger] here.contains(a) implies reaches(orig, a.0, a.1, a.2) by {
        if orig.contains(a) {
            crate::algorithms::paths::lemma_reaches_self(orig, a.0);
            crate::algorithms::paths::lemma_reaches_extend(orig, a.0, a.0, a.1, 0, a.2);
        } else {
            let i = choose|i: int| 0 <= i < log.take(k).len() && edge_arc(#[trigger] log.take(k)[i].1) == a;
            assert(log.take(k)[i] == log[i]);
            assert(sound_at(orig, log, n, i));
            let (way, edge) = log[i];
            let before = orig.union(made_arcs(log.take(i)));
            lemma_made_reaches(orig, log, n, i);
            lemma_route_reaches(before, ids(way), edge.distance as nat);
            lemma_reaches_via(before, orig, ids(way)[0], ids(way).last(), edge.distance as nat, (way.len() - 1) as nat);
        }
    }
}

/// A route is a path: every two of its neighbours are joined by an arc.
pub proof fn lemma_route_is_path(arcs: Set<Arc>, route: Seq<u32>, d: nat)
    requires
        is_route(arcs, ids(route), d),
    ensures
        crate::algorithms::unwrap_shortcuts::is_node_path(arcs, route),
{
    let lengths = crate::algorithms::paths::lemma_route_profile(arcs, ids(route), d);
    assert forall|i: int| 0 <= i < route.len() - 1 implies crate::algorithms::unwrap_shortcuts::linked(
        arcs,
        #[trigger] route[i] as int,
        route[i + 1] as int,
    ) by {
        assert(lengths[i] <= lengths[i + 1]);
        assert(arcs.contains((ids(route)[i], ids(route)[i + 1], (lengths[i + 1] - lengths[i]) as nat)));
    }
}

/// The ways that the shortcuts of a contraction replace are paths over the
/// contracted graph.
pub proof fn lemma_contraction_ways(orig: Set<Arc>, n: int, meta: &CNMetadata, log: Seq<Made>)
    requires
        contracts(orig, n, meta, log),
    ensures
        crate::algorithms::unwrap_shortcuts::ways_are_paths(meta.graph.arcs(), meta.get_shortcuts@),
{
    let map = meta.get_shortcuts@;
    let aug = meta.graph.arcs();
    assert forall|k: u32, i: int| map.contains_key(k) && 0 <= i < map[k]@.len() implies {
        let s = #[trigger] map[k]@[i];
        &&& s.replaced_edges@.len() >= 2
        &&& s.replaced_edges@[0] == k
        &&& s.replaced_edges@.last() == s.edge.target
        &&& crate::algorithms::unwrap_shortcuts::is_node_path(aug, s.replaced_edges@)
    } by {
        let s = map[k]@[i];
        let m: Made = (s.replaced_edges@, s.edge);
        assert(s.edge.source == k);
        assert(map.contains_key(m.1.source) && 0 <= i < map[m.1.source]@.len() && map[m.1.source]@[i].edge == m.1
            && map[m.1.source]@[i].replaced_edges@ == m.0);
        assert(entries(map).contains(m));
        assert(log.to_set().contains(m));
        let idx = choose|idx: int| 0 <= idx < log.len() && log[idx] == m;
        assert(sound_at(orig, log, n, idx));
        let here = orig.union(made_arcs(log.take(idx)));
        assert(log_prefix(log.take(idx), log)) by {
            assert(log.take(idx).len() == idx);
            assert(log.take(log.take(idx).len() as int) =~= log.take(idx));
        }
        lemma_made_arcs_grow(log.take(idx), log);
        assert(here.subset_of(aug));
        lemma_route_mono(here, aug, ids(s.replaced_edges@), s.edge.distance as nat);
        lemma_route_is_path(aug, s.replaced_edges@, s.edge.distance as nat);
    }
}

/// The contracted graph adds to the graph only arcs that shortcuts stand
/// for.
pub proof fn lemma_contraction_adds(orig: Set<Arc>, n: int, meta: &CNMetadata, log: Seq<Made>)
    requires
        contracts(orig, n, meta, log),
    ensures
        crate::algorithms::unwrap_shortcuts::adds_shortcuts(orig, meta.graph.arcs(), meta.get_shortcuts@),
{
    let map = meta.get_shortcuts@;
    let aug = meta.graph.arcs();
    assert forall|a: u32, b: u32| #[trigger]
        crate::algorithms::unwrap_shortcuts::linked(aug, a as int, b as int)
            && !crate::algorithms::unwrap_shortcuts::linked(orig, a as int, b as int) implies crate::algorithms::unwrap_shortcuts::replaced(
        map,
        a,
        b,
    ) by {
        let w = choose|w: nat| aug.contains((a as int, b as int, w));
        let arc: Arc = (a as int, b as int, w);
        assert(!orig.contains(arc));
        assert(made_arcs(log).contains(arc));
        let i = choose|i: int| 0 <= i < log.len() && edge_arc(#[trigger] log[i].1) == arc;
        let m = log[i];
        assert(log.to_set().contains(m));
        assert(entries(map).contains(m));
        let at = choose|at: int|
            0 <= at < map[m.1.source]@.len() && (#[trigger] map[m.1.source]@[at]).edge == m.1
                && map[m.1.source]@[at].replaced_edges@ == m.0;
        assert(m.1.source == a && m.1.target == b);
        if crate::algorithms::unwrap_shortcuts::way_to(map[a]@, 0, b) is None {
            crate::algorithms::unwrap_shortcuts::lemma_way_all(map[a]@, 0, b, at);
        }
    }
}

/// A contraction without shortcuts is the graph itself, and every route
/// unwraps over it: this is what a build leaves of a graph of fewer than
/// a hundred nodes.
pub proof fn lemma_contraction_without_shortcuts(orig: Set<Arc>, n: int, meta: &CNMetadata, log: Seq<Made>, depth: nat)
    requires
        contracts(orig, n, meta, log),
        log.len() == 0,
    ensures
        meta.graph.arcs() == orig,
        crate::algorithms::unwrap_shortcuts::always_unwraps(meta.get_shortcuts@, depth),
{
    let map = meta.get_shortcuts@;
    assert(orig.union(made_arcs(log)) =~= orig);
    assert forall|k: u32| !map.contains_key(k) by {
        if map.contains_key(k) {
            let s = map[k]@[0];
            let m: Made = (s.replaced_edges@, s.edge);
            assert(s.edge.source == k);
            assert(map.contains_key(m.1.source) && 0 <= 0 < map[m.1.source]@.len() && map[m.1.source]@[0].edge == m.1
                && map[m.1.source]@[0].replaced_edges@ == m.0);
            assert(entries(map).contains(m));
            assert(log.to_set().contains(m));
        }
    }
    crate::algorithms::unwrap_shortcuts::lemma_plain_always_unwraps(map, depth);
}

/// Where every arc of the graph has a length above zero, so has every
/// shortcut: it is as long as a way of two arcs at least.
pub proof fn lemma_made_positive(orig: Set<Arc>, log: Seq<Made>, n: int, k: int)
    requires
        log_sound(orig, log, n),
        crate::algorithms::paths::positive(orig),
        0 <= k <= log.len(),
    ensures
        crate::algorithms::paths::positive(orig.union(made_arcs(log.take(k)))),
    decreases k,
{
    let here = orig.union(made_arcs(log.take(k)));
    assert forall|a: Arc| #[trigger] here.contains(a) implies a.2 > 0 by {
        if !orig.contains(a) {
            let i = choose|i: int| 0 <= i < log.take(k).len() && edge_arc(#[trigger] log.take(k)[i].1) == a;
            assert(log.take(k)[i] == log[i]);
            assert(sound_at(orig, log, n, i));
            let (way, edge) = log[i];
            let before = orig.union(made_arcs(log.take(i)));
            lemma_made_positive(orig, log, n, i);
            let lengths = crate::algorithms::paths::lemma_route_profile(before, ids(way), edge.distance as nat);
            crate::algorithms::paths::lemma_profile_rises(before, ids(way), lengths, 0, way.len() - 1);
        }
    }
}

/// Over a contraction of a graph whose arcs all have a length above zero,
/// every route unwraps within the depth that a search allows: a search
/// that meets reports a way.
pub proof fn lemma_contraction_always_unwraps(orig: Set<Arc>, n: int, meta: &CNMetadata, log: Seq<Made>)
    requires
        contracts(orig, n, meta, log),
        crate::algorithms::paths::positive(orig),
    ensures
        crate::algorithms::unwrap_shortcuts::always_unwraps(
            meta.get_shortcuts@,
            crate::algorithms::unwrap_shortcuts::MAX_NESTING as nat,
        ),
{
    lemma_contraction_routes(orig, n, meta, log);
    lemma_made_positive(orig, log, n, log.len() as int);
    assert(log.take(log.len() as int) =~= log);
    crate::algorithms::unwrap_shortcuts::lemma_positive_always_unwraps(meta.graph.arcs(), meta.get_shortcuts@);
}

/// Every shortcut of a contraction leaves one of the nodes of the graph.
pub proof fn lemma_contraction_keys(orig: Set<Arc>, n: int, meta: &CNMetadata, log: Seq<Made>)
    requires
        contracts(orig, n, meta, log),
    ensures
        crate::algorithms::unwrap_shortcuts::leave_below(meta.get_shortcuts@, n),
{
    let map = meta.get_shortcuts@;
    assert forall|k: u32| #[trigger] map.contains_key(k) implies k < n by {
        let s = map[k]@[0];
        let m: Made = (s.replaced_edges@, s.edge);
        assert(s.edge.source == k);
        assert(map.contains_key(m.1.source) && 0 <= 0 < map[m.1.source]@.len() && map[m.1.source]@[0].edge == m.1
            && map[m.1.source]@[0].replaced_edges@ == m.0);
        assert(entries(map).contains(m));
        assert(log.to_set().contains(m));
        let idx = choose|idx: int| 0 <= idx < log.len() && log[idx] == m;
        assert(sound_at(orig, log, n, idx));
    }
}

/// The shortcuts of a contraction stand for ways over the graph that was
/// contracted, where its arcs have their reverses.
pub proof fn lemma_contraction_stands_for(orig: Set<Arc>, n: int, meta: &CNMetadata, log: Seq<Made>)
    requires
        contracts(orig, n, meta, log),
        undirected(orig),
    ensures
        crate::algorithms::cn_search::stands_for(orig, meta.graph.arcs(), meta.get_shortcuts@),
{
    lemma_contraction_routes(orig, n, meta, log);
}

/// Each shortcut of a contraction replaces a route over the contracted
/// graph of its own length, no arc of the contracted graph between its
/// ends is shorter, and the arcs that are not between the ends of a
/// shortcut are those of the graph that was contracted.
pub proof fn lemma_contraction_routes(orig: Set<Arc>, n: int, meta: &CNMetadata, log: Seq<Made>)
    requires
        contracts(orig, n, meta, log),
    ensures
        crate::algorithms::unwrap_shortcuts::ways_are_routes(meta.graph.arcs(), meta.get_shortcuts@),
        crate::algorithms::unwrap_shortcuts::none_shorter_than(meta.graph.arcs(), meta.get_shortcuts@),
        crate::algorithms::unwrap_shortcuts::plain_between(orig, meta.graph.arcs(), meta.get_shortcuts@),
{
    let map = meta.get_shortcuts@;
    let aug = meta.graph.arcs();
    assert forall|k: u32, i: int| map.contains_key(k) && 0 <= i < map[k]@.len() implies {
        let s = #[trigger] map[k]@[i];
        &&& s.replaced_edges@.len() >= 3
        &&& s.replaced_edges@[0] == k
        &&& s.replaced_edges@.last() == s.edge.target
        &&& is_route(aug, ids(s.replaced_edges@), s.edge.distance as nat)
        &&& forall|w: nat| #[trigger] aug.contains((k as int, s.edge.target as int, w)) ==> s.edge.distance <= w
    } by {
        let s = map[k]@[i];
        let m: Made = (s.replaced_edges@, s.edge);
        assert(s.edge.source == k);
        assert(map.contains_key(m.1.source) && 0 <= i < map[m.1.source]@.len() && map[m.1.source]@[i].edge == m.1
            && map[m.1.source]@[i].replaced_edges@ == m.0);
        assert(entries(map).contains(m));
        assert(log.to_set().contains(m));
        let idx = choose|idx: int| 0 <= idx < log.len() && log[idx] == m;
        assert(sound_at(orig, log, n, idx));
        let here = orig.union(made_arcs(log.take(idx)));
        assert(log_prefix(log.take(idx), log)) by {
            assert(log.take(idx).len() == idx);
            assert(log.take(log.take(idx).len() as int) =~= log.take(idx));
        }
        lemma_made_arcs_grow(log.take(idx), log);
        assert(here.subset_of(aug));
        lemma_route_mono(here, aug, ids(s.replaced_edges@), s.edge.distance as nat);
        assert forall|w: nat| #[trigger] aug.contains((k as int, s.edge.target as int, w)) implies s.edge.distance
            <= w by {
            let arc: Arc = (k as int, s.edge.target as int, w);
            if orig.contains(arc) {
                assert(no_shorter_arc(orig, s.edge));
            } else {
                assert(made_arcs(log).contains(arc));
                let j = choose|j: int| 0 <= j < log.len() && edge_arc(#[trigger] log[j].1) == arc;
                assert(log[j].1.source == log[idx].1.source && log[j].1.target == log[idx].1.target);
                assert(j == idx);
            }
        }
    }
    assert forall|a: u32, b: u32, w: nat| #[trigger]
        aug.contains((a as int, b as int, w)) && !crate::algorithms::unwrap_shortcuts::replaced(
            map,
            a,
            b,
        ) implies orig.contains((a as int, b as int, w)) by {
        let arc: Arc = (a as int, b as int, w);
        if !orig.contains(arc) {
            assert(made_arcs(log).contains(arc));
            let i = choose|i: int| 0 <= i < log.len() && edge_arc(#[trigger] log[i].1) == arc;
            let m = log[i];
            assert(log.to_set().contains(m));
            assert(entries(map).contains(m));
            let at = choose|at: int|
                0 <= at < map[m.1.source]@.len() && (#[trigger] map[m.1.source]@[at]).edge == m.1
                    && map[m.1.source]@[at].replaced_edges@ == m.0;
            assert(m.1.source == a && m.1.target == b);
            crate::algorithms::unwrap_shortcuts::lemma_way_all(map[a]@, 0, b, at);
        }
    }
}

/// The way that a search over a contraction reports is a way over the
/// graph that was contracted, and the lengths of the edges of that graph
/// along it add up to the length that the search reports, which is the
/// shortest: `route` is what the two halves of a meeting unwrap to over
/// the contraction `meta` of a graph whose arcs `orig` have their
/// reverses, and `distance` the length that is reported.
pub proof fn lemma_contraction_route_length(
    orig: Set<Arc>,
    n: int,
    meta: &CNMetadata,
    log: Seq<Made>,
    depth: nat,
    s: int,
    t: int,
    meeting: u32,
    route: Seq<u32>,
    distance: nat,
)
    requires
        contracts(orig, n, meta, log),
        undirected(orig),
        crate::algorithms::cn_search::is_unwrapped_meeting(
            meta.graph.arcs(),
            meta.get_shortcuts@,
            depth,
            s,
            t,
            meeting,
            route,
            distance,
        ),
        crate::algorithms::paths::is_shortest(orig, s, t, distance),
    ensures
        route.len() >= 1,
        route[0] == s,
        route.last() == t,
        is_route(orig, ids(route), distance),
{
    let aug = meta.graph.arcs();
    let map = meta.get_shortcuts@;
    lemma_contraction_stands_for(orig, n, meta, log);
    lemma_contraction_ways(orig, n, meta, log);
    lemma_contraction_adds(orig, n, meta, log);
    crate::algorithms::cn_search::lemma_meeting_length(orig, aug, map, depth, s, t, meeting, route, distance);
    crate::algorithms::cn_search::lemma_meeting_ends(aug, map, depth, s, t, meeting, route, distance);
    assert(ids(route).len() == route.len());
    let len = choose|len: nat| len <= distance && is_route(orig, ids(route), len);
    lemma_route_reaches(orig, ids(route), len);
    assert(ids(route)[0] == s && ids(route).last() == t);
}

/// What a search over the contracted graph reports, unwrapped, is a path
/// over the graph itself: where a path over the contracted graph unwraps,
/// every two neighbours of what it unwraps to are joined by an edge of the
/// graph that was contracted, and the ends are those of the path.
pub proof fn lemma_contraction_unwraps(
    orig: Set<Arc>,
    n: int,
    meta: &CNMetadata,
    log: Seq<Made>,
    found: Seq<u32>,
    depth: nat,
)
    requires
        contracts(orig, n, meta, log),
        found.len() >= 1,
        crate::algorithms::unwrap_shortcuts::is_node_path(meta.graph.arcs(), found),
        crate::algorithms::unwrap_shortcuts::unwrapped(found, meta.get_shortcuts@, depth) is Some,
    ensures
        crate::algorithms::unwrap_shortcuts::is_node_path(
            orig,
            crate::algorithms::unwrap_shortcuts::unwrapped(found, meta.get_shortcuts@, depth).unwrap(),
        ),
        crate::algorithms::unwrap_shortcuts::unwrapped(found, meta.get_shortcuts@, depth).unwrap()[0] == found[0],
        crate::algorithms::unwrap_shortcuts::unwrapped(found, meta.get_shortcuts@, depth).unwrap().last()
            == found.last(),
{
    lemma_contraction_ways(orig, n, meta, log);
    lemma_contraction_adds(orig, n, meta, log);
    crate::algorithms::unwrap_shortcuts::lemma_unwrap_is_plain_path(
        orig,
        meta.graph.arcs(),
        found,
        meta.get_shortcuts@,
        depth,
    );
}

/// The contracted graph reaches what the graph reaches, over the same
/// lengths. So a search over the contracted graph that is exact for every
/// graph of which this holds reports the lengths of the graph itself.
pub proof fn lemma_contraction_same_reach(orig: Set<Arc>, n: int, meta: &CNMetadata, log: Seq<Made>)
    requires
        contracts(orig, n, meta, log),
    ensures
        crate::algorithms::paths::same_reach(orig, meta.graph.arcs()),
{
    let aug = meta.graph.arcs();
    assert(orig.subset_of(aug));
    assert forall|s: int, t: int, d: nat| #[trigger] reaches(aug, s, t, d) implies reaches(orig, s, t, d) by {
        lemma_contraction_keeps_lengths(orig, n, meta, log, s, t, d);
    }
}

/// Contraction keeps lengths: what can be reached over the contracted
/// graph can be reached over the graph itself, over the same length, and
/// the other way round.
pub proof fn lemma_contraction_keeps_lengths(
    orig: Set<Arc>,
    n: int,
    meta: &CNMetadata,
    log: Seq<Made>,
    s: int,
    t: int,
    d: nat,
)
    requires
        contracts(orig, n, meta, log),
    ensures
        reaches(meta.graph.arcs(), s, t, d) <==> reaches(orig, s, t, d),
{
    let aug = meta.graph.arcs();
    assert(log.take(log.len() as int) =~= log);
    lemma_made_reaches(orig, log, n, log.len() as int);
    if reaches(aug, s, t, d) {
        let k = choose|k: nat| reaches_in(aug, s, t, d, k);
        lemma_reaches_via(aug, orig, s, t, d, k);
    }
    if reaches(orig, s, t, d) {
        let k = choose|k: nat| reaches_in(orig, s, t, d, k);
        assert(orig.subset_of(aug));
        lemma_reaches_in_mono(orig, aug, s, t, d, k);
    }
}

/// A search over the contracted graph reports what a search over the graph
/// itself reports: the shortest lengths are the same.
pub proof fn lemma_contraction_keeps_results(
    orig: Set<Arc>,
    n: int,
    meta: &CNMetadata,
    log: Seq<Made>,
    s: int,
    t: int,
    result: Option<u32>,
)
    requires
        contracts(orig, n, meta, log),
    ensures
        is_search_result(meta.graph.arcs(), s, t, result) <==> is_search_result(orig, s, t, result),
{
    let aug = meta.graph.arcs();
    assert forall|d: nat| reaches(aug, s, t, d) == reaches(orig, s, t, d) by {
        lemma_contraction_keeps_lengths(orig, n, meta, log, s, t, d);
    }
}

/// Number of shortcuts that `map` holds for the node `k`.
pub open spec fn held_at(map: Map<u32, Vec<Shortcut>>, k: int) -> int {
    if 0 <= k <= u32::MAX && map.contains_key(k as u32) {
        map[k as u32]@.len() as int
    } else {
        0
    }
}

/// Number of shortcuts that `map` holds for the nodes before `u`.
pub open spec fn held_before(map: Map<u32, Vec<Shortcut>>, u: int) -> int
    decreases u,
{
    if u <= 0 {
        0
    } else {
        held_before(map, u - 1) + held_at(map, u - 1)
    }
}

/// One more shortcut for the node `x` is one more for every later node.
pub proof fn lemma_held_grown(a: Map<u32, Vec<Shortcut>>, b: Map<u32, Vec<Shortcut>>, x: int, u: int)
    requires
        held_at(b, x) == held_at(a, x) + 1,
        forall|k: int| k != x ==> held_at(b, k) == held_at(a, k),
    ensures
        0 <= x < u ==> held_before(b, u) == held_before(a, u) + 1,
        u <= x ==> held_before(b, u) == held_before(a, u),
    decreases u,
{
    if u > 0 {
        lemma_held_grown(a, b, x, u - 1);
    }
}

/// A map without shortcuts holds none before any node.
pub proof fn lemma_held_none(map: Map<u32, Vec<Shortcut>>, u: int)
    requires
        forall|k: int| held_at(map, k) == 0,
    ensures
        held_before(map, u) == 0,
    decreases u,
{
    if u > 0 {
        lemma_held_none(map, u - 1);
    }
}

/// No node has more shortcuts before it than a later one.
pub proof fn lemma_held_grows(map: Map<u32, Vec<Shortcut>>, u: int, v: int)
    requires
        0 <= u <= v,
    ensures
        0 <= held_before(map, u) <= held_before(map, v),
    decreases v,
{
    if v > 0 {
        if u < v {
            lemma_held_grows(map, u, v - 1);
        } else {
            lemma_held_grows(map, u - 1, v - 1);
        }
    }
}

/// `true` when `map` holds a shortcut from `source` to `target`.
pub fn has_shortcut(map: &HashMap<u32, Vec<Shortcut>>, source: u32, target: u32) -> (found: bool)
    requires
        keyed(map@),
    ensures
        found == exists|m: Made| #[trigger] entries(map@).contains(m) && m.1.source == source && m.1.target == target,
{
    broadcast use vstd::std_specs::hash::group_hash_axioms;

    match map.get(&source) {
        None => {
            proof {
                assert forall|m: Made| #[trigger] entries(map@).contains(m) implies !(m.1.source == source && m.1.target
                    == target) by {}
            }
            false
        },
        Some(list) => {
            let mut contained: bool = false;
            let mut i: usize = 0;
            while i < list.len()
                invariant
                    i <= list@.len(),
                    keyed(map@),
                    map@.contains_key(source),
                    *list == map@[source],
                    contained == exists|j: int| 0 <= j < i && (#[trigger] list@[j]).edge.target == target,
                decreases list@.len() - i,
            {
                proof {
                    assert(map@[source]@[i as int].edge.source == source);
                }
                if list[i].edge.source == source && list[i].edge.target == target {
                    contained = true;
                }
                i += 1;
            }
            proof {
                if contained {
                    let j = choose|j: int| 0 <= j < list@.len() && (#[trigger] list@[j]).edge.target == target;
                    let m: Made = (list@[j].replaced_edges@, list@[j].edge);
                    assert(entries(map@).contains(m));
                } else {
                    assert forall|m: Made| #[trigger] entries(map@).contains(m) implies !(m.1.source == source
                        && m.1.target == target) by {
                        if m.1.source == source && m.1.target == target {
                            let j = choose|j: int|
                                0 <= j < map@[m.1.source]@.len() && (#[trigger] map@[m.1.source]@[j]).edge == m.1
                                    && map@[m.1.source]@[j].replaced_edges@ == m.0;
                            assert(list@[j].edge.target == target);
                        }
                    }
                }
            }
            contained
        },
    }
}

/// Puts `shortcut` at the end of the list of its source.
pub fn record_shortcut(map: &mut HashMap<u32, Vec<Shortcut>>, shortcut: Shortcut)
    requires
        keyed(old(map)@),
        shortcuts_ok(old(map)@),
        one_per_pair(old(map)@),
        shortcut.replaced_edges@.len() >= 2,
        forall|m: Made| #[trigger]
            entries(old(map)@).contains(m) ==> !(m.1.source == shortcut.edge.source && m.1.target
                == shortcut.edge.target),
    ensures
        keyed(final(map)@),
        shortcuts_ok(final(map)@),
        one_per_pair(final(map)@),
        entries(final(map)@) == entries(old(map)@).insert((shortcut.replaced_edges@, shortcut.edge)),
        held_at(final(map)@, shortcut.edge.source as int) == held_at(old(map)@, shortcut.edge.source as int) + 1,
        forall|k: int| k != shortcut.edge.source ==> held_at(final(map)@, k) == held_at(old(map)@, k),
{
    broadcast use vstd::std_specs::hash::group_hash_axioms;

    let key: u32 = shortcut.edge.source;
    let ghost made: Made = (shortcut.replaced_edges@, shortcut.edge);
    let mut list: Vec<Shortcut> = match map.remove(&key) {
        Some(list) => list,
        None => Vec::new(),
    };
    let ghost earlier = list@;
    let ghost without = map@;
    list.push(shortcut);
    let ghost later = list@;
    map.insert(key, list);
    proof {
        let before = old(map)@;
        let after = map@;
        assert(after.contains_key(key) && after[key]@ == later);
        assert(before.contains_key(key) ==> before[key]@ == earlier);
        assert(!before.contains_key(key) ==> earlier.len() == 0);
        assert forall|k: u32| k != key implies after.contains_key(k) == before.contains_key(k) && (after.contains_key(k)
            ==> after[k] == before[k]) by {}
        assert forall|k: u32, i: int| after.contains_key(k) && 0 <= i < after[k]@.len() implies (
        #[trigger] after[k]@[i]).edge.source == k && after[k]@[i].replaced_edges@.len() >= 2 by {
            if k == key {
                if i < earlier.len() {
                    assert(after[k]@[i] == before[k]@[i]);
                }
            } else {
                assert(after[k]@[i] == before[k]@[i]);
            }
        }
        assert forall|k: u32, i: int, j: int| after.contains_key(k) && 0 <= i < j < after[k]@.len() implies (
        #[trigger] after[k]@[i]).edge.target != (#[trigger] after[k]@[j]).edge.target by {
            if k == key {
                assert(after[k]@[i] == earlier[i]);
                if j < earlier.len() {
                    assert(after[k]@[j] == earlier[j]);
                    assert(before[k]@[i].edge.target != before[k]@[j].edge.target);
                } else {
                    let m: Made = (earlier[i].replaced_edges@, earlier[i].edge);
                    assert(before.contains_key(key));
                    assert(before[key]@[i].edge.source == key);
                    assert(before.contains_key(m.1.source) && 0 <= i < before[m.1.source]@.len() && before[m.1.source]@[i].edge
                        == m.1 && before[m.1.source]@[i].replaced_edges@ == m.0);
                    assert(entries(before).contains(m));
                }
            } else {
                assert(after[k]@[i] == before[k]@[i]);
                assert(after[k]@[j] == before[k]@[j]);
            }
        }
        assert forall|m: Made| entries(after).contains(m) == entries(before).insert(made).contains(m) by {
            let k = m.1.source;
            if entries(after).contains(m) {
                let i = choose|i: int|
                    0 <= i < after[k]@.len() && (#[trigger] after[k]@[i]).edge == m.1 && after[k]@[i].replaced_edges@
                        == m.0;
                if k == key {
                    if i < earlier.len() {
                        assert(before[k]@[i] == after[k]@[i]);
                        assert(entries(before).contains(m));
                    } else {
                        assert(m == made);
                    }
                } else {
                    assert(before[k]@[i] == after[k]@[i]);
                    assert(entries(before).contains(m));
                }
            }
            if entries(before).contains(m) {
                let i = choose|i: int|
                    0 <= i < before[k]@.len() && (#[trigger] before[k]@[i]).edge == m.1
                        && before[k]@[i].replaced_edges@ == m.0;
                assert(after[k]@[i] == before[k]@[i]);
            }
            if m == made {
                assert(after[key]@[earlier.len() as int].edge == m.1);
            }
        }
        assert(entries(after) =~= entries(before).insert(made));
    }
}


/// A shortcut of `log` leads from `a` to `b`.
pub open spec fn pair_made(log: Seq<Made>, a: u32, b: u32) -> bool {
    exists|i: int| 0 <= i < log.len() && (#[trigger] log[i]).1.source == a && log[i].1.target == b
}

/// There is room for one more shortcut beside the `edges` edges of the
/// graph and the `made` shortcuts that there are: the compact view of the
/// contracted graph still fits 32-bit offsets.
pub open spec fn has_room(edges: int, made: int) -> bool {
    edges + made + 1 <= 0x7fff_ffff
}

/// The log after the way `route` of the length `distance`, found between
/// two neighbours of the node `node`, has been considered: the way has
/// become a shortcut between its ends, at the end of the log, where it
/// leads over `node`, is shorter than `pivot_distance`, there is room, and
/// no shortcut joins its ends yet; else the log is as it was.
pub open spec fn made_after(
    log: Seq<Made>,
    edges: int,
    route: Seq<u32>,
    distance: u32,
    node: u32,
    pivot_distance: u64,
) -> Seq<Made> {
    if route.contains(node) && distance < pivot_distance && has_room(edges, log.len() as int) && !pair_made(
        log,
        route[0],
        route.last(),
    ) {
        log.push((route, (Edge { source: route[0], target: route.last(), distance })))
    } else {
        log
    }
}

/// A shortcut leads from `a` to `b`, or there is no room for one.
pub open spec fn settled_pair(log: Seq<Made>, edges: int, a: u32, b: u32) -> bool {
    pair_made(log, a, b) || !has_room(edges, log.len() as int)
}

/// The way `route` of the length `distance` has been dealt with: where
/// the lengths of the edges that join `node` to its two ends are known,
/// and it leads over `node` and is shorter than these two edges together,
/// a shortcut leads from its one end to the other, or there is no room for
/// one.
pub open spec fn settled_way(
    log: Seq<Made>,
    edges: int,
    route: Seq<u32>,
    distance: u32,
    node: u32,
    lengths: Map<u32, u32>,
) -> bool {
    lengths.contains_key(route[0]) && lengths.contains_key(route.last()) && route.contains(node) && distance
        < lengths[route[0]] + lengths[route.last()] ==> settled_pair(log, edges, route[0], route.last())
}

/// What is settled stays settled when the log grows.
pub proof fn lemma_settled_stays(shorter: Seq<Made>, longer: Seq<Made>, edges: int, a: u32, b: u32)
    requires
        log_prefix(shorter, longer),
        settled_pair(shorter, edges, a, b),
    ensures
        settled_pair(longer, edges, a, b),
{
    if pair_made(shorter, a, b) {
        lemma_pair_stays(shorter, longer, a, b);
    }
}

/// The neighbours `u` and `w` of the node `node` that is contracted are
/// due a shortcut: neither is contracted, `w` can be reached from `u` over
/// the arcs that are searched, and every shortest way from `u` to `w` over
/// these arcs leads over `node` and is shorter than any two edges that
/// join `node` to `u` and to `w`.
pub open spec fn is_due(
    adj: &AdjacencyArray,
    removed: Map<u32, bool>,
    contracted: Map<u32, bool>,
    node: u32,
    u: u32,
    w: u32,
) -> bool {
    let searched = visible_arcs(adj, removed.dom());
    &&& u != w
    &&& u != node
    &&& w != node
    &&& joined(adj, node as int, u as int)
    &&& joined(adj, node as int, w as int)
    &&& !contracted.contains_key(u)
    &&& !contracted.contains_key(w)
    &&& !out_of_reach(searched, u as int, w as int)
    &&& forall|route: Seq<u32>, d: u32| #[trigger]
        is_witness(searched, u as int, route, d) && route.last() == w ==> route.contains(node) && forall|
            du: nat,
            dw: nat,
        |
            #[trigger] adj.arcs().contains((node as int, u as int, du)) && #[trigger] adj.arcs().contains(
                (node as int, w as int, dw),
            ) ==> d < du + dw
}

/// Every neighbour of `node` that is not contracted, and is not `node`
/// itself, is listed among its neighbours.
pub proof fn lemma_listed(adj: &AdjacencyArray, node: u32, contracted: Map<u32, bool>, neighbors: Seq<u32>, x: u32)
    requires
        adj.wf(),
        node < adj.node_count(),
        forall|j: int|
            0 <= j < adj.degree(node as int) ==> {
                let y = (#[trigger] adj.arc_at(node as int, j)).1;
                y == node || contracted.contains_key(y as u32) || neighbors.contains(y as u32)
            },
        joined(adj, node as int, x as int),
        x != node,
        !contracted.contains_key(x),
    ensures
        neighbors.contains(x),
{
    let w = choose|w: nat| adj.arcs().contains((node as int, x as int, w));
    let j = choose|j: int| 0 <= j < adj.degree(node as int) && #[trigger] adj.arc_at(node as int, j) == (
        node as int,
        x as int,
        w,
    );
    assert(adj.arc_at(node as int, j).1 == x);
}

/// The node `v` is one of the nodes that were removed.
pub open spec fn removed_node(removed: Map<u32, bool>, v: int) -> bool {
    0 <= v <= u32::MAX && removed.contains_key(v as u32)
}

/// The arcs of the working graph: those of the graph and of the shortcuts
/// of `log` from position `base` up to `upto`, without those that leave a
/// node that was removed.
pub open spec fn working_arcs(orig: Set<Arc>, log: Seq<Made>, base: int, upto: int, removed: Map<u32, bool>) -> Set<
    Arc,
> {
    orig.union(made_arcs(log.subrange(base, upto))).filter(|a: Arc| !removed_node(removed, a.0))
}

/// None of the arcs leaves a node that was removed.
pub open spec fn leaves_none(arcs: Set<Arc>, removed: Map<u32, bool>) -> bool {
    forall|a: Arc| #[trigger] arcs.contains(a) ==> !removed_node(removed, a.0)
}

/// None of the arcs leads to a node that was removed.
pub open spec fn enters_none(arcs: Set<Arc>, removed: Map<u32, bool>) -> bool {
    forall|a: Arc| #[trigger] arcs.contains(a) ==> !removed_node(removed, a.1)
}

/// The arcs `searched` hold every arc of `orig` between nodes that were
/// not removed.
pub open spec fn holds_plain(orig: Set<Arc>, searched: Set<Arc>, removed: Map<u32, bool>) -> bool {
    forall|a: Arc| #[trigger]
        orig.contains(a) && !removed_node(removed, a.0) && !removed_node(removed, a.1) ==> searched.contains(a)
}

/// The arcs `view` hold every arc of `orig` that leaves a node that was
/// not removed.
pub open spec fn keeps_plain(orig: Set<Arc>, view: Set<Arc>, removed: Map<u32, bool>) -> bool {
    forall|a: Arc| #[trigger] orig.contains(a) && !removed_node(removed, a.0) ==> view.contains(a)
}

/// The arcs of one more shortcut.
pub proof fn lemma_made_arcs_push(log: Seq<Made>, made: Made)
    ensures
        made_arcs(log.push(made)) == made_arcs(log).insert(edge_arc(made.1)),
{
    let longer = log.push(made);
    assert forall|a: Arc| made_arcs(longer).contains(a) == made_arcs(log).insert(edge_arc(made.1)).contains(a) by {
        if made_arcs(longer).contains(a) {
            let i = choose|i: int| 0 <= i < longer.len() && edge_arc(#[trigger] longer[i].1) == a;
            if i < log.len() {
                assert(edge_arc(log[i].1) == a);
            }
        }
        if made_arcs(log).contains(a) {
            let i = choose|i: int| 0 <= i < log.len() && edge_arc(#[trigger] log[i].1) == a;
            assert(edge_arc(longer[i].1) == a);
        }
        if a == edge_arc(made.1) {
            assert(edge_arc(longer[log.len() as int].1) == a);
        }
    }
    assert(made_arcs(longer) =~= made_arcs(log).insert(edge_arc(made.1)));
}

/// The first arc of a route of two nodes or more.
pub proof fn lemma_first_arc(arcs: Set<Arc>, route: Seq<u32>, d: nat)
    requires
        is_route(arcs, ids(route), d),
        route.len() >= 2,
    ensures
        exists|w: nat| arcs.contains((route[0] as int, route[1] as int, w)),
{
    let lengths = crate::algorithms::paths::lemma_route_profile(arcs, ids(route), d);
    assert(lengths[0int] <= lengths[0int + 1]);
    assert(arcs.contains((ids(route)[0], ids(route)[0int + 1], (lengths[0int + 1] - lengths[0]) as nat)));
}

/// A pair that is due a shortcut with more nodes contracted is due one
/// with fewer.
pub proof fn lemma_due_fewer(
    adj: &AdjacencyArray,
    removed: Map<u32, bool>,
    fewer: Map<u32, bool>,
    more: Map<u32, bool>,
    node: u32,
    u: u32,
    w: u32,
)
    requires
        forall|k: u32| fewer.contains_key(k) ==> more.contains_key(k),
        is_due(adj, removed, more, node, u, w),
    ensures
        is_due(adj, removed, fewer, node, u, w),
{
}

/// Every node that has had its turn in a round has the shortcuts that
/// were due between its neighbours, as far as there was room.
pub open spec fn turns_settled(
    adj: &AdjacencyArray,
    removed: Map<u32, bool>,
    contracted: Map<u32, bool>,
    sorted: Seq<Vec<u32>>,
    core: int,
    level: int,
    j: int,
    log: Seq<Made>,
    edges: int,
) -> bool {
    forall|v: u32, u: u32, w: u32|
        picked_up(sorted, core, level, j, v) && #[trigger] is_due(adj, removed, contracted, v, u, w) ==> settled_pair(
            log,
            edges,
            u,
            w,
        )
}

/// Every node that was contracted in the round of `set` has the shortcuts
/// that were due between its neighbours, as far as there is room: for
/// every pair of its neighbours that is due one over the view `adj`
/// without the nodes `removed`, a shortcut leads from the one to the
/// other.
pub open spec fn round_settled(
    graph: &GridGraph,
    set: Seq<u32>,
    core: int,
    adj: &AdjacencyArray,
    removed: Map<u32, bool>,
    contracted: Map<u32, bool>,
    log: Seq<Made>,
) -> bool {
    forall|v: u32, u: u32, w: u32|
        in_round(graph, set, core, v) && #[trigger] is_due(adj, removed, contracted, v, u, w) ==> settled_pair(
            log,
            graph.number_edges as int,
            u,
            w,
        )
}

/// A round that is settled stays settled when more nodes are contracted
/// and more shortcuts are made.
pub proof fn lemma_round_stays(
    graph: &GridGraph,
    set: Seq<u32>,
    core: int,
    adj: &AdjacencyArray,
    removed: Map<u32, bool>,
    fewer: Map<u32, bool>,
    more: Map<u32, bool>,
    shorter: Seq<Made>,
    longer: Seq<Made>,
)
    requires
        round_settled(graph, set, core, adj, removed, fewer, shorter),
        forall|k: u32| fewer.contains_key(k) ==> more.contains_key(k),
        log_prefix(shorter, longer),
    ensures
        round_settled(graph, set, core, adj, removed, more, longer),
{
    assert forall|v: u32, u: u32, w: u32|
        in_round(graph, set, core, v) && #[trigger] is_due(adj, removed, more, v, u, w) implies settled_pair(
        longer,
        graph.number_edges as int,
        u,
        w,
    ) by {
        lemma_due_fewer(adj, removed, fewer, more, v, u, w);
        lemma_settled_stays(shorter, longer, graph.number_edges as int, u, w);
    }
}

/// A longer log has the shortcuts of a shorter one.
pub proof fn lemma_pair_stays(shorter: Seq<Made>, longer: Seq<Made>, a: u32, b: u32)
    requires
        log_prefix(shorter, longer),
        pair_made(shorter, a, b),
    ensures
        pair_made(longer, a, b),
{
    let i = choose|i: int| 0 <= i < shorter.len() && (#[trigger] shorter[i]).1.source == a && shorter[i].1.target == b;
    assert(longer.take(shorter.len() as int)[i] == longer[i]);
    assert(longer[i].1.source == a && longer[i].1.target == b);
}

/// `longer` begins with `shorter`.
pub open spec fn log_prefix(shorter: Seq<Made>, longer: Seq<Made>) -> bool {
    shorter.len() <= longer.len() && longer.take(shorter.len() as int) == shorter
}

/// A longer log has the arcs of a shorter one.
pub proof fn lemma_made_arcs_grow(shorter: Seq<Made>, longer: Seq<Made>)
    requires
        log_prefix(shorter, longer),
    ensures
        made_arcs(shorter).subset_of(made_arcs(longer)),
{
    assert forall|a: Arc| made_arcs(shorter).contains(a) implies made_arcs(longer).contains(a) by {
        let i = choose|i: int| 0 <= i < shorter.len() && edge_arc(#[trigger] shorter[i].1) == a;
        assert(longer.take(shorter.len() as int)[i] == longer[i]);
        assert(edge_arc(longer[i].1) == a);
    }
}

/// A sound log stays sound when a sound shortcut between two nodes that no
/// shortcut joins yet is put at its end.
pub proof fn lemma_log_push(orig: Set<Arc>, log: Seq<Made>, n: int, made: Made)
    requires
        log_sound(orig, log, n),
        made.1.source < n,
        made.1.target < n,
        made.0.len() >= 3,
        made.0[0] == made.1.source,
        made.0.last() == made.1.target,
        is_route(orig.union(made_arcs(log)), ids(made.0), made.1.distance as nat),
        no_shorter_arc(orig, made.1),
        forall|m: Made| log.to_set().contains(m) ==> !(m.1.source == made.1.source && m.1.target == made.1.target),
    ensures
        log_sound(orig, log.push(made), n),
        log_prefix(log, log.push(made)),
        made_arcs(log.push(made)) == made_arcs(log).insert(edge_arc(made.1)),
        log.push(made).to_set() == log.to_set().insert(made),
{
    let longer = log.push(made);
    assert(longer.take(log.len() as int) =~= log);
    assert forall|k: int| 0 <= k < longer.len() implies #[trigger] sound_at(orig, longer, n, k) by {
        if k < log.len() {
            assert(sound_at(orig, log, n, k));
            assert(longer.take(k) =~= log.take(k));
        }
    }
    assert forall|i: int, j: int| 0 <= i < j < longer.len() implies !((#[trigger] longer[i]).1.source == (
    #[trigger] longer[j]).1.source && longer[i].1.target == longer[j].1.target) by {
        if j == log.len() {
            assert(log.to_set().contains(log[i]));
        } else {
            assert(longer[i] == log[i] && longer[j] == log[j]);
        }
    }
    assert forall|a: Arc| made_arcs(longer).contains(a) == made_arcs(log).insert(edge_arc(made.1)).contains(a) by {
        if made_arcs(longer).contains(a) {
            let i = choose|i: int| 0 <= i < longer.len() && edge_arc(#[trigger] longer[i].1) == a;
            if i < log.len() {
                assert(edge_arc(log[i].1) == a);
            }
        }
        if made_arcs(log).contains(a) {
            let i = choose|i: int| 0 <= i < log.len() && edge_arc(#[trigger] log[i].1) == a;
            assert(edge_arc(longer[i].1) == a);
        }
        if a == edge_arc(made.1) {
            assert(edge_arc(longer[log.len() as int].1) == a);
        }
    }
    assert(made_arcs(longer) =~= made_arcs(log).insert(edge_arc(made.1)));
    assert forall|m: Made| longer.to_set().contains(m) == log.to_set().insert(made).contains(m) by {
        if longer.to_set().contains(m) {
            let i = choose|i: int| 0 <= i < longer.len() && longer[i] == m;
            if i < log.len() {
                assert(log[i] == m);
            }
        }
        if log.to_set().contains(m) {
            let i = choose|i: int| 0 <= i < log.len() && log[i] == m;
            assert(longer[i] == m);
        }
        if m == made {
            assert(longer[log.len() as int] == m);
        }
    }
    assert(longer.to_set() =~= log.to_set().insert(made));
}

/// Builds the contraction of a graph: picks, round after round, nodes of
/// which no two are neighbours, and replaces the shortest ways over each of
/// them by shortcuts between its neighbours.
pub struct CNGraphCreator<'a> {
    graph_ref: &'a GridGraph,
    modified_graph: GridGraph,
    contracted_nodes: HashMap<u32, bool>,
    get_shortcuts: HashMap<u32, Vec<Shortcut>>,
    number_shortcuts_added: u64,
    /// The shortcuts in the order in which they were made.
    log: Ghost<Seq<Made>>,
    /// The rounds in their order.
    rounds: Ghost<Seq<Round>>,
    /// How many shortcuts there were when the build at hand began: the
    /// working graph holds those that were made since.
    base: Ghost<int>,
}

impl<'a> CNGraphCreator<'a> {
    /// The graph that is contracted.
    pub closed spec fn graph(&self) -> GridGraph {
        *self.graph_ref
    }

    /// The arcs of the graph that is contracted.
    pub closed spec fn arcs(&self) -> Set<Arc> {
        self.graph_ref.arcs()
    }

    /// Number of nodes of the graph that is contracted.
    pub closed spec fn node_count(&self) -> int {
        self.graph_ref.node_count()
    }

    /// The shortcuts made so far, in the order in which they were made.
    pub closed spec fn made(&self) -> Seq<Made> {
        self.log@
    }

    /// The rounds of the contraction so far, in their order.
    pub closed spec fn rounds(&self) -> Seq<Round> {
        self.rounds@
    }

    /// The nodes that were contracted so far, as keys.
    pub closed spec fn contracted(&self) -> Map<u32, bool> {
        self.contracted_nodes@
    }

    /// The working graph is what it is meant to be while nodes are
    /// contracted and the nodes `removed` are removed: it holds the arcs of
    /// the graph and of the shortcuts made in the build at hand, without
    /// those that leave a node that was removed.
    pub closed spec fn working(&self, removed: Map<u32, bool>) -> bool {
        &&& 0 <= self.base@ <= self.log@.len()
        &&& self.modified_graph.arcs() == working_arcs(
            self.graph_ref.arcs(),
            self.log@,
            self.base@,
            self.log@.len() as int,
            removed,
        )
    }

    /// What holds of the shortcuts at all times.
    pub closed spec fn sound(&self) -> bool {
        &&& self.graph_ref.wf()
        &&& keyed(self.get_shortcuts@)
        &&& shortcuts_ok(self.get_shortcuts@)
        &&& one_per_pair(self.get_shortcuts@)
        &&& entries(self.get_shortcuts@) == self.log@.to_set()
        &&& log_sound(self.graph_ref.arcs(), self.log@, self.graph_ref.node_count())
        &&& self.number_shortcuts_added == self.log@.len()
        &&& held_before(self.get_shortcuts@, self.graph_ref.node_count()) == self.log@.len()
        &&& 2 * (self.graph_ref.number_edges + self.log@.len()) <= u32::MAX
    }

    /// What holds while the contraction is built: the shortcuts are sound,
    /// and the working graph holds arcs of the graph and of shortcuts only.
    pub closed spec fn building(&self) -> bool {
        &&& self.sound()
        &&& self.modified_graph.wf()
        &&& self.modified_graph.node_count() == self.graph_ref.node_count()
        &&& self.modified_graph.arcs().subset_of(self.graph_ref.arcs().union(made_arcs(self.log@)))
        &&& self.modified_graph.number_edges <= self.graph_ref.number_edges + self.log@.len()
    }

    /// A creator for the contraction of `graph`.
    pub fn new(graph: &'a GridGraph) -> (c: CNGraphCreator<'a>)
        requires
            graph.wf(),
        ensures
            c.sound(),
            c.graph() == *graph,
            c.arcs() == graph.arcs(),
            c.node_count() == graph.node_count(),
            c.made().len() == 0,
            c.rounds().len() == 0,
            forall|v: u32| !c.contracted().contains_key(v),
    {
        let c = CNGraphCreator {
            graph_ref: graph,
            modified_graph: GridGraph::default(),
            contracted_nodes: HashMap::new(),
            get_shortcuts: HashMap::new(),
            number_shortcuts_added: 0,
            log: Ghost(Seq::empty()),
            rounds: Ghost(Seq::empty()),
            base: Ghost(0int),
        };
        proof {
            assert(entries(c.get_shortcuts@) =~= c.log@.to_set());
            lemma_held_none(c.get_shortcuts@, graph.node_count());
        }
        c
    }

    /// Makes the way `route` of length `distance` a shortcut between its
    /// ends, if it leads over `node`, is shorter than `pivot_distance`, the
    /// way over the two edges that join `node` to these ends, and no
    /// shortcut joins them yet.
    fn consider_route(
        &mut self,
        route: &Vec<u32>,
        distance: u32,
        node: u32,
        pivot_distance: u64,
        Ghost(searched): Ghost<Set<Arc>>,
        Ghost(removed): Ghost<Map<u32, bool>>,
    )
        requires
            old(self).building(),
            old(self).working(removed),
            !removed.contains_key(route@[0]),
            forall|w: nat| #[trigger]
                old(self).arcs().contains((route@[0] as int, route@.last() as int, w)) ==> distance <= w,
            route@.len() >= 2,
            route@[0] < old(self).node_count(),
            route@.last() < old(self).node_count(),
            route@[0] != node,
            route@.last() != node,
            is_route(searched, ids(route@), distance as nat),
            searched.subset_of(old(self).arcs().union(made_arcs(old(self).made()))),
        ensures
            final(self).building(),
            final(self).graph_ref == old(self).graph_ref,
            final(self).contracted_nodes == old(self).contracted_nodes,
            final(self).working(removed),
            final(self).base == old(self).base,
            final(self).rounds == old(self).rounds,
            log_prefix(old(self).made(), final(self).made()),
            final(self).made() == made_after(
                old(self).made(),
                old(self).graph_ref.number_edges as int,
                route@,
                distance,
                node,
                pivot_distance,
            ),
    {
        let ghost orig = self.graph_ref.arcs();
        let ghost n = self.graph_ref.node_count();
        let ghost log = self.log@;
        proof {
            assert(log.take(log.len() as int) =~= log);
            crate::model::grid_graph::lemma_edges_before_grows(self.graph_ref.edges@, 0, n);
        }
        if !wants_shortcut(route, distance, node, pivot_distance) {
            return ;
        }
        let source: u32 = route[0];
        let target: u32 = route[route.len() - 1];
        let capacity: u64 = (u32::MAX / 2) as u64;
        if self.graph_ref.number_edges as u64 + self.number_shortcuts_added + 1 > capacity {
            return ;
        }
        if has_shortcut(&self.get_shortcuts, source, target) {
            proof {
                let m = choose|m: Made| #[trigger]
                    entries(self.get_shortcuts@).contains(m) && m.1.source == source && m.1.target == target;
                assert(log.to_set().contains(m));
                let i = choose|i: int| 0 <= i < log.len() && log[i] == m;
                assert(log[i].1.source == source && log[i].1.target == target);
            }
            return ;
        }
        proof {
            if pair_made(log, source, target) {
                let i = choose|i: int|
                    0 <= i < log.len() && (#[trigger] log[i]).1.source == source && log[i].1.target == target;
                assert(log.to_set().contains(log[i]));
                assert(entries(self.get_shortcuts@).contains(log[i]));
            }
        }
        let edge = Edge { source, target, distance };
        let way = crate::algorithms::unwrap_shortcuts::copy_range(route, 0, route.len());
        let ghost made: Made = (way@, edge);
        let ghost held = self.get_shortcuts@;
        proof {
            assert(way@ =~= route@);
            let i = choose|i: int| 0 <= i < route@.len() && route@[i] == node;
            assert(route@.len() >= 3);
            lemma_route_mono(searched, orig.union(made_arcs(log)), ids(route@), distance as nat);
            assert forall|m: Made| log.to_set().contains(m) implies !(m.1.source == made.1.source && m.1.target
                == made.1.target) by {
                assert(entries(self.get_shortcuts@).contains(m));
            }
            lemma_log_push(orig, log, n, made);
        }
        let ghost working_before = self.modified_graph.arcs();
        self.modified_graph.add_new_edge(edge);
        record_shortcut(&mut self.get_shortcuts, Shortcut { replaced_edges: way, edge });
        self.number_shortcuts_added = self.number_shortcuts_added + 1;
        proof {
            self.log@ = log.push(made);
            lemma_held_grown(held, self.get_shortcuts@, source as int, n);
            let base = self.base@;
            let len = log.len() as int;
            assert(log.push(made).subrange(base, len + 1) =~= log.subrange(base, len).push(made));
            lemma_made_arcs_push(log.subrange(base, len), made);
            assert(working_arcs(orig, log.push(made), base, len + 1, removed) =~= working_arcs(
                orig,
                log,
                base,
                len,
                removed,
            ).insert(edge_arc(edge)));
        }
    }

    /// Goes through the ways that a witness search from `source` has
    /// found, and makes shortcuts of those that qualify.
    fn consider_routes(
        &mut self,
        routes: &Vec<Vec<u32>>,
        distances: &Vec<u32>,
        node: u32,
        distances_uv: &HashMap<u32, u32>,
        Ghost(searched): Ghost<Set<Arc>>,
        Ghost(source): Ghost<u32>,
        Ghost(targets): Ghost<Seq<u32>>,
        Ghost(removed): Ghost<Map<u32, bool>>,
    )
        requires
            old(self).building(),
            old(self).working(removed),
            leaves_none(searched, removed),
            enters_none(searched, removed),
            holds_plain(old(self).arcs(), searched, removed),
            routes@.len() == distances@.len(),
            source < old(self).node_count(),
            source != node,
            forall|i: int|
                0 <= i < targets.len() ==> (#[trigger] targets[i]) < old(self).node_count() && targets[i] != node
                    && targets[i] != source,
            forall|i: int|
                0 <= i < routes@.len() ==> targets.contains((#[trigger] routes@[i])@.last()) && is_witness(
                    searched,
                    source as int,
                    routes@[i]@,
                    distances@[i],
                ),
            searched.subset_of(old(self).arcs().union(made_arcs(old(self).made()))),
        ensures
            final(self).building(),
            final(self).graph_ref == old(self).graph_ref,
            final(self).contracted_nodes == old(self).contracted_nodes,
            final(self).working(removed),
            final(self).base == old(self).base,
            final(self).rounds == old(self).rounds,
            log_prefix(old(self).made(), final(self).made()),
            forall|i: int|
                0 <= i < routes@.len() ==> settled_way(
                    final(self).made(),
                    old(self).graph_ref.number_edges as int,
                    (#[trigger] routes@[i])@,
                    distances@[i],
                    node,
                    distances_uv@,
                ),
    {
        broadcast use vstd::std_specs::hash::group_hash_axioms;

        proof {
            assert(self.log@.take(self.log@.len() as int) =~= self.log@);
        }
        let mut idx: usize = 0;
        while idx < routes.len()
            invariant
                idx <= routes@.len(),
                self.building(),
                self.graph_ref == old(self).graph_ref,
                self.contracted_nodes == old(self).contracted_nodes,
                self.working(removed),
                self.base == old(self).base,
                self.rounds == old(self).rounds,
                leaves_none(searched, removed),
                enters_none(searched, removed),
                holds_plain(self.arcs(), searched, removed),
                log_prefix(old(self).made(), self.made()),
                forall|i: int|
                    0 <= i < idx ==> settled_way(
                        self.made(),
                        self.graph_ref.number_edges as int,
                        (#[trigger] routes@[i])@,
                        distances@[i],
                        node,
                        distances_uv@,
                    ),
                routes@.len() == distances@.len(),
                source < self.node_count(),
                source != node,
                forall|i: int|
                    0 <= i < targets.len() ==> (#[trigger] targets[i]) < self.node_count() && targets[i] != node
                        && targets[i] != source,
                forall|i: int|
                    0 <= i < routes@.len() ==> targets.contains((#[trigger] routes@[i])@.last()) && is_witness(
                        searched,
                        source as int,
                        routes@[i]@,
                        distances@[i],
                    ),
                searched.subset_of(old(self).arcs().union(made_arcs(old(self).made()))),
            decreases routes@.len() - idx,
        {
            let route = &routes[idx];
            let distance: u32 = distances[idx];
            proof {
                assert(targets.contains(routes@[idx as int]@.last()));
                assert(is_witness(searched, source as int, route@, distance));
                let t = route@.last();
                let i = choose|i: int| 0 <= i < targets.len() && targets[i] == t;
                assert(targets[i] != source);
                lemma_made_arcs_grow(old(self).made(), self.made());
            }
            let first: u32 = route[0];
            let last: u32 = route[route.len() - 1];
            let pivot_distance: Option<u64> = match distances_uv.get(&first) {
                Some(a) => match distances_uv.get(&last) {
                    Some(b) => Some(*a as u64 + *b as u64),
                    None => None,
                },
                None => None,
            };
            let ghost mid = self.made();
            let ghost edges = self.graph_ref.number_edges as int;
            proof {
                assert(mid.take(mid.len() as int) =~= mid);
            }
            if let Some(distance_uvw) = pivot_distance {
                proof {
                    assert(route@[0] == source);
                    lemma_first_arc(searched, route@, distance as nat);
                    let w = choose|w: nat| searched.contains((route@[0] as int, route@[1] as int, w));
                    assert(!removed_node(removed, route@[0] as int));
                    let orig = self.arcs();
                    let from = route@[0] as int;
                    let to = route@.last() as int;
                    assert(is_route(searched, ids(route@), distance as nat));
                    let near = ids(route@)[route@.len() - 2];
                    let step = choose|step: nat| #[trigger]
                        searched.contains((near, ids(route@).last(), step)) && step <= distance && is_route(
                            searched,
                            ids(route@).drop_last(),
                            (distance - step) as nat,
                        );
                    assert(!removed_node(removed, to));
                    assert forall|w: nat| #[trigger] orig.contains((from, to, w)) implies distance <= w by {
                        assert(searched.contains((from, to, w)));
                        crate::algorithms::paths::lemma_reaches_self(searched, from);
                        crate::algorithms::paths::lemma_reaches_extend(searched, from, from, to, 0, w);
                    }
                }
                self.consider_route(route, distance, node, distance_uvw, Ghost(searched), Ghost(removed));
                proof {
                    lemma_prefix_chain(old(self).made(), mid, self.made());
                    if route@.contains(node) && distance < distance_uvw && has_room(edges, mid.len() as int)
                        && !pair_made(mid, first, last) {
                        let at = mid.len() as int;
                        assert(self.made()[at].1.source == first && self.made()[at].1.target == last);
                    } else if pair_made(mid, first, last) {
                        lemma_pair_stays(mid, self.made(), first, last);
                    }
                    assert(settled_way(self.made(), edges, route@, distance, node, distances_uv@));
                }
            }
            proof {
                assert forall|i: int| 0 <= i < idx + 1 implies settled_way(
                    self.made(),
                    edges,
                    (#[trigger] routes@[i])@,
                    distances@[i],
                    node,
                    distances_uv@,
                ) by {
                    if i < idx {
                        let r = routes@[i]@;
                        if distances_uv@.contains_key(r[0]) && distances_uv@.contains_key(r.last()) && r.contains(node)
                            && distances@[i] < distances_uv@[r[0]] + distances_uv@[r.last()] {
                            assert(settled_way(mid, edges, r, distances@[i], node, distances_uv@));
                            lemma_settled_stays(mid, self.made(), edges, r[0], r.last());
                        }
                    }
                }
            }
            idx += 1;
        }
    }

    /// Contracts `node`: searches from each of its neighbours that is not
    /// contracted for the others, over the arcs of `adj_array` that do not
    /// lead to a removed node, and makes a shortcut of every shortest way
    /// found that leads over `node` and is shorter than the way over the
    /// two edges that join `node` to its ends.
    fn find_shortcuts(&mut self, node: u32, adj_array: &AdjacencyArray, removed_nodes: &HashMap<u32, bool>)
        requires
            old(self).building(),
            old(self).working(removed_nodes@),
            leaves_none(adj_array.arcs(), removed_nodes@),
            keeps_plain(old(self).arcs(), adj_array.arcs(), removed_nodes@),
            adj_array.wf(),
            adj_array.node_count() == old(self).node_count(),
            node < old(self).node_count(),
            adj_array.arcs().subset_of(old(self).arcs().union(made_arcs(old(self).made()))),
        ensures
            final(self).building(),
            final(self).working(removed_nodes@),
            final(self).base == old(self).base,
            final(self).rounds == old(self).rounds,
            final(self).graph_ref == old(self).graph_ref,
            log_prefix(old(self).made(), final(self).made()),
            final(self).contracted_nodes@ == old(self).contracted_nodes@.insert(node, true),
            forall|u: u32, w: u32| #[trigger]
                is_due(adj_array, removed_nodes@, old(self).contracted_nodes@, node, u, w) ==> settled_pair(
                    final(self).made(),
                    old(self).graph_ref.number_edges as int,
                    u,
                    w,
                ),
    {
        broadcast use vstd::std_specs::hash::group_hash_axioms;

        let ghost n = self.graph_ref.node_count();
        let ghost edges = self.graph_ref.number_edges as int;
        let ghost before = old(self).contracted_nodes@;
        let ghost removed = removed_nodes@;
        let ghost searched = visible_arcs(adj_array, removed_nodes@.dom());
        let mut witness_search = WitnessSearch::new(adj_array, node, removed_nodes);
        self.contracted_nodes.insert(node, true);
        let neighbors_and_distances = adj_array.get_neighbors_of_node_and_distances(node);
        let mut distances_uv: HashMap<u32, u32> = HashMap::new();
        let mut neighbors: Vec<u32> = Vec::new();
        proof {
            adj_array.lemma_offsets_ordered(node + 1, adj_array.node_count());
            adj_array.lemma_offsets_ordered(node as int, node + 1);
            adj_array.lemma_arcs_within();
            assert(self.log@.take(self.log@.len() as int) =~= self.log@);
        }
        let len: usize = neighbors_and_distances.len();
        let mut i: usize = 0;
        while i + 1 < len
            invariant
                adj_array.wf(),
                node < adj_array.node_count(),
                neighbors_and_distances@ == adj_array.payload().subrange(
                    adj_array.offsets()[node as int] as int,
                    adj_array.offsets()[node + 1] as int,
                ),
                adj_array.offsets()[node as int] <= adj_array.offsets()[node + 1] <= adj_array.payload().len(),
                len == neighbors_and_distances@.len(),
                len == 2 * adj_array.degree(node as int),
                i % 2 == 0,
                self.contracted_nodes@ == before.insert(node, true),
                forall|k: int|
                    0 <= k < neighbors@.len() ==> (#[trigger] neighbors@[k]) < adj_array.node_count() && neighbors@[k]
                        != node && distances_uv@.contains_key(neighbors@[k]) && !before.contains_key(neighbors@[k]),
                forall|x: u32| #[trigger]
                    distances_uv@.contains_key(x) ==> adj_array.arcs().contains(
                        (node as int, x as int, distances_uv@[x] as nat),
                    ),
                forall|j: int|
                    0 <= j < adj_array.degree(node as int) && 2 * j < i ==> {
                        let x = (#[trigger] adj_array.arc_at(node as int, j)).1;
                        x == node || before.contains_key(x as u32) || neighbors@.contains(x as u32)
                    },
            decreases len - i,
        {
            let neighbor: u32 = neighbors_and_distances[i];
            let ghost earlier = neighbors@;
            let ghost held = distances_uv@;
            proof {
                adj_array.lemma_slot_is_arc(node as int, i as int);
            }
            if !self.contracted_nodes.contains_key(&neighbor) && neighbor != u32::MAX {
                neighbors.push(neighbor);
                distances_uv.insert(neighbor, neighbors_and_distances[i + 1]);
                proof {
                    assert(neighbors@[earlier.len() as int] == neighbor);
                }
            }
            proof {
                assert forall|j: int| 0 <= j < adj_array.degree(node as int) && 2 * j < i + 2 implies {
                    let x = (#[trigger] adj_array.arc_at(node as int, j)).1;
                    x == node || before.contains_key(x as u32) || neighbors@.contains(x as u32)
                } by {
                    let x = adj_array.arc_at(node as int, j).1;
                    if 2 * j < i {
                        if earlier.contains(x as u32) {
                            let k = choose|k: int| 0 <= k < earlier.len() && earlier[k] == x as u32;
                            assert(neighbors@[k] == x as u32);
                        }
                    } else {
                        assert(2 * j == i);
                        assert(x == neighbor);
                    }
                }
                assert forall|x: u32| #[trigger] distances_uv@.contains_key(x) implies adj_array.arcs().contains(
                    (node as int, x as int, distances_uv@[x] as nat),
                ) by {
                    if x == neighbor && distances_uv@ != held {
                        let a = adj_array.arc_at(node as int, i as int / 2);
                        assert(adj_array.arcs().contains(a));
                    } else {
                        assert(held.contains_key(x));
                    }
                }
            }
            i += 2;
        }
        if neighbors.len() <= 1 {
            proof {
                assert forall|u: u32, w: u32| #[trigger]
                    is_due(adj_array, removed, before, node, u, w) implies settled_pair(self.made(), edges, u, w) by {
                    lemma_listed(adj_array, node, before, neighbors@, u);
                    lemma_listed(adj_array, node, before, neighbors@, w);
                    let a = choose|a: int| 0 <= a < neighbors@.len() && neighbors@[a] == u;
                    let b = choose|b: int| 0 <= b < neighbors@.len() && neighbors@[b] == w;
                }
            }
            return ;
        }
        let mut j: usize = 0;
        while j < neighbors.len()
            invariant
                j <= neighbors@.len(),
                self.building(),
                self.working(removed),
                self.base == old(self).base,
                self.rounds == old(self).rounds,
                leaves_none(adj_array.arcs(), removed),
                keeps_plain(self.arcs(), adj_array.arcs(), removed),
                self.graph_ref == old(self).graph_ref,
                edges == self.graph_ref.number_edges,
                self.contracted_nodes@ == before.insert(node, true),
                log_prefix(old(self).made(), self.made()),
                n == self.node_count(),
                adj_array.wf(),
                adj_array.node_count() == n,
                node < n,
                removed == removed_nodes@,
                adj_array.arcs().subset_of(old(self).arcs().union(made_arcs(old(self).made()))),
                witness_search.wf(),
                witness_search.arcs() == searched,
                searched == visible_arcs(adj_array, removed_nodes@.dom()),
                witness_search.node_count() == n,
                forall|k: int|
                    0 <= k < neighbors@.len() ==> (#[trigger] neighbors@[k]) < n && neighbors@[k] != node
                        && distances_uv@.contains_key(neighbors@[k]),
                forall|x: u32| #[trigger]
                    distances_uv@.contains_key(x) ==> adj_array.arcs().contains(
                        (node as int, x as int, distances_uv@[x] as nat),
                    ),
                forall|j2: int|
                    0 <= j2 < adj_array.degree(node as int) ==> {
                        let x = (#[trigger] adj_array.arc_at(node as int, j2)).1;
                        x == node || before.contains_key(x as u32) || neighbors@.contains(x as u32)
                    },
                forall|idx: int, w: u32|
                    0 <= idx < j && #[trigger] is_due(adj_array, removed, before, node, neighbors@[idx], w)
                        ==> settled_pair(self.made(), edges, neighbors@[idx], w),
            decreases neighbors@.len() - j,
        {
            let source: u32 = neighbors[j];
            let mut targets: Vec<u32> = Vec::new();
            let mut k: usize = 0;
            while k < neighbors.len()
                invariant
                    k <= neighbors@.len(),
                    forall|m: int|
                        0 <= m < neighbors@.len() ==> (#[trigger] neighbors@[m]) < n && neighbors@[m] != node,
                    forall|m: int|
                        0 <= m < targets@.len() ==> (#[trigger] targets@[m]) < n && targets@[m] != node && targets@[m]
                            != source,
                    forall|m: int|
                        0 <= m < k && neighbors@[m] != source ==> targets@.contains(#[trigger] neighbors@[m]),
                decreases neighbors@.len() - k,
            {
                let ghost listed_before = targets@;
                if neighbors[k] != source {
                    targets.push(neighbors[k]);
                    proof {
                        assert(targets@[listed_before.len() as int] == neighbors@[k as int]);
                    }
                }
                proof {
                    assert forall|m: int| 0 <= m < k + 1 && neighbors@[m] != source implies targets@.contains(
                        #[trigger] neighbors@[m],
                    ) by {
                        if m < k {
                            let at = choose|at: int| 0 <= at < listed_before.len() && listed_before[at] == neighbors@[m];
                            assert(targets@[at] == neighbors@[m]);
                        }
                    }
                }
                k += 1;
            }
            witness_search.change_source_node(source);
            let ghost mid = self.made();
            proof {
                assert(mid.take(mid.len() as int) =~= mid);
            }
            let found = witness_search.find_route(targets.as_slice());
            if let Some(result) = found {
                let routes = result.0;
                let distances = result.1;
                proof {
                    lemma_made_arcs_grow(old(self).made(), self.made());
                    assert(searched.subset_of(adj_array.arcs()));
                    assert(leaves_none(searched, removed));
                    assert(enters_none(searched, removed));
                    assert(holds_plain(self.arcs(), searched, removed)) by {
                        assert forall|a: Arc| #[trigger]
                            self.arcs().contains(a) && !removed_node(removed, a.0) && !removed_node(
                                removed,
                                a.1,
                            ) implies searched.contains(a) by {
                            assert(adj_array.arcs().contains(a));
                            adj_array.lemma_arcs_within();
                        }
                    }
                }
                self.consider_routes(
                    &routes,
                    &distances,
                    node,
                    &distances_uv,
                    Ghost(searched),
                    Ghost(source),
                    Ghost(targets@),
                    Ghost(removed),
                );
                proof {
                    lemma_prefix_chain(old(self).made(), mid, self.made());
                    assert forall|w: u32| #[trigger]
                        is_due(adj_array, removed, before, node, source, w) implies settled_pair(
                        self.made(),
                        edges,
                        source,
                        w,
                    ) by {
                        lemma_listed(adj_array, node, before, neighbors@, w);
                        let at = choose|at: int| 0 <= at < neighbors@.len() && neighbors@[at] == w;
                        assert(targets@.contains(neighbors@[at]));
                        assert(wanted(searched, source as int, targets@, w));
                        let i = choose|i: int| 0 <= i < routes@.len() && (#[trigger] routes@[i])@.last() == w;
                        let route = routes@[i]@;
                        let d = distances@[i];
                        assert(is_witness(searched, source as int, route, d));
                        assert(route[0] == source);
                        assert(route.contains(node));
                        let du = distances_uv@[source] as nat;
                        let dw = distances_uv@[w] as nat;
                        assert(adj_array.arcs().contains((node as int, source as int, du)));
                        assert(adj_array.arcs().contains((node as int, w as int, dw)));
                        assert(d < du + dw);
                        assert(settled_way(self.made(), edges, route, d, node, distances_uv@));
                    }
                }
            } else {
                proof {
                    assert forall|w: u32| #[trigger]
                        is_due(adj_array, removed, before, node, source, w) implies settled_pair(
                        self.made(),
                        edges,
                        source,
                        w,
                    ) by {
                        lemma_listed(adj_array, node, before, neighbors@, w);
                        let at = choose|at: int| 0 <= at < neighbors@.len() && neighbors@[at] == w;
                        assert(targets@.contains(neighbors@[at]));
                        assert(wanted(searched, source as int, targets@, w));
                    }
                }
            }
            proof {
                assert forall|idx: int, w: u32|
                    0 <= idx < j + 1 && #[trigger] is_due(
                        adj_array,
                        removed,
                        before,
                        node,
                        neighbors@[idx],
                        w,
                    ) implies settled_pair(self.made(), edges, neighbors@[idx], w) by {
                    if idx < j {
                        assert(settled_pair(mid, edges, neighbors@[idx], w));
                        lemma_settled_stays(mid, self.made(), edges, neighbors@[idx], w);
                    }
                }
            }
            j += 1;
        }
        proof {
            assert forall|u: u32, w: u32| #[trigger]
                is_due(adj_array, removed, before, node, u, w) implies settled_pair(self.made(), edges, u, w) by {
                lemma_listed(adj_array, node, before, neighbors@, u);
                let idx = choose|idx: int| 0 <= idx < neighbors@.len() && neighbors@[idx] == u;
                assert(is_due(adj_array, removed, before, node, neighbors@[idx], w));
            }
        }
    }

}

/// What begins a log that begins another begins that one too.
pub proof fn lemma_prefix_chain(a: Seq<Made>, b: Seq<Made>, c: Seq<Made>)
    requires
        log_prefix(a, b),
        log_prefix(b, c),
    ensures
        log_prefix(a, c),
{
    assert(c.take(a.len() as int) =~= b.take(a.len() as int)) by {
        assert forall|i: int| 0 <= i < a.len() implies c.take(a.len() as int)[i] == b.take(a.len() as int)[i] by {
            assert(c.take(b.len() as int)[i] == b[i]);
        }
    }
}


/// `true` when the way `route` of the length `distance`, found between two
/// neighbours of the node `node` that is contracted, is to become a
/// shortcut: it leads over `node`, and it is shorter than the two edges
/// that join its ends to `node`, which are `pivot_distance` long together.
pub fn wants_shortcut(route: &Vec<u32>, distance: u32, node: u32, pivot_distance: u64) -> (wanted: bool)
    ensures
        wanted == (route@.contains(node) && distance < pivot_distance),
{
    slice_contains(route.as_slice(), node) && (distance as u64) < pivot_distance
}

/// Number of edges that `v` has in `graph`: its rank in the contraction.
pub open spec fn rank_of(graph: &GridGraph, v: u32) -> int {
    graph.edges@[v as int]@.len() as int
}

/// Number of nodes among the first `upto` of `set` that have the rank
/// `rank`.
pub open spec fn ranked(graph: &GridGraph, set: Seq<u32>, upto: int, rank: int) -> int
    decreases upto,
{
    if upto <= 0 {
        0
    } else {
        ranked(graph, set, upto - 1, rank) + if rank_of(graph, set[upto - 1]) == rank {
            1int
        } else {
            0int
        }
    }
}

/// `core` is the rank, among the first `ranks`, that most nodes of `set`
/// have, and the lowest such rank.
pub open spec fn is_core(graph: &GridGraph, set: Seq<u32>, ranks: int, core: int) -> bool {
    &&& 0 <= core
    &&& core < ranks || (core == 0 && ranks == 0)
    &&& forall|r: int|
        0 <= r < ranks ==> #[trigger] ranked(graph, set, set.len() as int, r) <= ranked(
            graph,
            set,
            set.len() as int,
            core,
        )
    &&& forall|r: int|
        0 <= r < core ==> #[trigger] ranked(graph, set, set.len() as int, r) < ranked(
            graph,
            set,
            set.len() as int,
            core,
        )
}

/// The node `v` is contracted in the round of `set`: it is one of its
/// nodes, it has an edge, and its rank is not the one that most nodes of
/// the set have, `core`.
pub open spec fn in_round(graph: &GridGraph, set: Seq<u32>, core: int, v: u32) -> bool {
    among(set, set.len() as int, v as int) && rank_of(graph, v) >= 1 && rank_of(graph, v) != core
}

/// The node `v` has had its turn in a round when the ranks below `level`
/// are through and `j` nodes of the rank `level` are: it is one of these
/// nodes, and its rank is not `core`.
pub open spec fn picked_up(sorted: Seq<Vec<u32>>, core: int, level: int, j: int, v: u32) -> bool {
    exists|a: int, b: int|
        1 <= a <= level && a != core && a < sorted.len() && 0 <= b < sorted[a]@.len() && (a < level || b < j)
            && #[trigger] sorted[a]@[b] == v
}

/// With one more node of a rank through, that node has had its turn.
pub proof fn lemma_picked_step(sorted: Seq<Vec<u32>>, core: int, level: int, j: int, v: u32)
    requires
        1 <= level < sorted.len(),
        level != core,
        0 <= j < sorted[level]@.len(),
    ensures
        picked_up(sorted, core, level, j + 1, v) <==> picked_up(sorted, core, level, j, v) || v == sorted[level]@[j],
{
    if picked_up(sorted, core, level, j + 1, v) {
        let (a, b) = choose|a: int, b: int|
            1 <= a <= level && a != core && a < sorted.len() && 0 <= b < sorted[a]@.len() && (a < level || b < j + 1)
                && #[trigger] sorted[a]@[b] == v;
        if !(a == level && b == j) {
            assert(1 <= a <= level && a != core && a < sorted.len() && 0 <= b < sorted[a]@.len() && (a < level || b < j)
                && sorted[a]@[b] == v);
        }
    }
    if picked_up(sorted, core, level, j, v) {
        let (a, b) = choose|a: int, b: int|
            1 <= a <= level && a != core && a < sorted.len() && 0 <= b < sorted[a]@.len() && (a < level || b < j)
                && #[trigger] sorted[a]@[b] == v;
        assert(1 <= a <= level && a != core && a < sorted.len() && 0 <= b < sorted[a]@.len() && (a < level || b < j + 1)
            && sorted[a]@[b] == v);
    }
    if v == sorted[level]@[j] {
        assert(1 <= level <= level && level != core && level < sorted.len() && 0 <= j < sorted[level]@.len() && (level
            < level || j < j + 1) && sorted[level]@[j] == v);
    }
}

/// With a rank through, or left out, the next rank begins.
pub proof fn lemma_picked_row(sorted: Seq<Vec<u32>>, core: int, level: int, j: int, v: u32)
    requires
        1 <= level < sorted.len(),
        level == core || j >= sorted[level]@.len(),
    ensures
        picked_up(sorted, core, level, j, v) <==> picked_up(sorted, core, level + 1, 0, v),
{
    if picked_up(sorted, core, level, j, v) {
        let (a, b) = choose|a: int, b: int|
            1 <= a <= level && a != core && a < sorted.len() && 0 <= b < sorted[a]@.len() && (a < level || b < j)
                && #[trigger] sorted[a]@[b] == v;
        assert(1 <= a <= level + 1 && a != core && a < sorted.len() && 0 <= b < sorted[a]@.len() && (a < level + 1 || b
            < 0) && sorted[a]@[b] == v);
    }
    if picked_up(sorted, core, level + 1, 0, v) {
        let (a, b) = choose|a: int, b: int|
            1 <= a <= level + 1 && a != core && a < sorted.len() && 0 <= b < sorted[a]@.len() && (a < level + 1 || b
                < 0) && #[trigger] sorted[a]@[b] == v;
        assert(1 <= a <= level && a != core && a < sorted.len() && 0 <= b < sorted[a]@.len() && (a < level || b < j)
            && sorted[a]@[b] == v);
    }
}

/// A round: an independent set that is not empty, and the rank that most
/// of its nodes have, which was left out.
pub open spec fn is_round(graph: &GridGraph, set: Seq<u32>, core: int) -> bool {
    &&& set.len() >= 1
    &&& forall|i: int| 0 <= i < set.len() ==> (#[trigger] set[i]) < graph.node_count()
    &&& is_core(graph, set, RANKS as int, core)
}

/// The node `v` was contracted in one of the rounds from `from` on.
pub open spec fn rounds_done(graph: &GridGraph, rounds: Seq<Round>, from: int, v: u32) -> bool {
    exists|r: int| from <= r < rounds.len() && in_round(graph, (#[trigger] rounds[r]).0, rounds[r].1, v)
}

/// A round of the contraction, as contracts speak of it: its independent
/// set, the rank that was left out, the compact view of the working graph
/// that the round began with, the nodes that were removed before it, and
/// the number of shortcuts that there were when it began.
pub type Round = (Seq<u32>, int, AdjacencyArray, Map<u32, bool>, int);

/// The round `round` was a round of the contraction of `graph`: its view
/// was that of the working graph, with the shortcuts made since the build
/// began and without the nodes removed; its set was drawn over that view
/// and is independent in it; and every node that was contracted in it has
/// the shortcuts that were due between its neighbours, as far as there is
/// room.
pub open spec fn round_ok(graph: &GridGraph, base: int, log: Seq<Made>, contracted: Map<u32, bool>, round: Round) -> bool {
    &&& is_round(graph, round.0, round.1)
    &&& round.2.wf()
    &&& round.2.node_count() == graph.node_count()
    &&& 0 <= base <= round.4 <= log.len()
    &&& round.2.arcs() == working_arcs(graph.arcs(), log, base, round.4, round.3)
    &&& independent(&round.2, round.3, round.0)
    &&& is_random_set(&round.2, round.3, graph.node_count() / 100, round.0)
    &&& round_settled(graph, round.0, round.1, &round.2, round.3, contracted, log)
}

/// `removed` holds the nodes that are removed when the round `r` begins,
/// or, for `r` past the last round, when the rounds are through: none
/// before the first round of the build, which is the round `from`, and
/// after a round those that were removed before it and those of its set.
pub open spec fn follows(rounds: Seq<Round>, from: int, r: int, removed: Map<u32, bool>) -> bool {
    if r <= from || r > rounds.len() {
        forall|k: u32| !removed.contains_key(k)
    } else {
        noted(rounds[r - 1].3, removed, rounds[r - 1].0, rounds[r - 1].0.len() as int)
    }
}

/// Number of nodes in the sets of the rounds from `from` up to `upto`.
pub open spec fn collected(rounds: Seq<Round>, from: int, upto: int) -> int
    decreases upto - from,
{
    if upto <= from {
        0
    } else {
        collected(rounds, from, upto - 1) + rounds[upto - 1].0.len()
    }
}

/// The build ended because a draw gave no node: over the view of the
/// working graph as the rounds left it, the empty set was drawn.
pub open spec fn ended_short(graph: &GridGraph, base: int, log: Seq<Made>, rounds: Seq<Round>, from: int) -> bool {
    exists|view: AdjacencyArray, removed: Map<u32, bool>|
        view.wf() && view.arcs() == working_arcs(graph.arcs(), log, base, log.len() as int, removed) && follows(
            rounds,
            from,
            rounds.len() as int,
            removed,
        ) && #[trigger] is_random_set(&view, removed, graph.node_count() / 100, Seq::<u32>::empty())
}

/// What a contraction has done. The rounds before it stand as they were.
/// A graph of fewer than a hundred nodes has no round, and no shortcut is
/// made; another graph has a round at least. Every round began with the
/// view of the working graph, had a set that was drawn over it and is
/// not empty, and has left every node that it contracted with the
/// shortcuts due between its neighbours; the nodes of its set were removed
/// before the next round. The nodes contracted are those that were
/// before, and those of every round that have an edge and not the rank
/// that was left out in the round. The rounds went on until their sets
/// held nine tenths of the nodes, or a draw gave no node.
pub open spec fn is_built(
    graph: &GridGraph,
    made_before: Seq<Made>,
    made_after: Seq<Made>,
    before: Seq<Round>,
    after: Seq<Round>,
    contracted_before: Map<u32, bool>,
    contracted_after: Map<u32, bool>,
) -> bool {
    &&& before.len() <= after.len()
    &&& after.take(before.len() as int) == before
    &&& graph.node_count() >= 100 ==> after.len() > before.len()
    &&& graph.node_count() < 100 ==> after == before && made_after == made_before
    &&& forall|r: int|
        before.len() <= r < after.len() ==> round_ok(
            graph,
            made_before.len() as int,
            made_after,
            contracted_after,
            #[trigger] after[r],
        ) && follows(after, before.len() as int, r, after[r].3)
    &&& forall|v: u32| #[trigger]
        contracted_after.contains_key(v) <==> contracted_before.contains_key(v) || rounds_done(
            graph,
            after,
            before.len() as int,
            v,
        )
    &&& collected(after, before.len() as int, after.len() as int) * 10 >= 9 * graph.node_count() || ended_short(
        graph,
        made_before.len() as int,
        made_after,
        after,
        before.len() as int,
    )
}

/// What the first rounds have collected depends on these rounds alone.
pub proof fn lemma_collected_same(first: Seq<Round>, second: Seq<Round>, from: int, upto: int)
    requires
        upto <= first.len(),
        upto <= second.len(),
        0 <= from,
        forall|r: int| from <= r < upto ==> first[r] == second[r],
    ensures
        collected(first, from, upto) == collected(second, from, upto),
    decreases upto - from,
{
    if upto > from {
        lemma_collected_same(first, second, from, upto - 1);
    }
}

/// A round that was in order stays so when more shortcuts are made and
/// more nodes are contracted.
pub proof fn lemma_round_ok_stays(
    graph: &GridGraph,
    base: int,
    shorter: Seq<Made>,
    longer: Seq<Made>,
    fewer: Map<u32, bool>,
    more: Map<u32, bool>,
    round: Round,
)
    requires
        round_ok(graph, base, shorter, fewer, round),
        log_prefix(shorter, longer),
        forall|k: u32| fewer.contains_key(k) ==> more.contains_key(k),
    ensures
        round_ok(graph, base, longer, more, round),
{
    assert(longer.subrange(base, round.4) =~= shorter.subrange(base, round.4)) by {
        assert forall|i: int| 0 <= i < round.4 - base implies longer.subrange(base, round.4)[i] == shorter.subrange(
            base,
            round.4,
        )[i] by {
            assert(longer.take(shorter.len() as int)[base + i] == longer[base + i]);
        }
    }
    lemma_round_stays(graph, round.0, round.1, &round.2, round.3, fewer, more, shorter, longer);
}

/// Offering nodes to a set never makes it smaller.
pub proof fn lemma_picked_grows(
    adj: &AdjacencyArray,
    removed: Map<u32, bool>,
    set: Seq<u32>,
    choices: Seq<u32>,
    from: int,
    size: int,
)
    requires
        0 <= from,
    ensures
        picked(adj, removed, set, choices, from, size).len() >= set.len(),
    decreases choices.len() - from,
{
    if from < choices.len() && set.len() < size {
        if can_join(adj, removed, set, choices[from]) {
            lemma_picked_grows(adj, removed, set.push(choices[from]), choices, from + 1, size);
        } else {
            lemma_picked_grows(adj, removed, set, choices, from + 1, size);
        }
    }
}

/// What more batches give is no smaller than what the first give.
pub proof fn lemma_picked_all_grows(
    adj: &AdjacencyArray,
    removed: Map<u32, bool>,
    batches: Seq<Seq<u32>>,
    first: int,
    upto: int,
    size: int,
)
    requires
        0 <= first <= upto,
    ensures
        picked_all(adj, removed, batches, upto, size).len() >= picked_all(adj, removed, batches, first, size).len(),
    decreases upto - first,
{
    if first < upto {
        lemma_picked_all_grows(adj, removed, batches, first, upto - 1, size);
        lemma_picked_grows(adj, removed, picked_all(adj, removed, batches, upto - 1, size), batches[upto - 1], 0, size);
    }
}

/// Where no node is removed, a set of a node at least is drawn.
pub proof fn lemma_drawn_some(adj: &AdjacencyArray, removed: Map<u32, bool>, size: int, set: Seq<u32>)
    requires
        is_random_set(adj, removed, size, set),
        size >= 1,
        forall|k: u32| !removed.contains_key(k),
    ensures
        set.len() >= 1,
{
    let batches = choose|batches: Seq<Seq<u32>>| is_drawn_set(adj, removed, size, batches, set);
    if batches.len() > 0 {
        let none = Seq::<u32>::empty();
        assert(picked_all(adj, removed, batches, 0, size) == none);
        let one = batches[0];
        assert(one.len() == 2 * size);
        assert(one[0] < adj.node_count());
        assert(can_join(adj, removed, none, one[0]));
        lemma_picked_grows(adj, removed, none.push(one[0]), one, 1, size);
        assert(picked_all(adj, removed, batches, 1, size).len() >= 1);
        lemma_picked_all_grows(adj, removed, batches, 1, batches.len() as int, size);
    }
}

/// No more nodes have a rank than there are.
pub proof fn lemma_ranked_bounds(graph: &GridGraph, set: Seq<u32>, upto: int, rank: int)
    requires
        0 <= upto,
    ensures
        0 <= ranked(graph, set, upto, rank) <= upto,
    decreases upto,
{
    if upto > 0 {
        lemma_ranked_bounds(graph, set, upto - 1, rank);
    }
}

/// How often nodes are drawn anew for one independent set before the set
/// is taken as it is.
pub const RESAMPLE_BUDGET: usize = 16;

/// Number of ranks that the nodes of an independent set are sorted into.
pub const RANKS: usize = 15;

/// A generator of random numbers, of `rand::rngs::StdRng`: carried from
/// draw to draw, and never looked into.
#[verifier::external_type_specification]
#[verifier::external_body]
pub struct ExStdRng(rand::rngs::StdRng);

/// Where the node ids of the independent sets are drawn from: the
/// generator of the thread, or one that was made from a seed, with which
/// the same draws come again.
pub struct NodeSource {
    seeded: Option<rand::rngs::StdRng>,
}

/// Draws `count` node ids at random, each below `bound`.
///
/// Calls `rand::thread_rng().sample_iter(Uniform::from(0..bound))` and
/// takes `count` values of it. The contract claims what holds of every
/// draw: there are `count` values, and each lies in the range that the
/// distribution was made with.
#[verifier::external_body]
fn sample_node_ids(bound: u32, count: usize) -> (ids: Vec<u32>)
    requires
        bound > 0,
    ensures
        ids@.len() == count,
        forall|i: int| 0 <= i < ids@.len() ==> ids@[i] < bound,
{
    let range = rand::distributions::Uniform::from(0..bound);
    rand::Rng::sample_iter(rand::thread_rng(), &range).take(count).collect()
}

/// Draws `count` node ids from the generator `source`, each below `bound`.
///
/// Calls `sample_iter(Uniform::from(0..bound))` on the generator and takes
/// `count` values of it. The contract claims what holds of every draw:
/// there are `count` values, and each lies in the range that the
/// distribution was made with.
#[verifier::external_body]
fn sample_seeded_ids(source: &mut rand::rngs::StdRng, bound: u32, count: usize) -> (ids: Vec<u32>)
    requires
        bound > 0,
    ensures
        ids@.len() == count,
        forall|i: int| 0 <= i < ids@.len() ==> ids@[i] < bound,
{
    let range = rand::distributions::Uniform::from(0..bound);
    rand::Rng::sample_iter(source, &range).take(count).collect()
}

/// The generator that `seed` gives.
///
/// Calls `rand::SeedableRng::seed_from_u64` for `rand::rngs::StdRng`.
/// Nothing is claimed of the generator.
#[verifier::external_body]
fn seeded_generator(seed: u64) -> (generator: rand::rngs::StdRng) {
    rand::SeedableRng::seed_from_u64(seed)
}

impl NodeSource {
    /// The source draws from a generator that was made from a seed, not
    /// from the generator of the thread.
    pub closed spec fn is_seeded(&self) -> bool {
        self.seeded is Some
    }

    /// The generator of the thread.
    pub fn of_thread() -> (source: NodeSource)
        ensures
            !source.is_seeded(),
    {
        NodeSource { seeded: None }
    }

    /// The generator that `seed` gives: two sources made from the same
    /// seed hand out the same draws.
    pub fn seeded(seed: u64) -> (source: NodeSource)
        ensures
            source.is_seeded(),
    {
        NodeSource { seeded: Some(seeded_generator(seed)) }
    }

    /// Draws `count` node ids, each below `bound`.
    pub fn draw(&mut self, bound: u32, count: usize) -> (ids: Vec<u32>)
        requires
            bound > 0,
        ensures
            ids@.len() == count,
            forall|i: int| 0 <= i < ids@.len() ==> ids@[i] < bound,
            final(self).is_seeded() == old(self).is_seeded(),
    {
        match &mut self.seeded {
            Some(generator) => sample_seeded_ids(generator, bound, count),
            None => sample_node_ids(bound, count),
        }
    }
}

/// The node `v` is one of the first `upto` nodes of `set`.
pub open spec fn among(set: Seq<u32>, upto: int, v: int) -> bool {
    exists|k: int| 0 <= k < upto && k < set.len() && #[trigger] set[k] == v
}

/// The map `after` is the map `before` with the first `upto` nodes of
/// `set` noted in it as removed.
pub open spec fn noted(before: Map<u32, bool>, after: Map<u32, bool>, set: Seq<u32>, upto: int) -> bool {
    &&& forall|k: u32| #[trigger] after.contains_key(k) <==> before.contains_key(k) || among(set, upto, k as int)
    &&& forall|k: u32|
        #[trigger] after.contains_key(k) ==> after[k] == (if among(set, upto, k as int) {
            true
        } else {
            before[k]
        })
}

/// An arc leads from `u` to `v`.
pub open spec fn joined(adj: &AdjacencyArray, u: int, v: int) -> bool {
    exists|w: nat| adj.arcs().contains((u, v, w))
}

/// No two nodes of `set` are the same, none is removed, and none has an
/// arc to one that stands before it in `set`.
pub open spec fn independent(adj: &AdjacencyArray, removed: Map<u32, bool>, set: Seq<u32>) -> bool {
    &&& set.no_duplicates()
    &&& forall|i: int| 0 <= i < set.len() ==> (#[trigger] set[i]) < adj.node_count() && !removed.contains_key(set[i])
    &&& forall|i: int, j: int|
        0 <= i < j < set.len() ==> !joined(adj, #[trigger] set[j] as int, #[trigger] set[i] as int)
}

/// `true` when a neighbour of `node` is a key of `taken`.
pub fn has_taken_neighbor(adj: &AdjacencyArray, node: u32, taken: &HashMap<u32, bool>) -> (found: bool)
    requires
        adj.wf(),
        node < adj.node_count(),
    ensures
        found == exists|v: int, w: nat| #[trigger] adj.arcs().contains((node as int, v, w)) && taken@.contains_key(v as u32),
{
    broadcast use vstd::std_specs::hash::group_hash_axioms;

    let nb = adj.get_neighbors_of_node_and_distances(node);
    proof {
        adj.lemma_offsets_ordered(node + 1, adj.node_count());
        adj.lemma_offsets_ordered(node as int, node + 1);
        adj.lemma_arcs_within();
    }
    let len: usize = nb.len();
    let mut i: usize = 0;
    while i + 1 < len
        invariant
            adj.wf(),
            node < adj.node_count(),
            nb@ == adj.payload().subrange(adj.offsets()[node as int] as int, adj.offsets()[node + 1] as int),
            adj.offsets()[node as int] <= adj.offsets()[node + 1] <= adj.payload().len(),
            len == nb@.len(),
            len == 2 * adj.degree(node as int),
            i % 2 == 0,
            forall|j: int| 0 <= j < adj.degree(node as int) && 2 * j < i ==> !taken@.contains_key(
                (#[trigger] adj.arc_at(node as int, j)).1 as u32,
            ),
        decreases len - i,
    {
        proof {
            adj.lemma_slot_is_arc(node as int, i as int);
        }
        if taken.contains_key(&nb[i]) {
            proof {
                let a = adj.arc_at(node as int, i as int / 2);
                assert(adj.arcs().contains((node as int, a.1, a.2)) && taken@.contains_key(a.1 as u32));
            }
            return true;
        }
        proof {
            assert forall|j: int| 0 <= j < adj.degree(node as int) && 2 * j < i + 2 implies !taken@.contains_key(
                (#[trigger] adj.arc_at(node as int, j)).1 as u32,
            ) by {
                if 2 * j >= i {
                    assert(2 * j == i);
                }
            }
        }
        i += 2;
    }
    proof {
        assert forall|v: int, w: nat| #[trigger]
            adj.arcs().contains((node as int, v, w)) implies !taken@.contains_key(v as u32) by {
            let j = choose|j: int| 0 <= j < adj.degree(node as int) && #[trigger] adj.arc_at(node as int, j) == (
                node as int,
                v,
                w,
            );
            assert(2 * j < i);
        }
    }
    false
}

/// The node `node` can join `set`: it is a node that is not removed, it
/// is not in `set`, and it has no arc to a node of `set`.
pub open spec fn can_join(adj: &AdjacencyArray, removed: Map<u32, bool>, set: Seq<u32>, node: u32) -> bool {
    &&& node < adj.node_count()
    &&& !removed.contains_key(node)
    &&& !set.contains(node)
    &&& forall|i: int| 0 <= i < set.len() ==> !joined(adj, node as int, #[trigger] set[i] as int)
}

/// What `set` becomes when the nodes of `choices` from position `from` on
/// are offered to it one after the other, until it holds `size` nodes: each
/// node that can join the set as it then is, joins it.
pub open spec fn picked(
    adj: &AdjacencyArray,
    removed: Map<u32, bool>,
    set: Seq<u32>,
    choices: Seq<u32>,
    from: int,
    size: int,
) -> Seq<u32>
    decreases choices.len() - from,
{
    if from < 0 || from >= choices.len() || set.len() >= size {
        set
    } else if can_join(adj, removed, set, choices[from]) {
        picked(adj, removed, set.push(choices[from]), choices, from + 1, size)
    } else {
        picked(adj, removed, set, choices, from + 1, size)
    }
}

/// A set that is independent stays so when a node joins it that can.
pub proof fn lemma_join_keeps_independent(adj: &AdjacencyArray, removed: Map<u32, bool>, set: Seq<u32>, node: u32)
    requires
        independent(adj, removed, set),
        can_join(adj, removed, set, node),
    ensures
        independent(adj, removed, set.push(node)),
{
    let later = set.push(node);
    assert forall|i: int, j: int| 0 <= i < j < later.len() implies !joined(
        adj,
        #[trigger] later[j] as int,
        #[trigger] later[i] as int,
    ) by {
        if j == set.len() {
            assert(later[i] == set[i]);
        } else {
            assert(later[i] == set[i] && later[j] == set[j]);
        }
    }
    assert forall|i: int, j: int| 0 <= i < later.len() && 0 <= j < later.len() && i != j implies later[i]
        != later[j] by {
        if i < set.len() && j < set.len() {
            assert(set[i] != set[j]);
        } else if i < set.len() {
            assert(set.contains(set[i]));
        } else {
            assert(set.contains(set[j]));
        }
    }
}

/// Offers the nodes of `choices` to the independent set `set`, one after
/// the other, until it holds `size` nodes. `taken` holds the nodes of the
/// set as its keys.
pub fn extend_independent_set(
    adj: &AdjacencyArray,
    removed: &HashMap<u32, bool>,
    set: &mut Vec<u32>,
    taken: &mut HashMap<u32, bool>,
    choices: &Vec<u32>,
    size: usize,
)
    requires
        adj.wf(),
        forall|i: int| 0 <= i < choices@.len() ==> choices@[i] < adj.node_count(),
        independent(adj, removed@, old(set)@),
        forall|v: u32| old(taken)@.contains_key(v) <==> old(set)@.contains(v),
    ensures
        final(set)@ == picked(adj, removed@, old(set)@, choices@, 0, size as int),
        independent(adj, removed@, final(set)@),
        forall|v: u32| final(taken)@.contains_key(v) <==> final(set)@.contains(v),
        final(set)@.len() <= size || final(set)@ == old(set)@,
{
    broadcast use vstd::std_specs::hash::group_hash_axioms;

    let ghost start = set@;
    let mut c: usize = 0;
    while c < choices.len() && set.len() < size
        invariant
            adj.wf(),
            c <= choices@.len(),
            forall|i: int| 0 <= i < choices@.len() ==> choices@[i] < adj.node_count(),
            independent(adj, removed@, set@),
            forall|v: u32| taken@.contains_key(v) <==> set@.contains(v),
            picked(adj, removed@, start, choices@, 0, size as int) == picked(
                adj,
                removed@,
                set@,
                choices@,
                c as int,
                size as int,
            ),
            set@.len() <= size || set@ == start,
        decreases choices@.len() - c,
    {
        let node: u32 = choices[c];
        let ghost earlier = set@;
        let ghost taken_before = taken@;
        let near = has_taken_neighbor(adj, node, taken);
        proof {
            if near {
                let (v, w) = choose|v: int, w: nat| #[trigger]
                    adj.arcs().contains((node as int, v, w)) && taken_before.contains_key(v as u32);
                adj.lemma_arcs_within();
                assert(0 <= v < adj.node_count());
                assert(earlier.contains(v as u32));
                let i = choose|i: int| 0 <= i < earlier.len() && earlier[i] == v as u32;
                assert(joined(adj, node as int, earlier[i] as int));
            } else {
                assert forall|i: int| 0 <= i < earlier.len() implies !joined(
                    adj,
                    node as int,
                    #[trigger] earlier[i] as int,
                ) by {
                    if joined(adj, node as int, earlier[i] as int) {
                        let w = choose|w: nat| adj.arcs().contains((node as int, earlier[i] as int, w));
                        assert(earlier.contains(earlier[i]));
                        assert(adj.arcs().contains((node as int, earlier[i] as int, w)) && taken_before.contains_key(
                            earlier[i] as int as u32,
                        ));
                    }
                }
            }
        }
        if !removed.contains_key(&node) && !taken.contains_key(&node) && !near {
            proof {
                assert(can_join(adj, removed@, earlier, node));
                lemma_join_keeps_independent(adj, removed@, earlier, node);
            }
            set.push(node);
            taken.insert(node, true);
            proof {
                let later = set@;
                assert forall|v: u32| taken@.contains_key(v) <==> later.contains(v) by {
                    if earlier.contains(v) {
                        let i = choose|i: int| 0 <= i < earlier.len() && earlier[i] == v;
                        assert(later[i] == v);
                    }
                    if v == node {
                        assert(later[earlier.len() as int] == v);
                    }
                    if later.contains(v) {
                        let i = choose|i: int| 0 <= i < later.len() && later[i] == v;
                        if i < earlier.len() {
                            assert(earlier[i] == v);
                        }
                    }
                }
            }
        } else {
            proof {
                assert(!can_join(adj, removed@, earlier, node));
            }
        }
        c += 1;
    }
}

/// What the empty set becomes when the first `upto` of the `batches` are
/// offered to it, one batch after the other and each node of a batch in
/// its turn, until it holds `size` nodes.
pub open spec fn picked_all(
    adj: &AdjacencyArray,
    removed: Map<u32, bool>,
    batches: Seq<Seq<u32>>,
    upto: int,
    size: int,
) -> Seq<u32>
    decreases upto,
{
    if upto <= 0 {
        Seq::empty()
    } else {
        picked(adj, removed, picked_all(adj, removed, batches, upto - 1, size), batches[upto - 1], 0, size)
    }
}

/// `set` is what the draws `batches` give: every batch holds `2 * size`
/// nodes; a batch was drawn only while the set was short of `size` nodes,
/// and at most [`RESAMPLE_BUDGET`] were; and the set holds the nodes of the
/// batches that could join it when their turn came.
pub open spec fn is_drawn_set(
    adj: &AdjacencyArray,
    removed: Map<u32, bool>,
    size: int,
    batches: Seq<Seq<u32>>,
    set: Seq<u32>,
) -> bool {
    &&& batches.len() <= RESAMPLE_BUDGET
    &&& batches.len() == RESAMPLE_BUDGET || set.len() >= size
    &&& forall|b: int, i: int|
        0 <= b < batches.len() && 0 <= i < batches[b].len() ==> (#[trigger] batches[b][i]) < adj.node_count()
    &&& forall|b: int|
        0 <= b < batches.len() ==> (#[trigger] batches[b]).len() == 2 * size && picked_all(
            adj,
            removed,
            batches,
            b,
            size,
        ).len() < size
    &&& set == picked_all(adj, removed, batches, batches.len() as int, size)
}

/// `set` is what some draws give.
pub open spec fn is_random_set(adj: &AdjacencyArray, removed: Map<u32, bool>, size: int, set: Seq<u32>) -> bool {
    exists|batches: Seq<Seq<u32>>| is_drawn_set(adj, removed, size, batches, set)
}

/// What the first batches give depends on these batches alone.
pub proof fn lemma_picked_all_prefix(
    adj: &AdjacencyArray,
    removed: Map<u32, bool>,
    first: Seq<Seq<u32>>,
    second: Seq<Seq<u32>>,
    upto: int,
    size: int,
)
    requires
        upto <= first.len(),
        upto <= second.len(),
        forall|b: int| 0 <= b < upto ==> first[b] == second[b],
    ensures
        picked_all(adj, removed, first, upto, size) == picked_all(adj, removed, second, upto, size),
    decreases upto,
{
    if upto > 0 {
        lemma_picked_all_prefix(adj, removed, first, second, upto - 1, size);
    }
}

/// Picks at random up to `size` nodes that are not removed and of which
/// none has an arc to one picked before it. Nodes are drawn `2 * size` at a
/// time, and at most [`RESAMPLE_BUDGET`] times: with fewer nodes to be had,
/// the set stays smaller than `size`, and may be empty.
pub fn pick_independent_set(
    adj: &AdjacencyArray,
    removed: &HashMap<u32, bool>,
    size: usize,
    source: &mut NodeSource,
) -> (set: Vec<u32>)
    requires
        adj.wf(),
        adj.node_count() > 0,
        2 * size <= u32::MAX,
    ensures
        set@.len() <= size,
        independent(adj, removed@, set@),
        is_random_set(adj, removed@, size as int, set@),
        final(source).is_seeded() == old(source).is_seeded(),
{
    broadcast use vstd::std_specs::hash::group_hash_axioms;

    let bound: u32 = adj.get_nodes_count();
    let mut disallowed_nodes: HashMap<u32, bool> = HashMap::new();
    let mut independent_set: Vec<u32> = Vec::new();
    let sample_size: usize = size * 2;
    let mut attempt: usize = 0;
    let ghost mut drawn: Seq<Seq<u32>> = Seq::empty();
    while attempt < RESAMPLE_BUDGET && independent_set.len() < size
        invariant
            adj.wf(),
            bound == adj.node_count(),
            bound > 0,
            sample_size == 2 * size,
            attempt <= RESAMPLE_BUDGET,
            source.is_seeded() == old(source).is_seeded(),
            independent_set@.len() <= size,
            independent(adj, removed@, independent_set@),
            forall|v: u32| disallowed_nodes@.contains_key(v) <==> independent_set@.contains(v),
            drawn.len() == attempt,
            forall|b: int, i: int|
                0 <= b < drawn.len() && 0 <= i < drawn[b].len() ==> (#[trigger] drawn[b][i]) < adj.node_count(),
            forall|b: int|
                0 <= b < drawn.len() ==> (#[trigger] drawn[b]).len() == 2 * size && picked_all(
                    adj,
                    removed@,
                    drawn,
                    b,
                    size as int,
                ).len() < size,
            independent_set@ == picked_all(adj, removed@, drawn, drawn.len() as int, size as int),
        decreases RESAMPLE_BUDGET - attempt,
    {
        let choices = source.draw(bound, sample_size);
        let ghost earlier = drawn;
        extend_independent_set(adj, removed, &mut independent_set, &mut disallowed_nodes, &choices, size);
        proof {
            drawn = earlier.push(choices@);
            assert forall|b: int| 0 <= b <= earlier.len() implies picked_all(adj, removed@, drawn, b, size as int)
                == picked_all(adj, removed@, earlier, b, size as int) by {
                lemma_picked_all_prefix(adj, removed@, drawn, earlier, b, size as int);
            }
            assert(drawn[earlier.len() as int] == choices@);
            assert forall|b: int| 0 <= b < drawn.len() implies (#[trigger] drawn[b]).len() == 2 * size && picked_all(
                adj,
                removed@,
                drawn,
                b,
                size as int,
            ).len() < size by {
                if b < earlier.len() {
                    assert(drawn[b] == earlier[b]);
                }
            }
            assert forall|b: int, i: int| 0 <= b < drawn.len() && 0 <= i < drawn[b].len() implies (
            #[trigger] drawn[b][i]) < adj.node_count() by {
                if b < earlier.len() {
                    assert(drawn[b] == earlier[b]);
                    assert(earlier[b][i] < adj.node_count());
                }
            }
        }
        attempt += 1;
    }
    proof {
        assert(is_drawn_set(adj, removed@, size as int, drawn, independent_set@));
    }
    independent_set
}

/// Number of edges that leave `v`.
pub fn calc_number_edges(v: u32, graph: &GridGraph) -> (n: u32)
    requires
        graph.wf(),
        v < graph.node_count(),
    ensures
        n == graph.edges@[v as int]@.len(),
{
    proof {
        crate::model::grid_graph::lemma_edges_before_grows(graph.edges@, v + 1, graph.node_count());
        crate::model::grid_graph::lemma_edges_before_grows(graph.edges@, 0, v as int);
        assert(crate::model::grid_graph::edges_before(graph.edges@, v + 1) == crate::model::grid_graph::edges_before(
            graph.edges@,
            v as int,
        ) + graph.edges@[v as int]@.len());
    }
    graph.edges[v as usize].len() as u32
}

/// Every node of `graph` has fewer than `bound` edges.
pub open spec fn degrees_below(graph: &GridGraph, bound: int) -> bool {
    forall|v: int| 0 <= v < graph.node_count() ==> (#[trigger] graph.edges@[v])@.len() < bound
}

/// Decides [`degrees_below`].
pub fn has_degrees_below(graph: &GridGraph, bound: usize) -> (ok: bool)
    ensures
        ok == degrees_below(graph, bound as int),
{
    let mut v: usize = 0;
    while v < graph.edges.len()
        invariant
            v <= graph.edges@.len(),
            forall|u: int| 0 <= u < v ==> (#[trigger] graph.edges@[u])@.len() < bound,
        decreases graph.edges@.len() - v,
    {
        if graph.edges[v].len() >= bound {
            return false;
        }
        v += 1;
    }
    true
}


/// The arcs of the shortcuts that `map` holds for the nodes before `u`,
/// and of the first `k` that it holds for `u`.
pub open spec fn merged_arcs(map: Map<u32, Vec<Shortcut>>, u: int, k: int) -> Set<Arc> {
    Set::new(
        |a: Arc|
            exists|key: u32, i: int|
                map.contains_key(key) && 0 <= i < map[key]@.len() && (key < u || (key == u && i < k)) && edge_arc(
                    (#[trigger] map[key]@[i]).edge,
                ) == a,
    )
}

impl<'a> CNGraphCreator<'a> {
    /// The graph with the edges of all shortcuts made so far.
    fn merged_graph(&self) -> (g: GridGraph)
        requires
            self.sound(),
        ensures
            g.wf(),
            g.node_count() == self.node_count(),
            g.arcs() == self.arcs().union(made_arcs(self.made())),
            is_merged(self.graph_ref, self.get_shortcuts@, &g),
    {
        broadcast use vstd::std_specs::hash::group_hash_axioms;

        let ghost orig = self.graph_ref.arcs();
        let ghost map = self.get_shortcuts@;
        let ghost log = self.log@;
        let mut final_graph = self.graph_ref.duplicate();
        let n: usize = self.graph_ref.edges.len();
        let mut u: usize = 0;
        proof {
            assert(merged_arcs(map, 0, 0) =~= Set::<Arc>::empty());
            assert(orig.union(merged_arcs(map, 0, 0)) =~= orig);
        }
        while u < n
            invariant
                self.sound(),
                orig == self.graph_ref.arcs(),
                map == self.get_shortcuts@,
                log == self.log@,
                n == self.graph_ref.node_count(),
                u <= n,
                final_graph.wf(),
                final_graph.node_count() == n,
                final_graph.number_edges == self.graph_ref.number_edges + held_before(map, u as int),
                final_graph.arcs() == orig.union(merged_arcs(map, u as int, 0)),
                final_graph.nodes@ == self.graph_ref.nodes@,
                forall|v: int|
                    0 <= v < n ==> (#[trigger] final_graph.edges@[v])@ == self.graph_ref.edges@[v]@ + (if v < u {
                        shortcut_edges(map, v)
                    } else {
                        Seq::empty()
                    }),
            decreases n - u,
        {
            let key: u32 = u as u32;
            proof {
                lemma_held_grows(map, u + 1, n as int);
                lemma_held_grows(map, 0, u as int);
            }
            match self.get_shortcuts.get(&key) {
                None => {
                    proof {
                        assert(merged_arcs(map, u + 1, 0) =~= merged_arcs(map, u as int, 0));
                        assert(shortcut_edges(map, u as int) =~= Seq::<Edge>::empty());
                    }
                },
                Some(list) => {
                    let mut k: usize = 0;
                    proof {
                        assert(edges_of(list@, 0) =~= Seq::<Edge>::empty());
                    }
                    while k < list.len()
                        invariant
                            self.sound(),
                            orig == self.graph_ref.arcs(),
                            map == self.get_shortcuts@,
                            log == self.log@,
                            n == self.graph_ref.node_count(),
                            u < n,
                            key == u,
                            map.contains_key(key),
                            *list == map[key],
                            k <= list@.len(),
                            0 <= held_before(map, u as int),
                            held_before(map, u as int) + list@.len() <= log.len(),
                            final_graph.wf(),
                            final_graph.node_count() == n,
                            final_graph.number_edges == self.graph_ref.number_edges + held_before(map, u as int) + k,
                            final_graph.arcs() == orig.union(merged_arcs(map, u as int, k as int)),
                            final_graph.nodes@ == self.graph_ref.nodes@,
                            forall|v: int|
                                0 <= v < n ==> (#[trigger] final_graph.edges@[v])@ == self.graph_ref.edges@[v]@ + (if v
                                    < u {
                                    shortcut_edges(map, v)
                                } else if v == u {
                                    edges_of(list@, k as int)
                                } else {
                                    Seq::empty()
                                }),
                        decreases list@.len() - k,
                    {
                        let edge: Edge = list[k].edge;
                        proof {
                            let m: Made = (list@[k as int].replaced_edges@, edge);
                            assert(map[key]@[k as int].edge.source == key);
                            assert(map.contains_key(m.1.source) && 0 <= k < map[m.1.source]@.len() && map[m.1.source]@[k as int].edge
                                == m.1 && map[m.1.source]@[k as int].replaced_edges@ == m.0);
                            assert(entries(map).contains(m));
                            assert(log.to_set().contains(m));
                            let idx = choose|idx: int| 0 <= idx < log.len() && log[idx] == m;
                            assert(sound_at(orig, log, n as int, idx));
                            assert(merged_arcs(map, u as int, k + 1) =~= merged_arcs(map, u as int, k as int).insert(
                                edge_arc(edge),
                            )) by {
                                assert forall|a: Arc| merged_arcs(map, u as int, k + 1).contains(a) == merged_arcs(
                                    map,
                                    u as int,
                                    k as int,
                                ).insert(edge_arc(edge)).contains(a) by {
                                    if merged_arcs(map, u as int, k + 1).contains(a) {
                                        let (key2, i) = choose|key2: u32, i: int|
                                            map.contains_key(key2) && 0 <= i < map[key2]@.len() && (key2 < u || (key2
                                                == u && i < k + 1)) && edge_arc((#[trigger] map[key2]@[i]).edge) == a;
                                        if key2 == u && i == k {
                                        } else {
                                            assert(map.contains_key(key2) && 0 <= i < map[key2]@.len() && (key2 < u || (
                                            key2 == u && i < k)) && edge_arc(map[key2]@[i].edge) == a);
                                        }
                                    }
                                    if merged_arcs(map, u as int, k as int).contains(a) {
                                        let (key2, i) = choose|key2: u32, i: int|
                                            map.contains_key(key2) && 0 <= i < map[key2]@.len() && (key2 < u || (key2
                                                == u && i < k)) && edge_arc((#[trigger] map[key2]@[i]).edge) == a;
                                        assert(map.contains_key(key2) && 0 <= i < map[key2]@.len() && (key2 < u || (key2
                                            == u && i < k + 1)) && edge_arc(map[key2]@[i].edge) == a);
                                    }
                                    if a == edge_arc(edge) {
                                        assert(map.contains_key(key) && 0 <= k < map[key]@.len() && (key < u || (key == u
                                            && k < k + 1)) && edge_arc(map[key]@[k as int].edge) == a);
                                    }
                                }
                            }
                            assert(orig.union(merged_arcs(map, u as int, k as int)).insert(edge_arc(edge)) =~= orig.union(
                                merged_arcs(map, u as int, k + 1),
                            ));
                        }
                        let ghost lists = final_graph.edges@;
                        final_graph.add_new_edge(edge);
                        proof {
                            assert(edge.source == key);
                            assert forall|v: int| 0 <= v < n implies (#[trigger] final_graph.edges@[v])@
                                == self.graph_ref.edges@[v]@ + (if v < u {
                                shortcut_edges(map, v)
                            } else if v == u {
                                edges_of(list@, k + 1)
                            } else {
                                Seq::empty()
                            }) by {
                                if v == u {
                                    assert(final_graph.edges@[v]@ == lists[v]@.push(edge));
                                    assert(edges_of(list@, k + 1) =~= edges_of(list@, k as int).push(edge));
                                    assert((self.graph_ref.edges@[v]@ + edges_of(list@, k as int)).push(edge)
                                        =~= self.graph_ref.edges@[v]@ + edges_of(list@, k as int).push(edge));
                                } else {
                                    assert(final_graph.edges@[v] == lists[v]);
                                }
                            }
                        }
                        k += 1;
                    }
                    proof {
                        assert(merged_arcs(map, u + 1, 0) =~= merged_arcs(map, u as int, list@.len() as int));
                        assert(shortcut_edges(map, u as int) == edges_of(list@, list@.len() as int));
                    }
                },
            }
            proof {
                assert(held_before(map, u + 1) == held_before(map, u as int) + held_at(map, u as int));
            }
            u += 1;
        }
        proof {
            let all = merged_arcs(map, n as int, 0);
            assert forall|a: Arc| all.contains(a) == made_arcs(log).contains(a) by {
                if all.contains(a) {
                    let (key2, i) = choose|key2: u32, i: int|
                        map.contains_key(key2) && 0 <= i < map[key2]@.len() && (key2 < n || (key2 == n && i < 0))
                            && edge_arc((#[trigger] map[key2]@[i]).edge) == a;
                    let m: Made = (map[key2]@[i].replaced_edges@, map[key2]@[i].edge);
                    assert(map[key2]@[i].edge.source == key2);
                    assert(map.contains_key(m.1.source) && 0 <= i < map[m.1.source]@.len() && map[m.1.source]@[i].edge
                        == m.1 && map[m.1.source]@[i].replaced_edges@ == m.0);
                    assert(entries(map).contains(m));
                    assert(log.to_set().contains(m));
                    let idx = choose|idx: int| 0 <= idx < log.len() && log[idx] == m;
                    assert(edge_arc(log[idx].1) == a);
                }
                if made_arcs(log).contains(a) {
                    let idx = choose|idx: int| 0 <= idx < log.len() && edge_arc(#[trigger] log[idx].1) == a;
                    let m = log[idx];
                    assert(log.to_set().contains(m));
                    assert(entries(map).contains(m));
                    assert(sound_at(orig, log, n as int, idx));
                    let i = choose|i: int|
                        0 <= i < map[m.1.source]@.len() && (#[trigger] map[m.1.source]@[i]).edge == m.1
                            && map[m.1.source]@[i].replaced_edges@ == m.0;
                    assert(map.contains_key(m.1.source) && 0 <= i < map[m.1.source]@.len() && (m.1.source < n || (
                    m.1.source == n && i < 0)) && edge_arc(map[m.1.source]@[i].edge) == a);
                }
            }
            assert(all =~= made_arcs(log));
        }
        final_graph
    }

    /// One round of the contraction: sorts the nodes of `independent_set`
    /// by the number of edges that they have in the graph, leaves out the
    /// rank that holds most of them, and contracts the others, lowest rank
    /// first. The nodes of rank 0 have no neighbour and nothing to
    /// contract. Hands back the rank that was left out.
    fn contract_round(
        &mut self,
        independent_set: &Vec<u32>,
        adj_array: &AdjacencyArray,
        removed_nodes: &HashMap<u32, bool>,
    ) -> (core: usize)
        requires
            old(self).building(),
            old(self).working(removed_nodes@),
            leaves_none(adj_array.arcs(), removed_nodes@),
            keeps_plain(old(self).arcs(), adj_array.arcs(), removed_nodes@),
            degrees_below(old(self).graph_ref, RANKS as int),
            adj_array.wf(),
            adj_array.node_count() == old(self).node_count(),
            adj_array.arcs().subset_of(old(self).arcs().union(made_arcs(old(self).made()))),
            forall|i: int| 0 <= i < independent_set@.len() ==> independent_set@[i] < old(self).node_count(),
        ensures
            final(self).building(),
            final(self).working(removed_nodes@),
            final(self).base == old(self).base,
            final(self).rounds == old(self).rounds,
            final(self).graph_ref == old(self).graph_ref,
            log_prefix(old(self).made(), final(self).made()),
            is_core(old(self).graph_ref, independent_set@, RANKS as int, core as int),
            forall|v: u32|
                final(self).contracted_nodes@.contains_key(v) <==> old(self).contracted_nodes@.contains_key(v)
                    || in_round(old(self).graph_ref, independent_set@, core as int, v),
            round_settled(
                old(self).graph_ref,
                independent_set@,
                core as int,
                adj_array,
                removed_nodes@,
                final(self).contracted_nodes@,
                final(self).made(),
            ),
    {
        broadcast use vstd::std_specs::hash::group_hash_axioms;

        let ghost n = self.graph_ref.node_count();
        let ghost graph = self.graph_ref;
        let ghost set = independent_set@;
        let ghost before = self.contracted_nodes@;
        let mut rank_map: Vec<Vec<u32>> = Vec::new();
        let mut r: usize = 0;
        while r < RANKS
            invariant
                r <= RANKS,
                rank_map@.len() == r,
                forall|a: int| 0 <= a < r ==> (#[trigger] rank_map@[a])@.len() == 0,
            decreases RANKS - r,
        {
            rank_map.push(Vec::new());
            r += 1;
        }
        let mut i: usize = 0;
        while i < independent_set.len()
            invariant
                i <= independent_set@.len(),
                self.building(),
                self.graph_ref == old(self).graph_ref,
                graph == self.graph_ref,
                set == independent_set@,
                n == self.graph_ref.node_count(),
                degrees_below(self.graph_ref, RANKS as int),
                rank_map@.len() == RANKS,
                forall|k: int| 0 <= k < independent_set@.len() ==> independent_set@[k] < n,
                forall|a: int, b: int|
                    0 <= a < RANKS && 0 <= b < rank_map@[a]@.len() ==> (#[trigger] rank_map@[a]@[b]) < n && rank_of(
                        graph,
                        rank_map@[a]@[b],
                    ) == a && among(set, i as int, rank_map@[a]@[b] as int),
                forall|a: int| 0 <= a < RANKS ==> (#[trigger] rank_map@[a])@.len() == ranked(graph, set, i as int, a),
                forall|k: int|
                    0 <= k < i ==> rank_map@[rank_of(graph, #[trigger] set[k])]@.contains(set[k]),
            decreases independent_set@.len() - i,
        {
            let node: u32 = independent_set[i];
            let curr_rank: usize = calc_number_edges(node, self.graph_ref) as usize;
            let ghost earlier = rank_map@;
            rank_map[curr_rank].push(node);
            proof {
                assert(rank_of(graph, node) == curr_rank);
                assert forall|a: int, b: int| 0 <= a < RANKS && 0 <= b < rank_map@[a]@.len() implies (
                #[trigger] rank_map@[a]@[b]) < n && rank_of(graph, rank_map@[a]@[b]) == a && among(
                    set,
                    i + 1,
                    rank_map@[a]@[b] as int,
                ) by {
                    if a == curr_rank && b == earlier[a]@.len() {
                        assert(0 <= i < i + 1 && (i as int) < set.len() && set[i as int] == node);
                    } else {
                        assert(rank_map@[a]@[b] == earlier[a]@[b]);
                        let x = earlier[a]@[b];
                        let k = choose|k: int| 0 <= k < i && k < set.len() && #[trigger] set[k] == x as int;
                        assert(0 <= k < i + 1 && k < set.len() && set[k] == x as int);
                    }
                }
                assert forall|a: int| 0 <= a < RANKS implies (#[trigger] rank_map@[a])@.len() == ranked(
                    graph,
                    set,
                    i + 1,
                    a,
                ) by {
                    assert(earlier[a]@.len() == ranked(graph, set, i as int, a));
                }
                assert forall|k: int| 0 <= k < i + 1 implies rank_map@[rank_of(graph, #[trigger] set[k])]@.contains(
                    set[k],
                ) by {
                    let a = rank_of(graph, set[k]);
                    if k < i {
                        let b = choose|b: int| 0 <= b < earlier[a]@.len() && earlier[a]@[b] == set[k];
                        assert(rank_map@[a]@[b] == set[k]);
                    } else {
                        assert(rank_map@[a]@[earlier[a]@.len() as int] == node);
                    }
                }
            }
            i += 1;
        }
        let mut index_max_nmb_nodes_in_rank: usize = 0;
        let mut max_nmb_nodes: usize = 0;
        let mut rank: usize = 0;
        let ghost all = set.len() as int;
        while rank < RANKS
            invariant
                rank <= RANKS,
                rank_map@.len() == RANKS,
                all == set.len(),
                forall|a: int| 0 <= a < RANKS ==> (#[trigger] rank_map@[a])@.len() == ranked(graph, set, all, a),
                index_max_nmb_nodes_in_rank < RANKS,
                index_max_nmb_nodes_in_rank < rank || (rank == 0 && index_max_nmb_nodes_in_rank == 0),
                max_nmb_nodes == (if rank == 0 {
                    0
                } else {
                    ranked(graph, set, all, index_max_nmb_nodes_in_rank as int)
                }) || (max_nmb_nodes == 0 && index_max_nmb_nodes_in_rank == 0),
                rank > 0 ==> max_nmb_nodes == ranked(graph, set, all, index_max_nmb_nodes_in_rank as int),
                forall|q: int| 0 <= q < rank ==> #[trigger] ranked(graph, set, all, q) <= max_nmb_nodes,
                forall|q: int|
                    0 <= q < index_max_nmb_nodes_in_rank ==> #[trigger] ranked(graph, set, all, q) < max_nmb_nodes,
            decreases RANKS - rank,
        {
            proof {
                assert(rank_map@[rank as int]@.len() == ranked(graph, set, all, rank as int));
                lemma_ranked_bounds(graph, set, all, rank as int);
                lemma_ranked_bounds(graph, set, all, 0);
            }
            if rank_map[rank].len() > max_nmb_nodes {
                max_nmb_nodes = rank_map[rank].len();
                index_max_nmb_nodes_in_rank = rank;
            }
            rank += 1;
        }
        let core: usize = index_max_nmb_nodes_in_rank;
        let ghost sorted = rank_map@;
        rank_map[index_max_nmb_nodes_in_rank] = Vec::new();
        proof {
            assert(self.log@.take(self.log@.len() as int) =~= self.log@);
            assert(is_core(graph, set, RANKS as int, core as int));
        }
        let mut level: usize = 1;
        proof {
            assert forall|v: u32| !picked_up(sorted, core as int, 1, 0, v) by {}
        }
        while level < RANKS
            invariant
                1 <= level <= RANKS,
                self.building(),
                self.working(removed_nodes@),
                self.base == old(self).base,
                self.rounds == old(self).rounds,
                leaves_none(adj_array.arcs(), removed_nodes@),
                keeps_plain(self.arcs(), adj_array.arcs(), removed_nodes@),
                self.graph_ref == old(self).graph_ref,
                graph == self.graph_ref,
                n == self.graph_ref.node_count(),
                log_prefix(old(self).made(), self.made()),
                adj_array.wf(),
                adj_array.node_count() == n,
                adj_array.arcs().subset_of(old(self).arcs().union(made_arcs(old(self).made()))),
                rank_map@.len() == RANKS,
                sorted.len() == RANKS,
                core < RANKS,
                forall|a: int| 0 <= a < RANKS && a != core ==> (#[trigger] rank_map@[a]) == sorted[a],
                rank_map@[core as int]@.len() == 0,
                forall|a: int, b: int|
                    0 <= a < RANKS && 0 <= b < sorted[a]@.len() ==> (#[trigger] sorted[a]@[b]) < n,
                forall|v: u32| #[trigger]
                    self.contracted_nodes@.contains_key(v) <==> before.contains_key(v) || picked_up(
                        sorted,
                        core as int,
                        level as int,
                        0,
                        v,
                    ),
                turns_settled(
                    adj_array,
                    removed_nodes@,
                    self.contracted_nodes@,
                    sorted,
                    core as int,
                    level as int,
                    0,
                    self.made(),
                    graph.number_edges as int,
                ),
            decreases RANKS - level,
        {
            let mut j: usize = 0;
            while j < rank_map[level].len()
                invariant
                    1 <= level < RANKS,
                    j <= rank_map@[level as int]@.len(),
                    self.building(),
                    self.working(removed_nodes@),
                    self.base == old(self).base,
                    self.rounds == old(self).rounds,
                    leaves_none(adj_array.arcs(), removed_nodes@),
                keeps_plain(self.arcs(), adj_array.arcs(), removed_nodes@),
                    self.graph_ref == old(self).graph_ref,
                    graph == self.graph_ref,
                    n == self.graph_ref.node_count(),
                    log_prefix(old(self).made(), self.made()),
                    adj_array.wf(),
                    adj_array.node_count() == n,
                    adj_array.arcs().subset_of(old(self).arcs().union(made_arcs(old(self).made()))),
                    rank_map@.len() == RANKS,
                    sorted.len() == RANKS,
                    core < RANKS,
                    forall|a: int| 0 <= a < RANKS && a != core ==> (#[trigger] rank_map@[a]) == sorted[a],
                    rank_map@[core as int]@.len() == 0,
                    forall|a: int, b: int|
                        0 <= a < RANKS && 0 <= b < sorted[a]@.len() ==> (#[trigger] sorted[a]@[b]) < n,
                    forall|v: u32| #[trigger]
                        self.contracted_nodes@.contains_key(v) <==> before.contains_key(v) || picked_up(
                            sorted,
                            core as int,
                            level as int,
                            j as int,
                            v,
                        ),
                    turns_settled(
                        adj_array,
                        removed_nodes@,
                        self.contracted_nodes@,
                        sorted,
                        core as int,
                        level as int,
                        j as int,
                        self.made(),
                        graph.number_edges as int,
                    ),
                decreases rank_map@[level as int]@.len() - j,
            {
                let node: u32 = rank_map[level][j];
                let ghost mid = self.made();
                let ghost held = self.contracted_nodes@;
                proof {
                    assert(rank_map@[level as int] == sorted[level as int] && level != core);
                    assert(sorted[level as int]@[j as int] < n);
                    lemma_made_arcs_grow(old(self).made(), self.made());
                }
                self.find_shortcuts(node, adj_array, removed_nodes);
                proof {
                    lemma_prefix_chain(old(self).made(), mid, self.made());
                    assert forall|v: u32| #[trigger]
                        self.contracted_nodes@.contains_key(v) <==> before.contains_key(v) || picked_up(
                            sorted,
                            core as int,
                            level as int,
                            j + 1,
                            v,
                        ) by {
                        assert(self.contracted_nodes@.contains_key(v) <==> held.contains_key(v) || v == node);
                        assert(held.contains_key(v) <==> before.contains_key(v) || picked_up(
                            sorted,
                            core as int,
                            level as int,
                            j as int,
                            v,
                        ));
                        lemma_picked_step(sorted, core as int, level as int, j as int, v);
                    }
                    assert forall|v: u32, u: u32, w: u32|
                        picked_up(sorted, core as int, level as int, j + 1, v) && #[trigger] is_due(
                            adj_array,
                            removed_nodes@,
                            self.contracted_nodes@,
                            v,
                            u,
                            w,
                        ) implies settled_pair(self.made(), graph.number_edges as int, u, w) by {
                        lemma_picked_step(sorted, core as int, level as int, j as int, v);
                        lemma_due_fewer(adj_array, removed_nodes@, held, self.contracted_nodes@, v, u, w);
                        if v != node {
                            assert(picked_up(sorted, core as int, level as int, j as int, v));
                            assert(settled_pair(mid, graph.number_edges as int, u, w));
                            assert(mid.take(mid.len() as int) =~= mid);
                            lemma_settled_stays(mid, self.made(), graph.number_edges as int, u, w);
                        }
                    }
                }
                j += 1;
            }
            proof {
                assert forall|v: u32| #[trigger]
                    self.contracted_nodes@.contains_key(v) <==> before.contains_key(v) || picked_up(
                        sorted,
                        core as int,
                        level + 1,
                        0,
                        v,
                    ) by {
                    assert(self.contracted_nodes@.contains_key(v) <==> before.contains_key(v) || picked_up(
                        sorted,
                        core as int,
                        level as int,
                        j as int,
                        v,
                    ));
                    lemma_picked_row(sorted, core as int, level as int, j as int, v);
                }
                assert forall|v: u32, u: u32, w: u32|
                    picked_up(sorted, core as int, level + 1, 0, v) && #[trigger] is_due(
                        adj_array,
                        removed_nodes@,
                        self.contracted_nodes@,
                        v,
                        u,
                        w,
                    ) implies settled_pair(self.made(), graph.number_edges as int, u, w) by {
                    lemma_picked_row(sorted, core as int, level as int, j as int, v);
                }
            }
            level += 1;
        }
        proof {
            assert forall|v: u32|
                self.contracted_nodes@.contains_key(v) <==> before.contains_key(v) || in_round(
                    graph,
                    set,
                    core as int,
                    v,
                ) by {
                assert(self.contracted_nodes@.contains_key(v) <==> before.contains_key(v) || picked_up(
                    sorted,
                    core as int,
                    RANKS as int,
                    0,
                    v,
                ));
                if picked_up(sorted, core as int, RANKS as int, 0, v) {
                    let (a, b) = choose|a: int, b: int|
                        1 <= a <= RANKS && a != core && a < sorted.len() && 0 <= b < sorted[a]@.len() && (a < RANKS || b
                            < 0) && #[trigger] sorted[a]@[b] == v;
                    assert(rank_of(graph, sorted[a]@[b]) == a && among(set, all, sorted[a]@[b] as int));
                }
                if in_round(graph, set, core as int, v) {
                    let k = choose|k: int| 0 <= k < all && k < set.len() && #[trigger] set[k] == v as int;
                    let a = rank_of(graph, set[k]);
                    assert(sorted[a]@.contains(set[k]));
                    let b = choose|b: int| 0 <= b < sorted[a]@.len() && sorted[a]@[b] == set[k];
                    assert(a < RANKS) by {
                        assert(set[k] < n);
                    }
                    assert(1 <= a <= RANKS && a != core && a < sorted.len() && 0 <= b < sorted[a]@.len() && (a < RANKS
                        || b < 0) && sorted[a]@[b] == v);
                }
            }
            assert forall|v: u32, u: u32, w: u32|
                in_round(graph, set, core as int, v) && #[trigger] is_due(
                    adj_array,
                    removed_nodes@,
                    self.contracted_nodes@,
                    v,
                    u,
                    w,
                ) implies settled_pair(self.made(), graph.number_edges as int, u, w) by {
                let k = choose|k: int| 0 <= k < all && k < set.len() && #[trigger] set[k] == v as int;
                let a = rank_of(graph, set[k]);
                assert(sorted[a]@.contains(set[k]));
                let b = choose|b: int| 0 <= b < sorted[a]@.len() && sorted[a]@[b] == set[k];
                assert(a < RANKS) by {
                    assert(set[k] < n);
                }
                assert(1 <= a <= RANKS && a != core && a < sorted.len() && 0 <= b < sorted[a]@.len() && (a < RANKS || b
                    < 0) && sorted[a]@[b] == v);
                assert(picked_up(sorted, core as int, RANKS as int, 0, v));
            }
        }
        core
    }

    /// Takes the nodes of `independent_set` out of the working graph, and
    /// notes them in `removed_nodes`.
    fn remove_nodes(&mut self, independent_set: &Vec<u32>, removed_nodes: &mut HashMap<u32, bool>)
        requires
            old(self).building(),
            old(self).working(old(removed_nodes)@),
            forall|k: int| 0 <= k < independent_set@.len() ==> independent_set@[k] < old(self).node_count(),
        ensures
            final(self).building(),
            final(self).working(final(removed_nodes)@),
            final(self).base == old(self).base,
            final(self).graph_ref == old(self).graph_ref,
            final(self).made() == old(self).made(),
            final(self).contracted_nodes == old(self).contracted_nodes,
            final(self).get_shortcuts == old(self).get_shortcuts,
            final(self).rounds == old(self).rounds,
            final(self).modified_graph.arcs() == old(self).modified_graph.arcs().filter(
                |a: Arc| !among(independent_set@, independent_set@.len() as int, a.0),
            ),
            noted(old(removed_nodes)@, final(removed_nodes)@, independent_set@, independent_set@.len() as int),
    {
        broadcast use vstd::std_specs::hash::group_hash_axioms;

        let ghost working = self.modified_graph.arcs();
        let ghost marked = removed_nodes@;
        let ghost set = independent_set@;
        let mut i: usize = 0;
        proof {
            assert(working.filter(|a: Arc| !among(set, 0, a.0)) =~= working);
            assert(noted(marked, removed_nodes@, set, 0));
        }
        while i < independent_set.len()
            invariant
                i <= independent_set@.len(),
                set == independent_set@,
                self.building(),
                self.graph_ref == old(self).graph_ref,
                self.made() == old(self).made(),
                self.contracted_nodes == old(self).contracted_nodes,
                self.get_shortcuts == old(self).get_shortcuts,
                self.rounds == old(self).rounds,
                self.base == old(self).base,
                self.log == old(self).log,
                forall|k: int| 0 <= k < independent_set@.len() ==> independent_set@[k] < self.node_count(),
                self.modified_graph.arcs() == working.filter(|a: Arc| !among(set, i as int, a.0)),
                noted(marked, removed_nodes@, set, i as int),
            decreases independent_set@.len() - i,
        {
            let ghost held = removed_nodes@;
            let node: u32 = independent_set[i];
            self.modified_graph.remove_edges_of_node(node);
            removed_nodes.insert(node, true);
            proof {
                assert(removed_nodes@ == held.insert(node, true));
                assert forall|v: int| among(set, i + 1, v) <==> among(set, i as int, v) || v == node by {
                    if among(set, i as int, v) {
                        let k = choose|k: int| 0 <= k < i && set[k] == v;
                        assert(0 <= k < i + 1 && set[k] == v);
                    }
                    if v == node {
                        assert(0 <= i < i + 1 && set[i as int] == v);
                    }
                    if among(set, i + 1, v) {
                        let k = choose|k: int| 0 <= k < i + 1 && set[k] == v;
                        if k < i {
                            assert(among(set, i as int, v));
                        }
                    }
                }
                assert(self.modified_graph.arcs() =~= working.filter(|a: Arc| !among(set, i + 1, a.0)));
                assert forall|k: u32| #[trigger]
                    removed_nodes@.contains_key(k) <==> marked.contains_key(k) || among(set, i + 1, k as int) by {
                    assert(held.contains_key(k) <==> marked.contains_key(k) || among(set, i as int, k as int));
                    assert(among(set, i + 1, k as int) <==> among(set, i as int, k as int) || k as int == node);
                }
                assert forall|k: u32| #[trigger] removed_nodes@.contains_key(k) implies removed_nodes@[k] == (if among(
                    set,
                    i + 1,
                    k as int,
                ) {
                    true
                } else {
                    marked[k]
                }) by {
                    assert(among(set, i + 1, k as int) <==> among(set, i as int, k as int) || k as int == node);
                    assert(held.contains_key(k) <==> marked.contains_key(k) || among(set, i as int, k as int));
                    if k != node {
                        assert(held.contains_key(k));
                        assert(removed_nodes@[k] == held[k]);
                    }
                }
            }
            i += 1;
        }
        proof {
            let orig = self.graph_ref.arcs();
            let all = set.len() as int;
            assert forall|a: Arc| self.modified_graph.arcs().contains(a) == working_arcs(
                orig,
                self.log@,
                self.base@,
                self.log@.len() as int,
                removed_nodes@,
            ).contains(a) by {
                if 0 <= a.0 <= u32::MAX {
                    let k = a.0 as u32;
                    assert(removed_nodes@.contains_key(k) <==> marked.contains_key(k) || among(set, all, k as int));
                } else {
                    assert(!among(set, all, a.0));
                }
            }
            assert(self.modified_graph.arcs() =~= working_arcs(
                orig,
                self.log@,
                self.base@,
                self.log@.len() as int,
                removed_nodes@,
            ));
        }
    }

    /// Builds the contraction. Round after round an independent set of a
    /// hundredth of the nodes is picked at random and contracted, and its
    /// nodes are removed from the working graph, until nine tenths of the
    /// nodes have been picked or a round finds no node to pick. The result
    /// holds the graph with the edges of all shortcuts, and the shortcuts by
    /// the node that they leave. Where every edge of the graph has a length
    /// above zero, every route over the result unwraps.
    pub fn build_cn_graph(&mut self) -> (meta: CNMetadata)
        requires
            old(self).sound(),
            degrees_below(&old(self).graph(), RANKS as int),
        ensures
            final(self).sound(),
            final(self).graph() == old(self).graph(),
            final(self).arcs() == old(self).arcs(),
            final(self).node_count() == old(self).node_count(),
            log_prefix(old(self).made(), final(self).made()),
            contracts(old(self).arcs(), old(self).node_count(), &meta, final(self).made()),
            crate::algorithms::paths::positive(old(self).arcs()) ==> crate::algorithms::unwrap_shortcuts::always_unwraps(
                meta.get_shortcuts@,
                crate::algorithms::unwrap_shortcuts::MAX_NESTING as nat,
            ),
            is_merged(&old(self).graph(), meta.get_shortcuts@, &meta.graph),
            is_built(
                &old(self).graph(),
                old(self).made(),
                final(self).made(),
                old(self).rounds(),
                final(self).rounds(),
                old(self).contracted(),
                final(self).contracted(),
            ),
    {
        let mut source = NodeSource::of_thread();
        self.build_from(&mut source)
    }

    /// Contracts the graph as [`CNGraphCreator::build_cn_graph`] does, with
    /// the independent sets drawn from the generator that `seed` gives: the
    /// same seed gives the same draws, and so the same contraction.
    pub fn build_cn_graph_seeded(&mut self, seed: u64) -> (meta: CNMetadata)
        requires
            old(self).sound(),
            degrees_below(&old(self).graph(), RANKS as int),
        ensures
            final(self).sound(),
            final(self).graph() == old(self).graph(),
            final(self).arcs() == old(self).arcs(),
            final(self).node_count() == old(self).node_count(),
            log_prefix(old(self).made(), final(self).made()),
            contracts(old(self).arcs(), old(self).node_count(), &meta, final(self).made()),
            crate::algorithms::paths::positive(old(self).arcs()) ==> crate::algorithms::unwrap_shortcuts::always_unwraps(
                meta.get_shortcuts@,
                crate::algorithms::unwrap_shortcuts::MAX_NESTING as nat,
            ),
            is_merged(&old(self).graph(), meta.get_shortcuts@, &meta.graph),
            is_built(
                &old(self).graph(),
                old(self).made(),
                final(self).made(),
                old(self).rounds(),
                final(self).rounds(),
                old(self).contracted(),
                final(self).contracted(),
            ),
    {
        let mut source = NodeSource::seeded(seed);
        self.build_from(&mut source)
    }

    /// Contracts the graph with the independent sets drawn from `source`.
    fn build_from(&mut self, source: &mut NodeSource) -> (meta: CNMetadata)
        requires
            old(self).sound(),
            degrees_below(&old(self).graph(), RANKS as int),
        ensures
            final(self).sound(),
            final(self).graph() == old(self).graph(),
            final(self).arcs() == old(self).arcs(),
            final(self).node_count() == old(self).node_count(),
            log_prefix(old(self).made(), final(self).made()),
            contracts(old(self).arcs(), old(self).node_count(), &meta, final(self).made()),
            crate::algorithms::paths::positive(old(self).arcs()) ==> crate::algorithms::unwrap_shortcuts::always_unwraps(
                meta.get_shortcuts@,
                crate::algorithms::unwrap_shortcuts::MAX_NESTING as nat,
            ),
            is_merged(&old(self).graph(), meta.get_shortcuts@, &meta.graph),
            is_built(
                &old(self).graph(),
                old(self).made(),
                final(self).made(),
                old(self).rounds(),
                final(self).rounds(),
                old(self).contracted(),
                final(self).contracted(),
            ),
    {
        broadcast use vstd::std_specs::hash::group_hash_axioms;

        let n: usize = self.graph_ref.edges.len();
        let mut collected_nodes: u64 = 0;
        self.modified_graph = self.graph_ref.duplicate();
        let mut removed_nodes: HashMap<u32, bool> = HashMap::new();
        let i_set_size: usize = n / 100;
        let ghost first = old(self).rounds@.len() as int;
        let ghost graph = self.graph_ref;
        let ghost base = self.log@.len() as int;
        proof {
            self.base@ = base;
            assert(self.log@.take(self.log@.len() as int) =~= self.log@);
            assert(self.rounds@.take(first) =~= old(self).rounds@);
            assert(self.log@.subrange(base, base) =~= Seq::<Made>::empty());
            assert(made_arcs(Seq::<Made>::empty()) =~= Set::<Arc>::empty());
            assert(working_arcs(graph.arcs(), self.log@, base, base, removed_nodes@) =~= graph.arcs());
        }
        while collected_nodes * 10 < 9 * (n as u64)
            invariant
                graph == self.graph_ref,
                first == old(self).rounds@.len(),
                first <= self.rounds@.len(),
                self.rounds@.take(first) == old(self).rounds@,
                forall|r: int|
                    first <= r < self.rounds@.len() ==> round_ok(
                        graph,
                        base,
                        self.log@,
                        self.contracted_nodes@,
                        #[trigger] self.rounds@[r],
                    ) && follows(self.rounds@, first, r, self.rounds@[r].3),
                follows(self.rounds@, first, self.rounds@.len() as int, removed_nodes@),
                collected_nodes == collected(self.rounds@, first, self.rounds@.len() as int),
                n < 100 ==> self.rounds@.len() == first && self.log@ == old(self).log@,
                forall|v: u32| #[trigger]
                    self.contracted_nodes@.contains_key(v) <==> old(self).contracted_nodes@.contains_key(v)
                        || rounds_done(graph, self.rounds@, first, v),
                self.building(),
                self.working(removed_nodes@),
                self.base@ == base,
                self.graph_ref == old(self).graph_ref,
                n == self.graph_ref.node_count(),
                n < u32::MAX,
                i_set_size == n / 100,
                degrees_below(self.graph_ref, RANKS as int),
                log_prefix(old(self).made(), self.made()),
                collected_nodes * 10 <= 19 * n,
            ensures
                n >= 100 ==> self.rounds@.len() > first,
                collected(self.rounds@, first, self.rounds@.len() as int) * 10 >= 9 * n || ended_short(
                    graph,
                    base,
                    self.log@,
                    self.rounds@,
                    first,
                ),
            decreases 19 * n - collected_nodes * 10,
        {
            let modified_adj_array = self.modified_graph.adjacency_array();
            let independent_set = pick_independent_set(&modified_adj_array, &removed_nodes, i_set_size, source);
            proof {
                if self.rounds@.len() == first && n >= 100 {
                    lemma_drawn_some(&modified_adj_array, removed_nodes@, i_set_size as int, independent_set@);
                }
            }
            if independent_set.len() == 0 {
                proof {
                    assert(independent_set@ =~= Seq::<u32>::empty());
                    assert(modified_adj_array.wf() && modified_adj_array.arcs() == working_arcs(
                        graph.arcs(),
                        self.log@,
                        base,
                        self.log@.len() as int,
                        removed_nodes@,
                    ) && follows(self.rounds@, first, self.rounds@.len() as int, removed_nodes@) && is_random_set(
                        &modified_adj_array,
                        removed_nodes@,
                        graph.node_count() / 100,
                        Seq::<u32>::empty(),
                    ));
                }
                break ;
            }
            collected_nodes = collected_nodes + independent_set.len() as u64;
            let ghost mid = self.made();
            let ghost held = self.contracted_nodes@;
            let ghost earlier = self.rounds@;
            proof {
                assert forall|i: int| 0 <= i < independent_set@.len() implies independent_set@[i] < n by {}
                assert(leaves_none(modified_adj_array.arcs(), removed_nodes@));
                assert(keeps_plain(self.arcs(), modified_adj_array.arcs(), removed_nodes@));
            }
            let ghost removed_before = removed_nodes@;
            let ghost log_before = self.log@;
            let core: usize = self.contract_round(&independent_set, &modified_adj_array, &removed_nodes);
            proof {
                lemma_prefix_chain(old(self).made(), mid, self.made());
                let round: Round = (
                    independent_set@,
                    core as int,
                    modified_adj_array,
                    removed_before,
                    log_before.len() as int,
                );
                self.rounds@ = earlier.push(round);
                let now = self.rounds@;
                let last = earlier.len() as int;
                assert(now.take(first) =~= earlier.take(first));
                assert(is_round(graph, independent_set@, core as int));
                assert(self.log@.subrange(base, log_before.len() as int) =~= log_before.subrange(
                    base,
                    log_before.len() as int,
                )) by {
                    assert forall|i: int| 0 <= i < log_before.len() - base implies self.log@.subrange(
                        base,
                        log_before.len() as int,
                    )[i] == log_before.subrange(base, log_before.len() as int)[i] by {
                        assert(self.log@.take(log_before.len() as int)[base + i] == self.log@[base + i]);
                    }
                }
                assert(round_ok(graph, base, self.log@, self.contracted_nodes@, round));
                assert forall|r: int| first <= r < now.len() implies round_ok(
                    graph,
                    base,
                    self.log@,
                    self.contracted_nodes@,
                    #[trigger] now[r],
                ) && follows(now, first, r, now[r].3) by {
                    if r < last {
                        assert(now[r] == earlier[r]);
                        lemma_round_ok_stays(graph, base, log_before, self.log@, held, self.contracted_nodes@, earlier[r]);
                        assert(follows(earlier, first, r, earlier[r].3));
                        if r > first {
                            assert(now[r - 1] == earlier[r - 1]);
                        }
                    } else {
                        assert(follows(earlier, first, last, removed_before));
                        if last > first {
                            assert(now[last - 1] == earlier[last - 1]);
                        }
                    }
                }
                assert(collected(now, first, now.len() as int) == collected(earlier, first, last) + independent_set@.len()) by {
                    lemma_collected_same(earlier, now, first, last);
                }
                assert forall|v: u32| #[trigger]
                    self.contracted_nodes@.contains_key(v) <==> old(self).contracted_nodes@.contains_key(v)
                        || rounds_done(graph, now, first, v) by {
                    assert(held.contains_key(v) <==> old(self).contracted_nodes@.contains_key(v) || rounds_done(
                        graph,
                        earlier,
                        first,
                        v,
                    ));
                    if rounds_done(graph, earlier, first, v) {
                        let r = choose|r: int|
                            first <= r < earlier.len() && in_round(graph, (#[trigger] earlier[r]).0, earlier[r].1, v);
                        assert(now[r] == earlier[r]);
                        assert(first <= r < now.len() && in_round(graph, now[r].0, now[r].1, v));
                    }
                    if in_round(graph, independent_set@, core as int, v) {
                        let r = earlier.len() as int;
                        assert(first <= r < now.len() && in_round(graph, now[r].0, now[r].1, v));
                    }
                    if rounds_done(graph, now, first, v) {
                        let r = choose|r: int| first <= r < now.len() && in_round(graph, (#[trigger] now[r]).0, now[r].1, v);
                        if r < earlier.len() {
                            assert(now[r] == earlier[r]);
                            assert(first <= r < earlier.len() && in_round(graph, earlier[r].0, earlier[r].1, v));
                        }
                    }
                }
            }
            self.remove_nodes(&independent_set, &mut removed_nodes);
            proof {
                let now = self.rounds@;
                assert(now[now.len() - 1].0 == independent_set@ && now[now.len() - 1].3 == removed_before);
                assert(follows(now, first, now.len() as int, removed_nodes@));
            }
        }
        proof {
            let before = old(self).rounds@;
            let after = self.rounds@;
            assert(*graph == old(self).graph());
            assert(base == old(self).made().len());
            if n < 100 {
                assert(after.take(after.len() as int) =~= after);
            }
            assert(is_built(
                graph,
                old(self).made(),
                self.made(),
                before,
                after,
                old(self).contracted_nodes@,
                self.contracted_nodes@,
            ));
        }
        let final_graph = self.merged_graph();
        let meta = CNMetadata { graph: final_graph, get_shortcuts: self.get_shortcuts.clone() };
        proof {
            if crate::algorithms::paths::positive(old(self).arcs()) {
                lemma_contraction_always_unwraps(old(self).arcs(), old(self).node_count(), &meta, self.made());
            }
        }
        meta
    }
}

} // verus!
