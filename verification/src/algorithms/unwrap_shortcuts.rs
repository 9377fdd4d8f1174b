use vstd::prelude::*;
use std::collections::HashMap;
use crate::model::cn_model::Shortcut;
use crate::model::adjacency_array::Arc;
use crate::algorithms::paths::{is_route, is_route_within, ids, is_profile, lemma_route_profile, lemma_route_join,
    positive, lemma_profile_rises};

verus! {

/// The way that the first shortcut of `list`, from position `from` on,
/// that leads to `target` replaces.
pub open spec fn way_to(list: Seq<Shortcut>, from: int, target: u32) -> Option<Seq<u32>>
    decreases list.len() - from,
{
    if from < 0 || from >= list.len() {
        None
    } else if list[from].edge.target == target {
        Some(list[from].replaced_edges@)
    } else {
        way_to(list, from + 1, target)
    }
}

/// The way that the shortcut from `a` to `b` replaces, if there is one.
pub open spec fn way_of(shortcuts: Map<u32, Vec<Shortcut>>, a: u32, b: u32) -> Option<Seq<u32>> {
    if shortcuts.contains_key(a) {
        way_to(shortcuts[a]@, 0, b)
    } else {
        None
    }
}

/// A shortcut of `shortcuts` leads from `a` to `b`.
pub open spec fn replaced(shortcuts: Map<u32, Vec<Shortcut>>, a: u32, b: u32) -> bool {
    way_of(shortcuts, a, b) is Some
}

/// What the step from `a` to `b` unwraps to, without the node `b`: the
/// node `a` alone where no shortcut leads from `a` to `b`, else what the
/// way that the shortcut replaces unwraps to. `None` when shortcuts are
/// nested deeper than `fuel`.
pub open spec fn unwrapped_step(a: u32, b: u32, shortcuts: Map<u32, Vec<Shortcut>>, fuel: nat) -> Option<Seq<u32>>
    decreases fuel, 0int,
{
    match way_of(shortcuts, a, b) {
        None => Some(seq![a]),
        Some(way) => if fuel == 0 {
            None
        } else {
            unwrapped_upto(way, way.len() - 1, shortcuts, (fuel - 1) as nat)
        },
    }
}

/// What the first `upto` steps of `route` unwrap to, without the node at
/// the end of the last of them.
pub open spec fn unwrapped_upto(route: Seq<u32>, upto: int, shortcuts: Map<u32, Vec<Shortcut>>, fuel: nat) -> Option<
    Seq<u32>,
>
    decreases fuel, 1int, upto,
{
    if upto <= 0 || upto >= route.len() {
        Some(Seq::empty())
    } else {
        match (
            unwrapped_upto(route, upto - 1, shortcuts, fuel),
            unwrapped_step(route[upto - 1], route[upto], shortcuts, fuel),
        ) {
            (Some(before), Some(step)) => Some(before + step),
            _ => None,
        }
    }
}

/// What `route` unwraps to: every step of it that a shortcut stands for is
/// replaced by the way that the shortcut replaces, and so is every such
/// step of that way, until no step is left that a shortcut stands for.
/// `None` when shortcuts are nested deeper than `fuel`.
pub open spec fn unwrapped(route: Seq<u32>, shortcuts: Map<u32, Vec<Shortcut>>, fuel: nat) -> Option<Seq<u32>> {
    if route.len() == 0 {
        Some(Seq::empty())
    } else {
        match unwrapped_upto(route, route.len() - 1, shortcuts, fuel) {
            Some(steps) => Some(steps.push(route.last())),
            None => None,
        }
    }
}

/// Every route unwraps: no shortcuts are nested deeper than `depth`.
pub open spec fn always_unwraps(shortcuts: Map<u32, Vec<Shortcut>>, depth: nat) -> bool {
    forall|route: Seq<u32>| #[trigger] unwrapped(route, shortcuts, depth) is Some
}

/// An arc leads from `a` to `b`.
pub open spec fn linked(arcs: Set<Arc>, a: int, b: int) -> bool {
    exists|w: nat| arcs.contains((a, b, w))
}

/// Every two neighbours in `route` are joined by an arc.
pub open spec fn is_node_path(arcs: Set<Arc>, route: Seq<u32>) -> bool {
    forall|i: int| 0 <= i < route.len() - 1 ==> linked(arcs, #[trigger] route[i] as int, route[i + 1] as int)
}

/// No two neighbours in `route` are the ends of a shortcut.
pub open spec fn is_plain(shortcuts: Map<u32, Vec<Shortcut>>, route: Seq<u32>) -> bool {
    forall|i: int| 0 <= i < route.len() - 1 ==> !replaced(shortcuts, #[trigger] route[i], route[i + 1])
}

/// Every shortcut stands in the list of the first node of the way that it
/// replaces, leads to the last node of that way, and replaces a way of two
/// nodes at least whose neighbours are joined by arcs; and no two
/// shortcuts of a list lead to the same node.
pub open spec fn ways_are_paths(arcs: Set<Arc>, shortcuts: Map<u32, Vec<Shortcut>>) -> bool {
    &&& forall|k: u32, i: int|
        shortcuts.contains_key(k) && 0 <= i < shortcuts[k]@.len() ==> {
            let s = #[trigger] shortcuts[k]@[i];
            &&& s.replaced_edges@.len() >= 2
            &&& s.replaced_edges@[0] == k
            &&& s.replaced_edges@.last() == s.edge.target
            &&& is_node_path(arcs, s.replaced_edges@)
        }
    &&& forall|k: u32, i: int, j: int|
        shortcuts.contains_key(k) && 0 <= i < j < shortcuts[k]@.len() ==> (#[trigger] shortcuts[k]@[i]).edge.target != (
        #[trigger] shortcuts[k]@[j]).edge.target
}

/// The arcs `all` are those of `plain` and arcs that shortcuts stand for:
/// where `all` joins two nodes that `plain` does not join, a shortcut
/// leads from the one to the other.
pub open spec fn adds_shortcuts(plain: Set<Arc>, all: Set<Arc>, shortcuts: Map<u32, Vec<Shortcut>>) -> bool {
    forall|a: u32, b: u32|
        #[trigger] linked(all, a as int, b as int) && !linked(plain, a as int, b as int) ==> replaced(shortcuts, a, b)
}

/// The way that a shortcut from `a` to `b` replaces is that of a shortcut
/// in the list of `a`.
pub proof fn lemma_way_found(list: Seq<Shortcut>, from: int, target: u32) -> (at: int)
    requires
        0 <= from,
        way_to(list, from, target) is Some,
    ensures
        from <= at < list.len(),
        list[at].edge.target == target,
        way_to(list, from, target) == Some(list[at].replaced_edges@),
    decreases list.len() - from,
{
    if list[from].edge.target == target {
        from
    } else {
        lemma_way_found(list, from + 1, target)
    }
}

/// Where no shortcut of the list leads to `target`, no way is found.
pub proof fn lemma_way_none(list: Seq<Shortcut>, from: int, target: u32)
    requires
        0 <= from,
        forall|j: int| from <= j < list.len() ==> (#[trigger] list[j]).edge.target != target,
    ensures
        way_to(list, from, target) is None,
    decreases list.len() - from,
{
    if from < list.len() {
        assert(list[from].edge.target != target);
        lemma_way_none(list, from + 1, target);
    }
}

/// Where no way is found, no shortcut of the list leads to `target`.
pub proof fn lemma_way_all(list: Seq<Shortcut>, from: int, target: u32, at: int)
    requires
        0 <= from <= at < list.len(),
        way_to(list, from, target) is None,
    ensures
        list[at].edge.target != target,
    decreases list.len() - from,
{
    if from < at {
        lemma_way_all(list, from + 1, target, at);
    }
}

/// What a step over arcs unwraps to begins with the node that the step
/// leaves; its neighbours are joined by arcs and are not the ends of a
/// shortcut; and neither are its last node and the node that the step
/// leads to.
pub proof fn lemma_step_shape(arcs: Set<Arc>, a: u32, b: u32, shortcuts: Map<u32, Vec<Shortcut>>, fuel: nat)
    requires
        ways_are_paths(arcs, shortcuts),
        linked(arcs, a as int, b as int),
        unwrapped_step(a, b, shortcuts, fuel) is Some,
    ensures
        ({
            let step = unwrapped_step(a, b, shortcuts, fuel).unwrap();
            &&& step.len() >= 1
            &&& step[0] == a
            &&& is_plain(shortcuts, step)
            &&& is_node_path(arcs, step)
            &&& !replaced(shortcuts, step.last(), b)
            &&& linked(arcs, step.last() as int, b as int)
        }),
    decreases fuel, 0int,
{
    match way_of(shortcuts, a, b) {
        None => {},
        Some(way) => {
            let at = lemma_way_found(shortcuts[a]@, 0, b);
            let s = shortcuts[a]@[at];
            assert(way == s.replaced_edges@ && way.len() >= 2 && way[0] == a && way.last() == b && is_node_path(
                arcs,
                way,
            ));
            lemma_upto_shape(arcs, way, way.len() - 1, shortcuts, (fuel - 1) as nat);
        },
    }
}

/// What the first steps of a path over arcs unwrap to begins with the
/// first node of the path; its neighbours are joined by arcs and are not
/// the ends of a shortcut; and neither are its last node and the node
/// that the last of these steps leads to.
pub proof fn lemma_upto_shape(arcs: Set<Arc>, route: Seq<u32>, upto: int, shortcuts: Map<u32, Vec<Shortcut>>, fuel: nat)
    requires
        ways_are_paths(arcs, shortcuts),
        is_node_path(arcs, route),
        1 <= upto < route.len(),
        unwrapped_upto(route, upto, shortcuts, fuel) is Some,
    ensures
        ({
            let steps = unwrapped_upto(route, upto, shortcuts, fuel).unwrap();
            &&& steps.len() >= upto
            &&& steps[0] == route[0]
            &&& is_plain(shortcuts, steps)
            &&& is_node_path(arcs, steps)
            &&& !replaced(shortcuts, steps.last(), route[upto])
            &&& linked(arcs, steps.last() as int, route[upto] as int)
        }),
    decreases fuel, 1int, upto,
{
    let before = unwrapped_upto(route, upto - 1, shortcuts, fuel).unwrap();
    let step = unwrapped_step(route[upto - 1], route[upto], shortcuts, fuel).unwrap();
    let steps = before + step;
    assert(linked(arcs, route[upto - 1] as int, route[(upto - 1) + 1] as int));
    lemma_step_shape(arcs, route[upto - 1], route[upto], shortcuts, fuel);
    if upto == 1 {
        assert(before =~= Seq::<u32>::empty());
        assert(steps =~= step);
    } else {
        lemma_upto_shape(arcs, route, upto - 1, shortcuts, fuel);
        assert forall|i: int| 0 <= i < steps.len() - 1 implies !replaced(shortcuts, #[trigger] steps[i], steps[i + 1])
            && linked(arcs, steps[i] as int, steps[i + 1] as int) by {
            if i + 1 < before.len() {
                assert(!replaced(shortcuts, before[i], before[i + 1]));
                assert(linked(arcs, before[i] as int, before[i + 1] as int));
            } else if i + 1 == before.len() {
                assert(steps[i] == before.last() && steps[i + 1] == step[0]);
            } else {
                let j = i - before.len();
                assert(steps[i] == step[j] && steps[i + 1] == step[j + 1]);
                assert(!replaced(shortcuts, step[j], step[j + 1]));
                assert(linked(arcs, step[j] as int, step[j + 1] as int));
            }
        }
        assert(steps[0] == before[0]);
    }
    assert(steps.last() == step.last());
}

/// Unwrapping keeps the ends of a path and leaves no step that a shortcut
/// stands for: what a path over arcs unwraps to begins with its first node
/// and ends with its last, its neighbours are joined by arcs, and no two
/// of them are the ends of a shortcut.
pub proof fn lemma_unwrap_shape(arcs: Set<Arc>, route: Seq<u32>, shortcuts: Map<u32, Vec<Shortcut>>, fuel: nat)
    requires
        ways_are_paths(arcs, shortcuts),
        is_node_path(arcs, route),
        route.len() >= 1,
        unwrapped(route, shortcuts, fuel) is Some,
    ensures
        ({
            let result = unwrapped(route, shortcuts, fuel).unwrap();
            &&& result.len() >= route.len()
            &&& result[0] == route[0]
            &&& result.last() == route.last()
            &&& is_plain(shortcuts, result)
            &&& is_node_path(arcs, result)
        }),
{
    let last = route.len() - 1;
    let steps = unwrapped_upto(route, last, shortcuts, fuel).unwrap();
    let result = steps.push(route.last());
    if last >= 1 {
        lemma_upto_shape(arcs, route, last, shortcuts, fuel);
        assert forall|i: int| 0 <= i < result.len() - 1 implies !replaced(shortcuts, #[trigger] result[i], result[i + 1])
            && linked(arcs, result[i] as int, result[i + 1] as int) by {
            if i + 1 < steps.len() {
                assert(!replaced(shortcuts, steps[i], steps[i + 1]));
                assert(linked(arcs, steps[i] as int, steps[i + 1] as int));
            }
        }
        assert(result[0] == steps[0]);
    } else {
        assert(steps =~= Seq::<u32>::empty());
    }
}

/// What a route with a node unwraps to has a node.
pub proof fn lemma_unwrap_some(route: Seq<u32>, shortcuts: Map<u32, Vec<Shortcut>>, fuel: nat)
    requires
        route.len() >= 1,
        unwrapped(route, shortcuts, fuel) is Some,
    ensures
        unwrapped(route, shortcuts, fuel).unwrap().len() >= 1,
        unwrapped(route, shortcuts, fuel).unwrap().last() == route.last(),
{
}

/// The nodes of `route` stand in `result` at the places `places`, in their
/// order.
pub open spec fn stands_in(route: Seq<u32>, result: Seq<u32>, places: Seq<int>) -> bool {
    &&& places.len() == route.len()
    &&& forall|k: int| 0 <= k < places.len() ==> 0 <= #[trigger] places[k] < result.len() && result[places[k]] == route[k]
    &&& forall|k: int, l: int| 0 <= k < l < places.len() ==> #[trigger] places[k] < #[trigger] places[l]
}

/// The nodes that the first steps of a path leave stand, in their order,
/// in what these steps unwrap to.
pub proof fn lemma_upto_places(
    arcs: Set<Arc>,
    route: Seq<u32>,
    upto: int,
    shortcuts: Map<u32, Vec<Shortcut>>,
    fuel: nat,
) -> (places: Seq<int>)
    requires
        ways_are_paths(arcs, shortcuts),
        is_node_path(arcs, route),
        1 <= upto < route.len(),
        unwrapped_upto(route, upto, shortcuts, fuel) is Some,
    ensures
        stands_in(route.subrange(0, upto), unwrapped_upto(route, upto, shortcuts, fuel).unwrap(), places),
    decreases upto,
{
    let before = unwrapped_upto(route, upto - 1, shortcuts, fuel).unwrap();
    let step = unwrapped_step(route[upto - 1], route[upto], shortcuts, fuel).unwrap();
    let steps = before + step;
    assert(linked(arcs, route[upto - 1] as int, route[(upto - 1) + 1] as int));
    lemma_step_shape(arcs, route[upto - 1], route[upto], shortcuts, fuel);
    if upto == 1 {
        assert(before =~= Seq::<u32>::empty());
        seq![0int]
    } else {
        let earlier = lemma_upto_places(arcs, route, upto - 1, shortcuts, fuel);
        let places = earlier.push(before.len() as int);
        let part = route.subrange(0, upto);
        assert forall|k: int| 0 <= k < places.len() implies 0 <= #[trigger] places[k] < steps.len() && steps[places[k]]
            == part[k] by {
            if k < upto - 1 {
                assert(places[k] == earlier[k]);
                assert(route.subrange(0, upto - 1)[k] == part[k]);
                assert(steps[earlier[k]] == before[earlier[k]]);
            } else {
                assert(steps[before.len() as int] == step[0]);
            }
        }
        assert forall|k: int, l: int| 0 <= k < l < places.len() implies #[trigger] places[k] < #[trigger] places[l] by {
            assert(places[k] == earlier[k]);
            if l < upto - 1 {
                assert(places[l] == earlier[l]);
            }
        }
        places
    }
}

/// Unwrapping keeps the nodes of a path: they stand, in their order, in
/// what the path unwraps to.
pub proof fn lemma_unwrap_keeps_nodes(arcs: Set<Arc>, route: Seq<u32>, shortcuts: Map<u32, Vec<Shortcut>>, fuel: nat) -> (places:
    Seq<int>)
    requires
        ways_are_paths(arcs, shortcuts),
        is_node_path(arcs, route),
        unwrapped(route, shortcuts, fuel) is Some,
    ensures
        stands_in(route, unwrapped(route, shortcuts, fuel).unwrap(), places),
{
    if route.len() == 0 {
        Seq::empty()
    } else if route.len() == 1 {
        seq![0int]
    } else {
        let last = route.len() - 1;
        let steps = unwrapped_upto(route, last, shortcuts, fuel).unwrap();
        let result = steps.push(route.last());
        let earlier = lemma_upto_places(arcs, route, last, shortcuts, fuel);
        let places = earlier.push(steps.len() as int);
        assert forall|k: int| 0 <= k < places.len() implies 0 <= #[trigger] places[k] < result.len() && result[places[k]]
            == route[k] by {
            if k < last {
                assert(places[k] == earlier[k]);
                assert(route.subrange(0, last)[k] == route[k]);
                assert(result[earlier[k]] == steps[earlier[k]]);
            }
        }
        assert forall|k: int, l: int| 0 <= k < l < places.len() implies #[trigger] places[k] < #[trigger] places[l] by {
            assert(places[k] == earlier[k]);
            if l < last {
                assert(places[l] == earlier[l]);
            }
        }
        places
    }
}

/// What a path over the arcs `all` unwraps to is a path over the arcs
/// `plain` alone, with the same ends, where every way that a shortcut
/// replaces is a path over `all`, and `all` adds to `plain` only arcs that
/// shortcuts stand for.
pub proof fn lemma_unwrap_is_plain_path(
    plain: Set<Arc>,
    all: Set<Arc>,
    route: Seq<u32>,
    shortcuts: Map<u32, Vec<Shortcut>>,
    fuel: nat,
)
    requires
        ways_are_paths(all, shortcuts),
        adds_shortcuts(plain, all, shortcuts),
        is_node_path(all, route),
        route.len() >= 1,
        unwrapped(route, shortcuts, fuel) is Some,
    ensures
        is_node_path(plain, unwrapped(route, shortcuts, fuel).unwrap()),
        unwrapped(route, shortcuts, fuel).unwrap()[0] == route[0],
        unwrapped(route, shortcuts, fuel).unwrap().last() == route.last(),
{
    lemma_unwrap_shape(all, route, shortcuts, fuel);
    let result = unwrapped(route, shortcuts, fuel).unwrap();
    assert forall|i: int| 0 <= i < result.len() - 1 implies linked(plain, #[trigger] result[i] as int, result[i + 1] as int) by {
        assert(linked(all, result[i] as int, result[i + 1] as int));
        assert(!replaced(shortcuts, result[i], result[i + 1]));
    }
}

/// Every shortcut stands in the list of the first node of the way that it
/// replaces and leads to the last node of that way, and the way is a route
/// over `arcs` of the length of the shortcut, with a node between its
/// ends.
pub open spec fn ways_are_routes(arcs: Set<Arc>, shortcuts: Map<u32, Vec<Shortcut>>) -> bool {
    forall|k: u32, i: int|
        shortcuts.contains_key(k) && 0 <= i < shortcuts[k]@.len() ==> {
            let s = #[trigger] shortcuts[k]@[i];
            &&& s.replaced_edges@.len() >= 3
            &&& s.replaced_edges@[0] == k
            &&& s.replaced_edges@.last() == s.edge.target
            &&& is_route(arcs, ids(s.replaced_edges@), s.edge.distance as nat)
        }
}

/// No arc of `arcs` between the ends of a shortcut is shorter than the
/// shortcut.
pub open spec fn none_shorter_than(arcs: Set<Arc>, shortcuts: Map<u32, Vec<Shortcut>>) -> bool {
    forall|k: u32, i: int, w: nat|
        shortcuts.contains_key(k) && 0 <= i < shortcuts[k]@.len() && #[trigger] arcs.contains(
            (k as int, (#[trigger] shortcuts[k]@[i]).edge.target as int, w),
        ) ==> shortcuts[k]@[i].edge.distance <= w
}

/// An arc of `arcs` between two nodes that no shortcut leads between is
/// an arc of `plain`.
pub open spec fn plain_between(plain: Set<Arc>, arcs: Set<Arc>, shortcuts: Map<u32, Vec<Shortcut>>) -> bool {
    forall|a: u32, b: u32, w: nat| #[trigger]
        arcs.contains((a as int, b as int, w)) && !replaced(shortcuts, a, b) ==> plain.contains((a as int, b as int, w))
}

/// What a step over an arc of the length `w` unwraps to is, with the node
/// that the step leads to, a route over the arcs `plain` that is no longer
/// than `w`.
pub proof fn lemma_step_length(
    plain: Set<Arc>,
    arcs: Set<Arc>,
    a: u32,
    b: u32,
    w: nat,
    shortcuts: Map<u32, Vec<Shortcut>>,
    fuel: nat,
)
    requires
        ways_are_routes(arcs, shortcuts),
        none_shorter_than(arcs, shortcuts),
        plain_between(plain, arcs, shortcuts),
        arcs.contains((a as int, b as int, w)),
        unwrapped_step(a, b, shortcuts, fuel) is Some,
    ensures
        unwrapped_step(a, b, shortcuts, fuel).unwrap().len() >= 1,
        unwrapped_step(a, b, shortcuts, fuel).unwrap()[0] == a,
        is_route_within(plain, ids(unwrapped_step(a, b, shortcuts, fuel).unwrap().push(b)), w),
    decreases fuel, 0int,
{
    let step = unwrapped_step(a, b, shortcuts, fuel).unwrap();
    match way_of(shortcuts, a, b) {
        None => {
            assert(step == seq![a]);
            let pair = ids(step.push(b));
            assert(pair =~= seq![a as int, b as int]);
            assert(pair.drop_last() =~= seq![a as int]);
            assert(is_route(plain, pair.drop_last(), 0));
            assert(plain.contains((pair[pair.len() - 2], pair.last(), w)) && w <= w && is_route(
                plain,
                pair.drop_last(),
                (w - w) as nat,
            ));
            assert(is_route(plain, pair, w));
        },
        Some(way) => {
            let at = lemma_way_found(shortcuts[a]@, 0, b);
            let s = shortcuts[a]@[at];
            let ds = s.edge.distance as nat;
            assert(way == s.replaced_edges@ && way.len() >= 2 && way[0] == a && way.last() == b && is_route(
                arcs,
                ids(way),
                ds,
            ));
            assert(arcs.contains((a as int, shortcuts[a]@[at].edge.target as int, w)));
            assert(ds <= w);
            let lengths = lemma_route_profile(arcs, ids(way), ds);
            lemma_upto_length(plain, arcs, way, way.len() - 1, lengths, shortcuts, (fuel - 1) as nat);
        },
    }
}

/// What the first steps of a route over `arcs` unwrap to is, with the node
/// that the last of them leads to, a route over the arcs `plain` that is no
/// longer than the route is up to that node; `lengths` holds the lengths
/// of the route up to each of its nodes.
pub proof fn lemma_upto_length(
    plain: Set<Arc>,
    arcs: Set<Arc>,
    route: Seq<u32>,
    upto: int,
    lengths: Seq<nat>,
    shortcuts: Map<u32, Vec<Shortcut>>,
    fuel: nat,
)
    requires
        ways_are_routes(arcs, shortcuts),
        none_shorter_than(arcs, shortcuts),
        plain_between(plain, arcs, shortcuts),
        is_profile(arcs, ids(route), lengths),
        1 <= upto < route.len(),
        unwrapped_upto(route, upto, shortcuts, fuel) is Some,
    ensures
        unwrapped_upto(route, upto, shortcuts, fuel).unwrap().len() >= 1,
        unwrapped_upto(route, upto, shortcuts, fuel).unwrap()[0] == route[0],
        is_route_within(plain, ids(unwrapped_upto(route, upto, shortcuts, fuel).unwrap().push(route[upto])), lengths[upto]),
    decreases fuel, 1int, upto,
{
    let before = unwrapped_upto(route, upto - 1, shortcuts, fuel).unwrap();
    let step = unwrapped_step(route[upto - 1], route[upto], shortcuts, fuel).unwrap();
    let steps = before + step;
    assert(lengths[upto - 1] <= lengths[(upto - 1) + 1]);
    let w = (lengths[upto] - lengths[upto - 1]) as nat;
    assert(arcs.contains((ids(route)[upto - 1], ids(route)[(upto - 1) + 1], w)));
    lemma_step_length(plain, arcs, route[upto - 1], route[upto], w, shortcuts, fuel);
    let tail = ids(step.push(route[upto]));
    let lt = choose|len: nat| len <= w && is_route(plain, tail, len);
    if upto == 1 {
        assert(before =~= Seq::<u32>::empty());
        assert(steps =~= step);
        assert(lengths[0] == 0);
    } else {
        lemma_upto_length(plain, arcs, route, upto - 1, lengths, shortcuts, fuel);
        let head = ids(before.push(route[upto - 1]));
        let lh = choose|len: nat| len <= lengths[upto - 1] && is_route(plain, head, len);
        assert(head.last() == tail[0]);
        lemma_route_join(plain, head, lh, tail, lt);
        assert(head + tail.subrange(1, tail.len() as int) =~= ids(steps.push(route[upto])));
        assert(lh + lt <= lengths[upto]);
        assert(steps[0] == before[0]);
    }
}

/// What a route over `arcs` unwraps to is a route over the arcs `plain`
/// that is no longer: where the way that a shortcut replaces is a route
/// over `arcs` of the length of the shortcut, no arc of `arcs` between the
/// ends of a shortcut is shorter than it, and every other arc of `arcs` is
/// one of `plain`.
pub proof fn lemma_unwrap_length(
    plain: Set<Arc>,
    arcs: Set<Arc>,
    route: Seq<u32>,
    shortcuts: Map<u32, Vec<Shortcut>>,
    fuel: nat,
    d: nat,
)
    requires
        ways_are_routes(arcs, shortcuts),
        none_shorter_than(arcs, shortcuts),
        plain_between(plain, arcs, shortcuts),
        route.len() >= 1,
        is_route(arcs, ids(route), d),
        unwrapped(route, shortcuts, fuel) is Some,
    ensures
        is_route_within(plain, ids(unwrapped(route, shortcuts, fuel).unwrap()), d),
{
    let lengths = lemma_route_profile(arcs, ids(route), d);
    if route.len() == 1 {
        let result = unwrapped(route, shortcuts, fuel).unwrap();
        assert(result =~= route);
        assert(ids(result).len() == 1);
        assert(is_route(plain, ids(result), 0));
    } else {
        lemma_upto_length(plain, arcs, route, route.len() - 1, lengths, shortcuts, fuel);
    }
}

/// A route of which no step is one that a shortcut stands for unwraps to
/// itself.
pub proof fn lemma_unwrap_plain(route: Seq<u32>, shortcuts: Map<u32, Vec<Shortcut>>, fuel: nat)
    requires
        is_plain(shortcuts, route),
    ensures
        unwrapped(route, shortcuts, fuel) == Some(route),
{
    if route.len() > 0 {
        lemma_upto_plain(route, route.len() - 1, shortcuts, fuel);
        assert(route.subrange(0, route.len() - 1).push(route.last()) =~= route);
    }
}

/// The first steps of such a route unwrap to the nodes that they leave.
pub proof fn lemma_upto_plain(route: Seq<u32>, upto: int, shortcuts: Map<u32, Vec<Shortcut>>, fuel: nat)
    requires
        is_plain(shortcuts, route),
        0 <= upto < route.len(),
    ensures
        unwrapped_upto(route, upto, shortcuts, fuel) == Some(route.subrange(0, upto)),
    decreases upto,
{
    if upto > 0 {
        lemma_upto_plain(route, upto - 1, shortcuts, fuel);
        assert(!replaced(shortcuts, route[upto - 1], route[(upto - 1) + 1]));
        assert(unwrapped_step(route[upto - 1], route[upto], shortcuts, fuel) == Some(seq![route[upto - 1]]));
        assert(route.subrange(0, upto - 1) + seq![route[upto - 1]] =~= route.subrange(0, upto));
    } else {
        assert(route.subrange(0, 0) =~= Seq::<u32>::empty());
    }
}

/// What is unwrapped has no step left to unwrap: unwrapping it again
/// gives the same.
pub proof fn lemma_unwrap_twice(arcs: Set<Arc>, route: Seq<u32>, shortcuts: Map<u32, Vec<Shortcut>>, fuel: nat)
    requires
        ways_are_paths(arcs, shortcuts),
        is_node_path(arcs, route),
        route.len() >= 1,
        unwrapped(route, shortcuts, fuel) is Some,
    ensures
        unwrapped(unwrapped(route, shortcuts, fuel).unwrap(), shortcuts, fuel) == unwrapped(route, shortcuts, fuel),
{
    lemma_unwrap_shape(arcs, route, shortcuts, fuel);
    lemma_unwrap_plain(unwrapped(route, shortcuts, fuel).unwrap(), shortcuts, fuel);
}

/// Where no node has a shortcut, every route unwraps.
pub proof fn lemma_plain_always_unwraps(shortcuts: Map<u32, Vec<Shortcut>>, depth: nat)
    requires
        forall|k: u32| !shortcuts.contains_key(k),
    ensures
        always_unwraps(shortcuts, depth),
{
    assert forall|route: Seq<u32>| #[trigger] unwrapped(route, shortcuts, depth) is Some by {
        lemma_unwrap_plain(route, shortcuts, depth);
    }
}

/// A copy of the entries of `v` from `lo` to `hi`.
pub fn copy_range(v: &Vec<u32>, lo: usize, hi: usize) -> (r: Vec<u32>)
    requires
        lo <= hi <= v@.len(),
    ensures
        r@ == v@.subrange(lo as int, hi as int),
{
    let mut r: Vec<u32> = Vec::with_capacity(hi - lo);
    let mut i: usize = lo;
    while i < hi
        invariant
            lo <= i <= hi <= v@.len(),
            r@ == v@.subrange(lo as int, i as int),
        decreases hi - i,
    {
        r.push(v[i]);
        proof {
            assert(r@ =~= v@.subrange(lo as int, i + 1));
        }
        i += 1;
    }
    r
}

/// The first shortcut of `list` that leads to `target`.
pub fn find_way(list: &Vec<Shortcut>, target: u32) -> (found: Option<usize>)
    ensures
        match found {
            Some(at) => at < list@.len() && way_to(list@, 0, target) == Some(list@[at as int].replaced_edges@),
            None => way_to(list@, 0, target) is None,
        },
{
    let mut i: usize = 0;
    while i < list.len()
        invariant
            i <= list@.len(),
            way_to(list@, 0, target) == way_to(list@, i as int, target),
        decreases list@.len() - i,
    {
        if list[i].edge.target == target {
            return Some(i);
        }
        i += 1;
    }
    None
}

/// Puts what the step from `a` to `b` unwraps to at the end of `out`;
/// `false`, with `out` as it was or longer, when shortcuts are nested
/// deeper than `depth`.
fn unwrap_step(a: u32, b: u32, get_shortcuts: &HashMap<u32, Vec<Shortcut>>, depth: usize, out: &mut Vec<u32>) -> (ok:
    bool)
    ensures
        match unwrapped_step(a, b, get_shortcuts@, depth as nat) {
            Some(step) => ok && final(out)@ == old(out)@ + step,
            None => !ok,
        },
    decreases depth, 0int,
{
    broadcast use vstd::std_specs::hash::group_hash_axioms;

    let found: Option<usize> = match get_shortcuts.get(&a) {
        Some(list) => find_way(list, b),
        None => None,
    };
    match found {
        None => {
            out.push(a);
            proof {
                assert(out@ =~= old(out)@ + seq![a]);
            }
            true
        },
        Some(at) => {
            if depth == 0 {
                return false;
            }
            let list = get_shortcuts.get(&a).unwrap();
            let way = &list[at].replaced_edges;
            let upto: usize = if way.len() >= 1 {
                way.len() - 1
            } else {
                0
            };
            proof {
                if way@.len() == 0 {
                    assert(unwrapped_upto(way@, way@.len() - 1, get_shortcuts@, (depth - 1) as nat) == unwrapped_upto(
                        way@,
                        0,
                        get_shortcuts@,
                        (depth - 1) as nat,
                    ));
                }
            }
            unwrap_upto(way, upto, get_shortcuts, depth - 1, out)
        },
    }
}

/// Puts what the first `upto` steps of `route` unwrap to at the end of
/// `out`; `false` when shortcuts are nested deeper than `depth`.
fn unwrap_upto(route: &Vec<u32>, upto: usize, get_shortcuts: &HashMap<u32, Vec<Shortcut>>, depth: usize, out: &mut Vec<
    u32,
>) -> (ok: bool)
    requires
        upto < route@.len() || upto == 0,
    ensures
        match unwrapped_upto(route@, upto as int, get_shortcuts@, depth as nat) {
            Some(steps) => ok && final(out)@ == old(out)@ + steps,
            None => !ok,
        },
    decreases depth, 1int,
{
    let mut i: usize = 0;
    proof {
        assert(out@ =~= old(out)@ + Seq::<u32>::empty());
    }
    while i < upto
        invariant
            i <= upto,
            upto < route@.len() || upto == 0,
            unwrapped_upto(route@, i as int, get_shortcuts@, depth as nat) is Some,
            out@ == old(out)@ + unwrapped_upto(route@, i as int, get_shortcuts@, depth as nat).unwrap(),
        decreases upto - i,
    {
        let ghost before = out@;
        let ok = unwrap_step(route[i], route[i + 1], get_shortcuts, depth, out);
        if !ok {
            proof {
                lemma_upto_fails(route@, i + 1, upto as int, get_shortcuts@, depth as nat);
            }
            return false;
        }
        proof {
            let steps = unwrapped_upto(route@, i as int, get_shortcuts@, depth as nat).unwrap();
            let step = unwrapped_step(route@[i as int], route@[i + 1], get_shortcuts@, depth as nat).unwrap();
            assert(out@ =~= old(out)@ + (steps + step));
        }
        i += 1;
    }
    true
}

/// Where the first steps do not unwrap, no more of them do.
pub proof fn lemma_upto_fails(route: Seq<u32>, first: int, upto: int, shortcuts: Map<u32, Vec<Shortcut>>, fuel: nat)
    requires
        1 <= first <= upto < route.len(),
        unwrapped_upto(route, first, shortcuts, fuel) is None,
    ensures
        unwrapped_upto(route, upto, shortcuts, fuel) is None,
    decreases upto - first,
{
    if first < upto {
        lemma_upto_fails(route, first, upto - 1, shortcuts, fuel);
    }
}

/// Every step that a shortcut of `shortcuts` stands for unwraps within
/// `depth`.
pub open spec fn steps_unwrap(shortcuts: Map<u32, Vec<Shortcut>>, depth: nat) -> bool {
    forall|k: u32, i: int|
        shortcuts.contains_key(k) && 0 <= i < shortcuts[k]@.len() ==> unwrapped_step(
            k,
            (#[trigger] shortcuts[k]@[i]).edge.target,
            shortcuts,
            depth,
        ) is Some
}

/// Where every step that a shortcut stands for unwraps, so do the first
/// steps of every route.
pub proof fn lemma_steps_upto(route: Seq<u32>, upto: int, shortcuts: Map<u32, Vec<Shortcut>>, depth: nat)
    requires
        steps_unwrap(shortcuts, depth),
    ensures
        unwrapped_upto(route, upto, shortcuts, depth) is Some,
    decreases upto,
{
    if !(upto <= 0 || upto >= route.len()) {
        lemma_steps_upto(route, upto - 1, shortcuts, depth);
        let a = route[upto - 1];
        let b = route[upto];
        if way_of(shortcuts, a, b) is Some {
            let at = lemma_way_found(shortcuts[a]@, 0, b);
            assert(shortcuts[a]@[at].edge.target == b);
            assert(unwrapped_step(a, b, shortcuts, depth) is Some);
        } else {
            assert(unwrapped_step(a, b, shortcuts, depth) == Some(seq![a]));
        }
        assert(unwrapped_upto(route, upto - 1, shortcuts, depth) is Some);
    } else {
        assert(unwrapped_upto(route, upto, shortcuts, depth) == Some(Seq::<u32>::empty()));
    }
}

/// Every route unwraps exactly when every step does that a shortcut stands
/// for.
pub proof fn lemma_always_unwraps(shortcuts: Map<u32, Vec<Shortcut>>, depth: nat)
    ensures
        always_unwraps(shortcuts, depth) <==> steps_unwrap(shortcuts, depth),
{
    if steps_unwrap(shortcuts, depth) {
        assert forall|route: Seq<u32>| #[trigger] unwrapped(route, shortcuts, depth) is Some by {
            lemma_steps_upto(route, route.len() - 1, shortcuts, depth);
        }
    }
    if always_unwraps(shortcuts, depth) {
        assert forall|k: u32, i: int| shortcuts.contains_key(k) && 0 <= i < shortcuts[k]@.len() implies unwrapped_step(
            k,
            (#[trigger] shortcuts[k]@[i]).edge.target,
            shortcuts,
            depth,
        ) is Some by {
            let b = shortcuts[k]@[i].edge.target;
            let route = seq![k, b];
            assert(unwrapped(route, shortcuts, depth) is Some);
            assert(unwrapped_upto(route, 0, shortcuts, depth) == Some(Seq::<u32>::empty()));
            assert(unwrapped_upto(route, 1, shortcuts, depth) is Some);
        }
    }
}

/// How deep a search lets shortcuts be nested when it unwraps its way: no
/// length is above it, and shortcuts over arcs of lengths above zero are
/// nested no deeper than they are long.
pub const MAX_NESTING: usize = 0xffff_ffff;

/// No shortcut from `a` to `b` is longer than `bound`.
pub open spec fn none_longer(shortcuts: Map<u32, Vec<Shortcut>>, a: u32, b: u32, bound: nat) -> bool {
    shortcuts.contains_key(a) ==> forall|i: int|
        0 <= i < shortcuts[a]@.len() && (#[trigger] shortcuts[a]@[i]).edge.target == b ==> shortcuts[a]@[i].edge.distance
            <= bound
}

/// Over arcs of lengths above zero a step unwraps within a depth that is
/// no less than the length of the shortcut that it stands for.
pub proof fn lemma_step_unwraps(arcs: Set<Arc>, a: u32, b: u32, shortcuts: Map<u32, Vec<Shortcut>>, fuel: nat)
    requires
        positive(arcs),
        ways_are_routes(arcs, shortcuts),
        none_shorter_than(arcs, shortcuts),
        none_longer(shortcuts, a, b, fuel),
    ensures
        unwrapped_step(a, b, shortcuts, fuel) is Some,
    decreases fuel, 0int,
{
    match way_of(shortcuts, a, b) {
        None => {},
        Some(way) => {
            let at = lemma_way_found(shortcuts[a]@, 0, b);
            let s = shortcuts[a]@[at];
            let d = s.edge.distance as nat;
            assert(way == s.replaced_edges@ && way.len() >= 3 && is_route(arcs, ids(way), d));
            assert(d <= fuel);
            let lengths = lemma_route_profile(arcs, ids(way), d);
            lemma_profile_rises(arcs, ids(way), lengths, 0, way.len() - 1);
            lemma_upto_unwraps(arcs, way, way.len() - 1, lengths, shortcuts, (fuel - 1) as nat);
        },
    }
}

/// Over arcs of lengths above zero the first steps of a route of three
/// nodes or more unwrap within a depth that is less than the length of
/// the route by one at most; `lengths` holds the lengths of the route up
/// to each of its nodes.
pub proof fn lemma_upto_unwraps(
    arcs: Set<Arc>,
    route: Seq<u32>,
    upto: int,
    lengths: Seq<nat>,
    shortcuts: Map<u32, Vec<Shortcut>>,
    fuel: nat,
)
    requires
        positive(arcs),
        ways_are_routes(arcs, shortcuts),
        none_shorter_than(arcs, shortcuts),
        is_profile(arcs, ids(route), lengths),
        route.len() >= 3,
        lengths.last() <= fuel + 1,
        0 <= upto < route.len(),
    ensures
        unwrapped_upto(route, upto, shortcuts, fuel) is Some,
    decreases fuel, 1int, upto,
{
    if upto >= 1 {
        lemma_upto_unwraps(arcs, route, upto - 1, lengths, shortcuts, fuel);
        let a = route[upto - 1];
        let b = route[upto];
        let last = route.len() - 1;
        assert(lengths[upto - 1] <= lengths[(upto - 1) + 1]);
        let w = (lengths[upto] - lengths[upto - 1]) as nat;
        assert(arcs.contains((ids(route)[upto - 1], ids(route)[(upto - 1) + 1], w)));
        assert(arcs.contains((a as int, b as int, w)));
        lemma_profile_rises(arcs, ids(route), lengths, 0, upto - 1);
        lemma_profile_rises(arcs, ids(route), lengths, upto, last);
        assert(w + 1 <= lengths[last]);
        assert(w <= fuel);
        if shortcuts.contains_key(a) {
            assert forall|i: int| 0 <= i < shortcuts[a]@.len() && (#[trigger] shortcuts[a]@[i]).edge.target
                == b implies shortcuts[a]@[i].edge.distance <= fuel by {
                assert(arcs.contains((a as int, shortcuts[a]@[i].edge.target as int, w)));
            }
        }
        lemma_step_unwraps(arcs, a, b, shortcuts, fuel);
    }
}

/// Every route unwraps within [`MAX_NESTING`] where the shortcuts stand
/// for routes, with a node between their ends, over arcs of lengths above
/// zero, and no arc between the ends of a shortcut is shorter than it.
pub proof fn lemma_positive_always_unwraps(arcs: Set<Arc>, shortcuts: Map<u32, Vec<Shortcut>>)
    requires
        positive(arcs),
        ways_are_routes(arcs, shortcuts),
        none_shorter_than(arcs, shortcuts),
    ensures
        always_unwraps(shortcuts, MAX_NESTING as nat),
{
    let depth = MAX_NESTING as nat;
    lemma_always_unwraps(shortcuts, depth);
    assert forall|k: u32, i: int| shortcuts.contains_key(k) && 0 <= i < shortcuts[k]@.len() implies unwrapped_step(
        k,
        (#[trigger] shortcuts[k]@[i]).edge.target,
        shortcuts,
        depth,
    ) is Some by {
        lemma_step_unwraps(arcs, k, shortcuts[k]@[i].edge.target, shortcuts, depth);
    }
}

/// Every step that a shortcut stands for which leaves a node below
/// `nodes` unwraps within `depth`.
pub open spec fn steps_unwrap_below(shortcuts: Map<u32, Vec<Shortcut>>, nodes: int, depth: nat) -> bool {
    forall|k: u32, i: int|
        shortcuts.contains_key(k) && k < nodes && 0 <= i < shortcuts[k]@.len() ==> unwrapped_step(
            k,
            (#[trigger] shortcuts[k]@[i]).edge.target,
            shortcuts,
            depth,
        ) is Some
}

/// Every shortcut leaves a node below `nodes`.
pub open spec fn leave_below(shortcuts: Map<u32, Vec<Shortcut>>, nodes: int) -> bool {
    forall|k: u32| #[trigger] shortcuts.contains_key(k) ==> k < nodes
}

/// Says whether the step of every shortcut that leaves a node below `nodes`
/// unwraps within `depth`, by unwrapping each. Where every shortcut leaves
/// such a node, this says whether every route unwraps.
pub fn unwraps_all(get_shortcuts: &HashMap<u32, Vec<Shortcut>>, nodes: u32, depth: usize) -> (ok: bool)
    ensures
        ok == steps_unwrap_below(get_shortcuts@, nodes as int, depth as nat),
        leave_below(get_shortcuts@, nodes as int) ==> ok == always_unwraps(get_shortcuts@, depth as nat),
{
    broadcast use vstd::std_specs::hash::group_hash_axioms;

    let ghost map = get_shortcuts@;
    proof {
        lemma_always_unwraps(map, depth as nat);
    }
    let mut v: u32 = 0;
    while v < nodes
        invariant
            v <= nodes,
            map == get_shortcuts@,
            always_unwraps(map, depth as nat) <==> steps_unwrap(map, depth as nat),
            forall|k: u32, i: int|
                map.contains_key(k) && k < v && 0 <= i < map[k]@.len() ==> unwrapped_step(
                    k,
                    (#[trigger] map[k]@[i]).edge.target,
                    map,
                    depth as nat,
                ) is Some,
        decreases nodes - v,
    {
        match get_shortcuts.get(&v) {
            Some(list) => {
                let mut i: usize = 0;
                while i < list.len()
                    invariant
                        i <= list@.len(),
                        map == get_shortcuts@,
                        map.contains_key(v),
                        map[v] == *list,
                        v < nodes,
                        always_unwraps(map, depth as nat) <==> steps_unwrap(map, depth as nat),
                        forall|j: int|
                            0 <= j < i ==> unwrapped_step(v, (#[trigger] list@[j]).edge.target, map, depth as nat) is Some,
                    decreases list@.len() - i,
                {
                    let mut steps: Vec<u32> = Vec::new();
                    if !unwrap_step(v, list[i].edge.target, get_shortcuts, depth, &mut steps) {
                        proof {
                            assert(unwrapped_step(v, map[v]@[i as int].edge.target, map, depth as nat) is None);
                        }
                        return false;
                    }
                    i += 1;
                }
            },
            None => {},
        }
        v += 1;
    }
    true
}

/// Unwraps `route` as long as shortcuts are nested no deeper than `depth`:
/// `None` when they are.
pub fn unwrap_shortcuts_within(route: &Vec<u32>, get_shortcuts: &HashMap<u32, Vec<Shortcut>>, depth: usize) -> (r:
    Option<Vec<u32>>)
    ensures
        match r {
            Some(result) => unwrapped(route@, get_shortcuts@, depth as nat) == Some(result@),
            None => unwrapped(route@, get_shortcuts@, depth as nat) is None,
        },
{
    let mut out: Vec<u32> = Vec::new();
    if route.len() == 0 {
        proof {
            assert(out@ =~= Seq::<u32>::empty());
        }
        return Some(out);
    }
    let last: usize = route.len() - 1;
    if !unwrap_upto(route, last, get_shortcuts, depth, &mut out) {
        return None;
    }
    out.push(route[last]);
    proof {
        let steps = unwrapped_upto(route@, last as int, get_shortcuts@, depth as nat).unwrap();
        assert(out@ =~= steps.push(route@.last()));
    }
    Some(out)
}

/// Unwraps `route`: replaces every step of it that a shortcut stands for
/// by the way that the shortcut replaces, and goes on with the steps of
/// that way, until no step is left that a shortcut stands for. The
/// shortcuts must not lead round in a ring.
pub fn unwrap_shortcuts(route: &Vec<u32>, get_shortcuts: &HashMap<u32, Vec<Shortcut>>) -> (result: Vec<u32>)
    requires
        unwrapped(route@, get_shortcuts@, usize::MAX as nat) is Some,
    ensures
        unwrapped(route@, get_shortcuts@, usize::MAX as nat) == Some(result@),
{
    match unwrap_shortcuts_within(route, get_shortcuts, usize::MAX) {
        Some(result) => result,
        None => Vec::new(),
    }
}

} // verus!
