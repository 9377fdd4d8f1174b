use vstd::prelude::*;
use crate::model::adjacency_array::Arc;

verus! {

/// `t` can be reached from `s` over exactly `k` arcs of total length `d`.
pub open spec fn reaches_in(arcs: Set<Arc>, s: int, t: int, d: nat, k: nat) -> bool
    decreases k,
{
    if k == 0 {
        s == t && d == 0
    } else {
        exists|u: int, w: nat| #[trigger]
            arcs.contains((u, t, w)) && w <= d && reaches_in(arcs, s, u, (d - w) as nat, (k - 1) as nat)
    }
}

/// `t` can be reached from `s` over arcs of total length `d`.
pub open spec fn reaches(arcs: Set<Arc>, s: int, t: int, d: nat) -> bool {
    exists|k: nat| reaches_in(arcs, s, t, d, k)
}

/// No way from `s` to `t` is shorter than `d`.
pub open spec fn none_shorter(arcs: Set<Arc>, s: int, t: int, d: nat) -> bool {
    forall|other: nat| reaches(arcs, s, t, other) ==> d <= other
}

/// `d` is the length of a shortest way from `s` to `t`.
pub open spec fn is_shortest(arcs: Set<Arc>, s: int, t: int, d: nat) -> bool {
    reaches(arcs, s, t, d) && none_shorter(arcs, s, t, d)
}

/// `route` lists the nodes of a way of total length `d`: every two
/// neighbours in it are joined by an arc, and the lengths of these arcs add
/// up to `d`.
pub open spec fn is_route(arcs: Set<Arc>, route: Seq<int>, d: nat) -> bool
    decreases route.len(),
{
    if route.len() == 0 {
        false
    } else if route.len() == 1 {
        d == 0
    } else {
        exists|w: nat| #[trigger]
            arcs.contains((route[route.len() - 2], route.last(), w)) && w <= d && is_route(
                arcs,
                route.drop_last(),
                (d - w) as nat,
            )
    }
}

/// Every arc joins two of the nodes `0..n`.
pub open spec fn arcs_within(arcs: Set<Arc>, n: int) -> bool {
    forall|a: Arc| #[trigger] arcs.contains(a) ==> 0 <= a.0 < n && 0 <= a.1 < n
}

/// The estimates `h` never drop by more than the length of an arc along it
/// (the triangle inequality that a guided search needs).
pub open spec fn consistent(arcs: Set<Arc>, h: Seq<u64>) -> bool {
    forall|a: Arc| #[trigger] arcs.contains(a) ==> h[a.0] <= a.2 + h[a.1]
}

/// The unweighted nodes of a sequence of node ids.
pub open spec fn ids(route: Seq<u32>) -> Seq<int> {
    route.map_values(|v: u32| v as int)
}

/// What a search reports as its way from `s` to `t` of length `d`: the
/// nodes from `s` to `t`, joined by arcs whose lengths add up to `d`. For
/// `s == t` the report lists that one node.
pub open spec fn is_reported_route(arcs: Set<Arc>, s: int, t: int, route: Seq<u32>, d: nat) -> bool {
    if s == t {
        route == seq![s as u32]
    } else {
        route.len() >= 2 && route[0] == s && route.last() == t && is_route(arcs, ids(route), d)
    }
}

/// `route` is what a search reports as a way from `s` to `t`, and the way
/// is no longer than `bound`.
pub open spec fn is_reported_route_within(arcs: Set<Arc>, s: int, t: int, route: Seq<u32>, bound: nat) -> bool {
    exists|len: nat| len <= bound && is_reported_route(arcs, s, t, route, len)
}

/// `route` lists the nodes of a way that is no longer than `bound`.
pub open spec fn is_route_within(arcs: Set<Arc>, route: Seq<int>, bound: nat) -> bool {
    exists|len: nat| len <= bound && is_route(arcs, route, len)
}

/// No way from `s` to `t` is shorter than `u32::MAX`, the length that
/// stands for "not reached".
pub open spec fn out_of_reach(arcs: Set<Arc>, s: int, t: int) -> bool {
    forall|d: nat| reaches(arcs, s, t, d) ==> d >= u32::MAX
}

/// What a search from `s` for `t` reports as the length: that of a
/// shortest way, or nothing when no way is shorter than `u32::MAX`.
pub open spec fn is_search_result(arcs: Set<Arc>, s: int, t: int, distance: Option<u32>) -> bool {
    match distance {
        None => out_of_reach(arcs, s, t),
        Some(d) => d < u32::MAX && is_shortest(arcs, s, t, d as nat),
    }
}

/// The length of what a search reports, if it reports a way.
pub open spec fn reported_length(r: Option<(Vec<u32>, u32, u32)>) -> Option<u32> {
    match r {
        None => None,
        Some((_, d, _)) => Some(d),
    }
}

/// Two searches for the same pair of nodes report the same length,
/// whichever engines ran them: there is one shortest length, or none.
pub proof fn lemma_search_results_agree(arcs: Set<Arc>, s: int, t: int, first: Option<u32>, second: Option<u32>)
    requires
        is_search_result(arcs, s, t, first),
        is_search_result(arcs, s, t, second),
    ensures
        first == second,
{
    match (first, second) {
        (Some(a), Some(b)) => {
            assert(reaches(arcs, s, t, a as nat));
            assert(reaches(arcs, s, t, b as nat));
        },
        (Some(a), None) => {
            assert(reaches(arcs, s, t, a as nat));
        },
        (None, Some(b)) => {
            assert(reaches(arcs, s, t, b as nat));
        },
        (None, None) => {},
    }
}

/// The arcs of `arcs`, each turned round.
pub open spec fn flipped(arcs: Set<Arc>) -> Set<Arc> {
    Set::new(|a: Arc| arcs.contains((a.1, a.0, a.2)))
}

/// The arcs of `arcs`, each in both directions.
pub open spec fn both_ways(arcs: Set<Arc>) -> Set<Arc> {
    arcs.union(flipped(arcs))
}

/// Every arc has its reverse, of the same length.
pub open spec fn undirected(arcs: Set<Arc>) -> bool {
    forall|a: Arc| #[trigger] arcs.contains(a) ==> arcs.contains((a.1, a.0, a.2))
}

/// Where every arc has its reverse, taking the arcs in both directions
/// adds nothing.
pub proof fn lemma_undirected_both_ways(arcs: Set<Arc>)
    requires
        undirected(arcs),
    ensures
        both_ways(arcs) == arcs,
{
    assert(both_ways(arcs) =~= arcs);
}

/// The entries of `s`, last first.
pub open spec fn turned(s: Seq<int>) -> Seq<int> {
    Seq::new(s.len(), |i: int| s[s.len() - 1 - i])
}

/// A route walked backwards is a route over the arcs turned round.
pub proof fn lemma_route_turned(arcs: Set<Arc>, route: Seq<int>, d: nat)
    requires
        is_route(arcs, route, d),
    ensures
        is_route(flipped(arcs), turned(route), d),
    decreases route.len(),
{
    if route.len() == 1 {
        assert(turned(route).len() == 1);
    } else {
        let w = choose|w: nat| #[trigger]
            arcs.contains((route[route.len() - 2], route.last(), w)) && w <= d && is_route(
                arcs,
                route.drop_last(),
                (d - w) as nat,
            );
        let shorter = route.drop_last();
        lemma_route_turned(arcs, shorter, (d - w) as nat);
        assert(turned(shorter)[0] == route[route.len() - 2]);
        assert(flipped(arcs).contains((route.last(), turned(shorter)[0], w)));
        lemma_route_prepend(flipped(arcs), turned(shorter), (d - w) as nat, route.last(), w);
        assert(seq![route.last()] + turned(shorter) =~= turned(route));
    }
}

/// Every node reaches itself over nothing.
pub proof fn lemma_reaches_self(arcs: Set<Arc>, s: int)
    ensures
        reaches(arcs, s, s, 0),
{
    assert(reaches_in(arcs, s, s, 0, 0));
}

/// A way can be extended by an arc at its end.
pub proof fn lemma_reaches_extend(arcs: Set<Arc>, s: int, u: int, v: int, d: nat, w: nat)
    requires
        reaches(arcs, s, u, d),
        arcs.contains((u, v, w)),
    ensures
        reaches(arcs, s, v, d + w),
{
    let k = choose|k: nat| reaches_in(arcs, s, u, d, k);
    assert(arcs.contains((u, v, w)) && w <= d + w && reaches_in(arcs, s, u, ((d + w) - w) as nat, k));
    assert(reaches_in(arcs, s, v, d + w, k + 1));
}

/// Two ways that meet can be joined.
pub proof fn lemma_reaches_join(arcs: Set<Arc>, s: int, m: int, t: int, d1: nat, d2: nat, k: nat)
    requires
        reaches(arcs, s, m, d1),
        reaches_in(arcs, m, t, d2, k),
    ensures
        reaches(arcs, s, t, d1 + d2),
    decreases k,
{
    if k > 0 {
        let (u, w) = choose|u: int, w: nat| #[trigger]
            arcs.contains((u, t, w)) && w <= d2 && reaches_in(arcs, m, u, (d2 - w) as nat, (k - 1) as nat);
        lemma_reaches_join(arcs, s, m, u, d1, (d2 - w) as nat, (k - 1) as nat);
        lemma_reaches_extend(arcs, s, u, t, d1 + (d2 - w) as nat, w);
    }
}

/// Where every arc of `over` stands for a way over `under` of the same
/// length, whatever is reached over `over` is reached over `under`.
pub proof fn lemma_reaches_via(over: Set<Arc>, under: Set<Arc>, s: int, t: int, d: nat, k: nat)
    requires
        forall|a: Arc| #[trigger] over.contains(a) ==> reaches(under, a.0, a.1, a.2),
        reaches_in(over, s, t, d, k),
    ensures
        reaches(under, s, t, d),
    decreases k,
{
    if k == 0 {
        lemma_reaches_self(under, s);
    } else {
        let (u, w) = choose|u: int, w: nat| #[trigger]
            over.contains((u, t, w)) && w <= d && reaches_in(over, s, u, (d - w) as nat, (k - 1) as nat);
        lemma_reaches_via(over, under, s, u, (d - w) as nat, (k - 1) as nat);
        assert(reaches(under, u, t, w));
        let k2 = choose|k2: nat| reaches_in(under, u, t, w, k2);
        lemma_reaches_join(under, s, u, t, (d - w) as nat, w, k2);
    }
}

/// Where every arc has its reverse, a way can be walked backwards.
pub proof fn lemma_reaches_back(arcs: Set<Arc>, s: int, t: int, d: nat, k: nat)
    requires
        undirected(arcs),
        reaches_in(arcs, s, t, d, k),
    ensures
        reaches(arcs, t, s, d),
    decreases k,
{
    if k == 0 {
        lemma_reaches_self(arcs, t);
    } else {
        let (u, w) = choose|u: int, w: nat| #[trigger]
            arcs.contains((u, t, w)) && w <= d && reaches_in(arcs, s, u, (d - w) as nat, (k - 1) as nat);
        lemma_reaches_back(arcs, s, u, (d - w) as nat, (k - 1) as nat);
        assert(arcs.contains((t, u, w)));
        lemma_reaches_self(arcs, t);
        lemma_reaches_extend(arcs, t, t, u, 0, w);
        let rest = (d - w) as nat;
        assert(reaches(arcs, u, s, rest));
        let k2 = choose|k2: nat| reaches_in(arcs, u, s, rest, k2);
        lemma_reaches_join(arcs, t, u, s, w, rest, k2);
    }
}

/// Where every arc has its reverse, what is reached one way is reached
/// the other way.
pub proof fn lemma_reaches_turned(arcs: Set<Arc>, s: int, t: int, d: nat)
    requires
        undirected(arcs),
        reaches(arcs, s, t, d),
    ensures
        reaches(arcs, t, s, d),
{
    let k = choose|k: nat| reaches_in(arcs, s, t, d, k);
    lemma_reaches_back(arcs, s, t, d, k);
}

/// Fewer arcs, fewer ways: what reaches over `small` reaches over `big`.
pub proof fn lemma_reaches_in_mono(small: Set<Arc>, big: Set<Arc>, s: int, t: int, d: nat, k: nat)
    requires
        small.subset_of(big),
        reaches_in(small, s, t, d, k),
    ensures
        reaches_in(big, s, t, d, k),
    decreases k,
{
    if k > 0 {
        let (u, w) = choose|u: int, w: nat| #[trigger]
            small.contains((u, t, w)) && w <= d && reaches_in(small, s, u, (d - w) as nat, (k - 1) as nat);
        lemma_reaches_in_mono(small, big, s, u, (d - w) as nat, (k - 1) as nat);
        assert(big.contains((u, t, w)));
    }
}

/// The crossing of a border. A way from `s` inside a set of nodes to `t`
/// outside it has an arc `(x, y, w)` that leaves the set; the lemma returns
/// `(x, y, w, dx, rest)`, where `dx` is the length of the way up to `x` and
/// `rest` that of the way from `y` on.
pub proof fn lemma_crossing(arcs: Set<Arc>, inside: Set<int>, s: int, t: int, d: nat, k: nat) -> (r: (
    int,
    int,
    nat,
    nat,
    nat,
))
    requires
        reaches_in(arcs, s, t, d, k),
        inside.contains(s),
        !inside.contains(t),
    ensures
        inside.contains(r.0),
        !inside.contains(r.1),
        arcs.contains((r.0, r.1, r.2)),
        reaches(arcs, s, r.0, r.3),
        reaches(arcs, r.1, t, r.4),
        r.3 + r.2 + r.4 == d,
    decreases k,
{
    assert(k > 0);
    let (u, w) = choose|u: int, w: nat| #[trigger]
        arcs.contains((u, t, w)) && w <= d && reaches_in(arcs, s, u, (d - w) as nat, (k - 1) as nat);
    if inside.contains(u) {
        assert(reaches(arcs, s, u, (d - w) as nat));
        lemma_reaches_self(arcs, t);
        (u, t, w, (d - w) as nat, 0)
    } else {
        let r = lemma_crossing(arcs, inside, s, u, (d - w) as nat, (k - 1) as nat);
        lemma_reaches_extend(arcs, r.1, u, t, r.4, w);
        (r.0, r.1, r.2, r.3, r.4 + w)
    }
}

/// Along a way, consistent estimates drop by no more than its length.
pub proof fn lemma_consistent_along(arcs: Set<Arc>, h: Seq<u64>, s: int, t: int, d: nat, k: nat)
    requires
        consistent(arcs, h),
        reaches_in(arcs, s, t, d, k),
    ensures
        h[s] <= d + h[t],
    decreases k,
{
    if k > 0 {
        let (u, w) = choose|u: int, w: nat| #[trigger]
            arcs.contains((u, t, w)) && w <= d && reaches_in(arcs, s, u, (d - w) as nat, (k - 1) as nat);
        lemma_consistent_along(arcs, h, s, u, (d - w) as nat, (k - 1) as nat);
    }
}

/// A route is a way from its first node to its last.
pub proof fn lemma_route_reaches(arcs: Set<Arc>, route: Seq<int>, d: nat)
    requires
        is_route(arcs, route, d),
    ensures
        reaches_in(arcs, route[0], route.last(), d, (route.len() - 1) as nat),
        reaches(arcs, route[0], route.last(), d),
    decreases route.len(),
{
    if route.len() > 1 {
        let w = choose|w: nat| #[trigger]
            arcs.contains((route[route.len() - 2], route.last(), w)) && w <= d && is_route(
                arcs,
                route.drop_last(),
                (d - w) as nat,
            );
        lemma_route_reaches(arcs, route.drop_last(), (d - w) as nat);
        assert(route.drop_last()[0] == route[0]);
        assert(route.drop_last().last() == route[route.len() - 2]);
    }
}

/// A route can be extended by an arc at its end.
pub proof fn lemma_route_push(arcs: Set<Arc>, route: Seq<int>, d: nat, v: int, w: nat)
    requires
        is_route(arcs, route, d),
        arcs.contains((route.last(), v, w)),
    ensures
        is_route(arcs, route.push(v), d + w),
{
    let r = route.push(v);
    assert(r.drop_last() =~= route);
    assert(r[r.len() - 2] == route.last());
    assert(arcs.contains((r[r.len() - 2], r.last(), w)) && w <= d + w && is_route(
        arcs,
        r.drop_last(),
        ((d + w) - w) as nat,
    ));
}

/// A route can be extended by an arc at its start.
pub proof fn lemma_route_prepend(arcs: Set<Arc>, route: Seq<int>, d: nat, x: int, w: nat)
    requires
        is_route(arcs, route, d),
        arcs.contains((x, route[0], w)),
    ensures
        is_route(arcs, seq![x] + route, d + w),
    decreases route.len(),
{
    let r = seq![x] + route;
    if route.len() == 1 {
        assert(r.drop_last() =~= seq![x]);
        assert(is_route(arcs, seq![x], 0));
        assert(arcs.contains((r[r.len() - 2], r.last(), w)) && w <= d + w && is_route(
            arcs,
            r.drop_last(),
            ((d + w) - w) as nat,
        ));
    } else {
        let w2 = choose|w2: nat| #[trigger]
            arcs.contains((route[route.len() - 2], route.last(), w2)) && w2 <= d && is_route(
                arcs,
                route.drop_last(),
                (d - w2) as nat,
            );
        lemma_route_prepend(arcs, route.drop_last(), (d - w2) as nat, x, w);
        assert(r.drop_last() =~= seq![x] + route.drop_last());
        assert(r[r.len() - 2] == route[route.len() - 2]);
        assert(arcs.contains((r[r.len() - 2], r.last(), w2)) && w2 <= d + w && is_route(
            arcs,
            r.drop_last(),
            ((d + w) - w2) as nat,
        ));
    }
}

/// Two routes that meet can be joined.
pub proof fn lemma_route_join(arcs: Set<Arc>, first: Seq<int>, d1: nat, second: Seq<int>, d2: nat)
    requires
        is_route(arcs, first, d1),
        is_route(arcs, second, d2),
        first.last() == second[0],
    ensures
        is_route(arcs, first + second.subrange(1, second.len() as int), d1 + d2),
    decreases second.len(),
{
    let tail = second.subrange(1, second.len() as int);
    if second.len() == 1 {
        assert(first + tail =~= first);
    } else {
        let w = choose|w: nat| #[trigger]
            arcs.contains((second[second.len() - 2], second.last(), w)) && w <= d2 && is_route(
                arcs,
                second.drop_last(),
                (d2 - w) as nat,
            );
        let shorter = second.drop_last();
        lemma_route_join(arcs, first, d1, shorter, (d2 - w) as nat);
        let joined = first + shorter.subrange(1, shorter.len() as int);
        assert(joined.last() == second[second.len() - 2]) by {
            if shorter.len() == 1 {
                assert(joined =~= first);
            }
        }
        lemma_route_push(arcs, joined, d1 + (d2 - w) as nat, second.last(), w);
        assert(joined.push(second.last()) =~= first + tail);
    }
}

/// The arcs `all` reach what the arcs `under` reach, over the same
/// lengths: `all` holds the arcs of `under`, and whatever it reaches over
/// a length, `under` reaches over that length too.
pub open spec fn same_reach(under: Set<Arc>, all: Set<Arc>) -> bool {
    &&& under.subset_of(all)
    &&& forall|s: int, t: int, d: nat| #[trigger] reaches(all, s, t, d) ==> reaches(under, s, t, d)
}

/// Where `t` can be reached from `s`, there is a least length over which
/// it can.
pub proof fn lemma_least_length(arcs: Set<Arc>, s: int, t: int, d: nat) -> (least: nat)
    requires
        reaches(arcs, s, t, d),
    ensures
        least <= d,
        is_shortest(arcs, s, t, least),
    decreases d,
{
    if none_shorter(arcs, s, t, d) {
        d
    } else {
        let other = choose|other: nat| reaches(arcs, s, t, other) && !(d <= other);
        lemma_least_length(arcs, s, t, other)
    }
}

/// What can be reached over arcs can be reached over a route: the nodes
/// of a way, joined by these arcs.
pub proof fn lemma_reaches_route(arcs: Set<Arc>, s: int, t: int, d: nat, k: nat) -> (route: Seq<int>)
    requires
        reaches_in(arcs, s, t, d, k),
    ensures
        is_route(arcs, route, d),
        route.len() == k + 1,
        route[0] == s,
        route.last() == t,
    decreases k,
{
    if k == 0 {
        seq![s]
    } else {
        let (u, w) = choose|u: int, w: nat| #[trigger]
            arcs.contains((u, t, w)) && w <= d && reaches_in(arcs, s, u, (d - w) as nat, (k - 1) as nat);
        let shorter = lemma_reaches_route(arcs, s, u, (d - w) as nat, (k - 1) as nat);
        lemma_route_push(arcs, shorter, (d - w) as nat, t, w);
        shorter.push(t)
    }
}

/// `lengths` holds, for every node of `route`, the length of the route up
/// to that node.
pub open spec fn is_profile(arcs: Set<Arc>, route: Seq<int>, lengths: Seq<nat>) -> bool {
    &&& lengths.len() == route.len()
    &&& route.len() >= 1
    &&& lengths[0] == 0
    &&& forall|j: int|
        0 <= j < route.len() - 1 ==> lengths[j] <= #[trigger] lengths[j + 1] && arcs.contains(
            (route[j], route[j + 1], (lengths[j + 1] - lengths[j]) as nat),
        )
}

/// Every arc has a length above zero.
pub open spec fn positive(arcs: Set<Arc>) -> bool {
    forall|a: Arc| #[trigger] arcs.contains(a) ==> a.2 > 0
}

/// Over arcs of lengths above zero a route grows with every step: from one
/// of its nodes to a later one by as much as there are steps between them,
/// at least.
pub proof fn lemma_profile_rises(arcs: Set<Arc>, route: Seq<int>, lengths: Seq<nat>, i: int, j: int)
    requires
        positive(arcs),
        is_profile(arcs, route, lengths),
        0 <= i <= j < route.len(),
    ensures
        lengths[j] - lengths[i] >= j - i,
    decreases j - i,
{
    if i < j {
        lemma_profile_rises(arcs, route, lengths, i, j - 1);
        assert(lengths[j - 1] <= lengths[(j - 1) + 1]);
        assert(arcs.contains((route[j - 1], route[(j - 1) + 1], (lengths[(j - 1) + 1] - lengths[j - 1]) as nat)));
    }
}

/// A route has a profile, which ends with the length of the route.
pub proof fn lemma_route_profile(arcs: Set<Arc>, route: Seq<int>, d: nat) -> (lengths: Seq<nat>)
    requires
        is_route(arcs, route, d),
    ensures
        is_profile(arcs, route, lengths),
        lengths.last() == d,
    decreases route.len(),
{
    if route.len() == 1 {
        seq![0nat]
    } else {
        let w = choose|w: nat| #[trigger]
            arcs.contains((route[route.len() - 2], route.last(), w)) && w <= d && is_route(
                arcs,
                route.drop_last(),
                (d - w) as nat,
            );
        let shorter = lemma_route_profile(arcs, route.drop_last(), (d - w) as nat);
        let lengths = shorter.push(d);
        assert forall|j: int| 0 <= j < route.len() - 1 implies lengths[j] <= #[trigger] lengths[j + 1]
            && arcs.contains((route[j], route[j + 1], (lengths[j + 1] - lengths[j]) as nat)) by {
            if j < route.len() - 2 {
                assert(shorter[j] <= shorter[j + 1]);
                assert(route.drop_last()[j] == route[j]);
                assert(route.drop_last()[j + 1] == route[j + 1]);
            } else {
                assert(shorter.last() == (d - w) as nat);
            }
        }
        lengths
    }
}

/// Up to each of its nodes a route is a way of the length that its profile
/// gives.
pub proof fn lemma_profile_prefix(arcs: Set<Arc>, route: Seq<int>, lengths: Seq<nat>, j: int)
    requires
        is_profile(arcs, route, lengths),
        0 <= j < route.len(),
    ensures
        reaches_in(arcs, route[0], route[j], lengths[j], j as nat),
        reaches(arcs, route[0], route[j], lengths[j]),
    decreases j,
{
    if j > 0 {
        lemma_profile_prefix(arcs, route, lengths, j - 1);
        assert(lengths[j - 1] <= lengths[(j - 1) + 1]);
        let w = (lengths[j] - lengths[j - 1]) as nat;
        assert(arcs.contains((route[j - 1], route[j], w)) && w <= lengths[j] && reaches_in(
            arcs,
            route[0],
            route[j - 1],
            (lengths[j] - w) as nat,
            (j - 1) as nat,
        ));
    }
}

/// From each of its nodes on a route is a way of the length that is left.
pub proof fn lemma_profile_suffix(arcs: Set<Arc>, route: Seq<int>, lengths: Seq<nat>, j: int, upto: int)
    requires
        is_profile(arcs, route, lengths),
        0 <= j <= upto < route.len(),
    ensures
        lengths[j] <= lengths[upto],
        reaches(arcs, route[j], route[upto], (lengths[upto] - lengths[j]) as nat),
    decreases upto - j,
{
    if j == upto {
        lemma_reaches_self(arcs, route[j]);
    } else {
        lemma_profile_suffix(arcs, route, lengths, j, upto - 1);
        assert(lengths[upto - 1] <= lengths[(upto - 1) + 1]);
        lemma_reaches_extend(
            arcs,
            route[j],
            route[upto - 1],
            route[upto],
            (lengths[upto - 1] - lengths[j]) as nat,
            (lengths[upto] - lengths[upto - 1]) as nat,
        );
    }
}

/// Along a shortest route every part is a shortest way.
pub proof fn lemma_profile_shortest(arcs: Set<Arc>, route: Seq<int>, lengths: Seq<nat>, j: int)
    requires
        is_profile(arcs, route, lengths),
        none_shorter(arcs, route[0], route.last(), lengths.last()),
        0 <= j < route.len(),
    ensures
        lengths[j] <= lengths.last(),
        none_shorter(arcs, route[0], route[j], lengths[j]),
        none_shorter(arcs, route[j], route.last(), (lengths.last() - lengths[j]) as nat),
{
    let last = route.len() - 1;
    lemma_profile_suffix(arcs, route, lengths, j, last);
    lemma_profile_prefix(arcs, route, lengths, j);
    let rest = (lengths.last() - lengths[j]) as nat;
    assert forall|other: nat| reaches(arcs, route[0], route[j], other) implies lengths[j] <= other by {
        let k = choose|k: nat| reaches_in(arcs, route[j], route.last(), rest, k);
        lemma_reaches_join(arcs, route[0], route[j], route.last(), other, rest, k);
    }
    assert forall|other: nat| reaches(arcs, route[j], route.last(), other) implies rest <= other by {
        let k = choose|k: nat| reaches_in(arcs, route[j], route.last(), other, k);
        lemma_reaches_join(arcs, route[0], route[j], route.last(), lengths[j], other, k);
    }
}

/// Fewer arcs, fewer routes: a route over `small` is one over `big`.
pub proof fn lemma_route_mono(small: Set<Arc>, big: Set<Arc>, route: Seq<int>, d: nat)
    requires
        small.subset_of(big),
        is_route(small, route, d),
    ensures
        is_route(big, route, d),
    decreases route.len(),
{
    if route.len() > 1 {
        let w = choose|w: nat| #[trigger]
            small.contains((route[route.len() - 2], route.last(), w)) && w <= d && is_route(
                small,
                route.drop_last(),
                (d - w) as nat,
            );
        lemma_route_mono(small, big, route.drop_last(), (d - w) as nat);
        assert(big.contains((route[route.len() - 2], route.last(), w)));
    }
}

} // verus!
